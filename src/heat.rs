use vstd::prelude::*;

verus! {

/// The fixed role of a tile in the simulation.
#[derive(Clone, Copy, Debug, PartialEq, Eq, Structural)]
pub enum Heat {
    /// Raises every cooler neighbour by `produced_per_tick`. The tile's own
    /// heat is the ceiling that decides which neighbours are cooler, and it
    /// never changes.
    Source { produced_per_tick: i64 },
    /// Lowers every warmer neighbour by `absorbed_per_tick`. The tile's own
    /// heat is the floor that decides which neighbours are warmer, and it
    /// never changes.
    Sink { absorbed_per_tick: i64 },
    /// Passes `rate` percent of its heat surplus over each neighbour on to
    /// the neighbourhood every tick.
    Conductor { rate: i64 },
}

} // verus!
