use image::Rgb;
use vstd::arithmetic::div_mod::lemma_div_is_ordered;
use vstd::prelude::*;

use crate::heat::Heat;

verus! {

#[verifier::external_type_specification]
#[verifier::reject_recursive_types(T)]
pub struct ExRgb<T>(Rgb<T>);

/// One cell of the grid: a fixed behaviour and a heat value.
#[derive(Clone, Copy, Debug, PartialEq, Eq, Structural)]
pub struct Tile {
    mat_type: Heat,
    heat_energy: i64,
}

/// Magnitude of `heat` scaled so that `max_heat` maps to 255, truncated, and
/// capped at 255 when it does not fit in eight bits.
pub open spec fn channel(heat: int, max_heat: int) -> u8 {
    let magnitude: int = if heat < 0 { -heat } else { heat };
    let scaled = (255 * magnitude) / max_heat;
    if scaled > 255 {
        255
    } else {
        scaled as u8
    }
}

/// The colour of a tile holding `heat`: black for zero, red for positive
/// heat, blue for negative heat.
pub open spec fn color_of(heat: int, max_heat: int) -> Seq<u8> {
    if heat == 0 {
        seq![0u8, 0u8, 0u8]
    } else if heat > 0 {
        seq![channel(heat, max_heat), 0u8, 0u8]
    } else {
        seq![0u8, 0u8, channel(heat, max_heat)]
    }
}

/// No colour has both a red and a blue component, and zero heat is black.
pub proof fn lemma_color_sign_split(heat: int, max_heat: int)
    ensures
        color_of(heat, max_heat).len() == 3,
        color_of(heat, max_heat)[0] == 0 || color_of(heat, max_heat)[2] == 0,
        color_of(heat, max_heat)[1] == 0,
        heat == 0 ==> color_of(heat, max_heat) == seq![0u8, 0u8, 0u8],
{
}

/// On a positive scale, red grows with positive heat and blue grows with the
/// magnitude of negative heat.
pub proof fn lemma_color_monotone(h1: int, h2: int, max_heat: int)
    requires
        max_heat > 0,
    ensures
        0 < h1 <= h2 ==> color_of(h1, max_heat)[0] <= color_of(h2, max_heat)[0],
        h2 <= h1 < 0 ==> color_of(h1, max_heat)[2] <= color_of(h2, max_heat)[2],
{
    if 0 < h1 <= h2 {
        lemma_div_is_ordered(255 * h1, 255 * h2, max_heat);
    }
    if h2 <= h1 < 0 {
        lemma_div_is_ordered(255 * -h1, 255 * -h2, max_heat);
    }
}

impl Tile {
    /// The behaviour of the tile.
    pub closed spec fn kind(self) -> Heat {
        self.mat_type
    }

    /// The heat held by the tile.
    pub closed spec fn energy(self) -> i64 {
        self.heat_energy
    }

    /// The same tile holding `h`.
    pub closed spec fn with_energy(self, h: i64) -> Tile {
        Tile { heat_energy: h, ..self }
    }

    /// Setting the heat keeps the behaviour.
    pub broadcast proof fn lemma_with_energy_kind(t: Tile, h: i64)
        ensures
            #[trigger] t.with_energy(h).kind() == t.kind(),
    {
    }

    /// Setting the heat to `h` gives a tile that holds `h`.
    pub broadcast proof fn lemma_with_energy_energy(t: Tile, h: i64)
        ensures
            #[trigger] t.with_energy(h).energy() == h,
    {
    }

    /// Setting the heat to what the tile holds changes nothing.
    pub broadcast proof fn lemma_with_same_energy(t: Tile)
        ensures
            #[trigger] t.with_energy(t.energy()) == t,
    {
    }

    /// A tile with behaviour `mat` holding `energy`.
    pub fn new(mat: Heat, energy: i64) -> (r: Self)
        ensures
            r.kind() == mat,
            r.energy() == energy,
    {
        Self { mat_type: mat, heat_energy: energy }
    }

    /// A sink that absorbs `absorbtion_rate` per tick, with floor `energy`.
    pub fn new_sink(absorbtion_rate: i64, energy: i64) -> (r: Self)
        ensures
            r.kind() == (Heat::Sink { absorbed_per_tick: absorbtion_rate }),
            r.energy() == energy,
    {
        Self { mat_type: Heat::Sink { absorbed_per_tick: absorbtion_rate }, heat_energy: energy }
    }

    /// A source that produces `production_rate` per tick, with ceiling
    /// `energy`.
    pub fn new_source(production_rate: i64, energy: i64) -> (r: Self)
        ensures
            r.kind() == (Heat::Source { produced_per_tick: production_rate }),
            r.energy() == energy,
    {
        Self {
            mat_type: Heat::Source { produced_per_tick: production_rate },
            heat_energy: energy,
        }
    }

    /// A conductor holding `energy` that passes on `transfer_rate` percent
    /// of its surplus each tick.
    pub fn new_conductor(energy: i64, transfer_rate: i64) -> (r: Self)
        ensures
            r.kind() == (Heat::Conductor { rate: transfer_rate }),
            r.energy() == energy,
    {
        Self { mat_type: Heat::Conductor { rate: transfer_rate }, heat_energy: energy }
    }

    /// A conductor that holds no heat and passes none on.
    pub fn const_default() -> (r: Self)
        ensures
            r.kind() == (Heat::Conductor { rate: 0 }),
            r.energy() == 0,
    {
        Self::new(Heat::Conductor { rate: 0 }, 0)
    }

    /// The colour that shows this tile's heat on a scale where `max_heat` is
    /// full intensity.
    pub fn color_for_heat(&self, max_heat: i64) -> (r: [u8; 3])
        requires
            max_heat > 0,
        ensures
            r@ == color_of(self.energy() as int, max_heat as int),
    {
        let h = self.heat_energy;
        let mag: i128 = if h < 0 { -(h as i128) } else { h as i128 };
        let scaled: i128 = 255 * mag / (max_heat as i128);
        let c: u8 = if scaled > 255 { 255 } else { scaled as u8 };
        let r: [u8; 3] = if h == 0 {
            [0, 0, 0]
        } else if h > 0 {
            [c, 0, 0]
        } else {
            [0, 0, c]
        };
        assert(r@ =~= color_of(self.energy() as int, max_heat as int));
        r
    }

    /// The tile's colour as an image pixel.
    pub fn view(&self, max_heat: i64) -> (r: Rgb<u8>)
        requires
            max_heat > 0,
        ensures
            r.0@ == color_of(self.energy() as int, max_heat as int),
    {
        Rgb(self.color_for_heat(max_heat))
    }

    /// The behaviour of the tile.
    pub fn get_type(&self) -> (r: Heat)
        ensures
            r == self.kind(),
    {
        self.mat_type
    }

    /// Replaces the heat held by the tile; the behaviour stays.
    pub fn set_heat(&mut self, heat: i64)
        ensures
            *final(self) == old(self).with_energy(heat),
    {
        self.heat_energy = heat;
    }

    /// The heat held by the tile.
    pub fn get_heat(&self) -> (r: i64)
        ensures
            r == self.energy(),
    {
        self.heat_energy
    }
}

impl Default for Tile {
    fn default() -> (r: Self)
        ensures
            r.kind() == (Heat::Conductor { rate: 0 }),
            r.energy() == 0,
    {
        Self::const_default()
    }
}

} // verus!
