//! Heat diffusion on a rectangular grid of tiles.
//!
//! Each tile is a heat source, a heat sink or a passive conductor. A tick
//! sweeps the grid once, in place, and updates heat according to each tile's
//! behaviour and its orthogonal neighbours. Heat is an integer quantity and
//! every update saturates at the bounds of `i64`.
//!
//! - `heat`: the three behaviours.
//! - `tile`: a tile and its colour.
//! - `neighbors`: which tiles are neighbours, and where tiles are stored.
//! - `rules`: what a tile does to its neighbours, and a whole sweep.
//! - `world`: the grid, its tick and picture, and the builder.

pub mod heat;
pub mod neighbors;
pub mod rules;
pub mod tile;
pub mod world;
