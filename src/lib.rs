//! Fault-plane terrain synthesis: a height field accumulated from fault crests,
//! a water level solved as a quantile of that field, and a quantizer that turns
//! heights into palette bucket indices.

use vstd::prelude::*;

pub mod colors;
pub mod extremes;
pub mod heights;
pub mod water;

verus! {

/// A dense grid indexed as `map[x][y]`: one inner vector per column.
pub type WorldMap = Vec<Vec<usize>>;

/// The mathematical content of a `WorldMap`: a sequence of columns of cell values.
pub open spec fn grid(m: &WorldMap) -> Seq<Seq<usize>> {
    m@.map_values(|c: Vec<usize>| c@)
}

} // verus!
