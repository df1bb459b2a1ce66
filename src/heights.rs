//! The height-field engine: every cell counts the faults whose half-plane holds it.
//! A fault adds one or nothing, so a height lies between zero and the fault count.

use vstd::prelude::*;
use rayon::iter::{IndexedParallelIterator, IntoParallelRefIterator, ParallelIterator};

use crate::{grid, WorldMap};

verus! {

/// What one fault says about one column: its sign flag and the crest row at
/// which its half-plane ends.
pub type Crest = (bool, usize);

/// The crests of every column: `crests[x]` holds one entry per fault.
pub open spec fn crest_grid(crests: &Vec<Vec<Crest>>) -> Seq<Seq<Crest>> {
    crests@.map_values(|c: Vec<Crest>| c@)
}

/// A fault adds one to row `y` when its flag agrees with "`y` lies on or below the crest".
pub open spec fn contribution(c: Crest, y: int) -> nat {
    if c.0 == (y <= c.1 as int) {
        1
    } else {
        0
    }
}

/// The height of row `y` in a column whose faults give the crests `col`.
pub open spec fn height_at(col: Seq<Crest>, y: int) -> nat
    decreases col.len(),
{
    if col.len() == 0 {
        0
    } else {
        height_at(col.drop_last(), y) + contribution(col.last(), y)
    }
}

/// `m` is the height field of `crests` with `h` rows per column.
pub open spec fn is_height_field(crests: Seq<Seq<Crest>>, h: nat, m: Seq<Seq<usize>>) -> bool {
    &&& m.len() == crests.len()
    &&& forall|x: int| 0 <= x < m.len() ==> (#[trigger] m[x]).len() == h
    &&& forall|x: int, y: int|
        0 <= x < m.len() && 0 <= y < h ==> #[trigger] m[x][y] == height_at(crests[x], y)
}

/// A cell's height never exceeds the number of faults over its column.
pub proof fn lemma_height_bounded(col: Seq<Crest>, y: int)
    ensures
        height_at(col, y) <= col.len(),
    decreases col.len(),
{
    if col.len() > 0 {
        lemma_height_bounded(col.drop_last(), y);
    }
}

/// Height fields are a function of the crests and the row count alone: any
/// two results for the same input agree cell by cell, whatever order the
/// columns were computed in.
pub proof fn lemma_height_field_deterministic(
    crests: Seq<Seq<Crest>>,
    h: nat,
    a: Seq<Seq<usize>>,
    b: Seq<Seq<usize>>,
)
    requires
        is_height_field(crests, h, a),
        is_height_field(crests, h, b),
    ensures
        a == b,
{
    assert forall|x: int| 0 <= x < a.len() implies a[x] == b[x] by {
        assert(a[x] =~= b[x]);
    }
    assert(a =~= b);
}

/// Every cell of a height field lies between zero and the fault count of its column.
pub proof fn lemma_height_field_bounded(crests: Seq<Seq<Crest>>, h: nat, m: Seq<Seq<usize>>)
    requires
        is_height_field(crests, h, m),
    ensures
        forall|x: int, y: int|
            0 <= x < m.len() && 0 <= y < h ==> #[trigger] m[x][y] <= crests[x].len(),
{
    assert forall|x: int, y: int| 0 <= x < m.len() && 0 <= y < h implies #[trigger] m[x][y]
        <= crests[x].len() by {
        lemma_height_bounded(crests[x], y);
    }
}

/// The height of row `y` in one column.
pub fn cell_height(col: &Vec<Crest>, y: usize) -> (r: usize)
    ensures
        r == height_at(col@, y as int),
        r <= col@.len(),
{
    let mut sum: usize = 0;
    let mut i: usize = 0;
    while i < col.len()
        invariant
            i <= col@.len(),
            sum == height_at(col@.subrange(0, i as int), y as int),
            sum <= i,
        decreases col@.len() - i,
    {
        let c = col[i];
        assert(col@.subrange(0, i + 1).drop_last() =~= col@.subrange(0, i as int));
        if c.0 == (y <= c.1) {
            sum = sum + 1;
        }
        i = i + 1;
    }
    assert(col@.subrange(0, col@.len() as int) =~= col@);
    sum
}

/// The `h` heights of one column, row by row.
pub fn column_heights(col: &Vec<Crest>, h: usize) -> (r: Vec<usize>)
    ensures
        r@.len() == h,
        forall|y: int| 0 <= y < h ==> #[trigger] r@[y] == height_at(col@, y),
{
    let mut r: Vec<usize> = Vec::with_capacity(h);
    let mut y: usize = 0;
    while y < h
        invariant
            y <= h,
            r@.len() == y,
            forall|j: int| 0 <= j < y ==> #[trigger] r@[j] == height_at(col@, j),
        decreases h - y,
    {
        let v = cell_height(col, y);
        r.push(v);
        y = y + 1;
    }
    r
}

/// Relies on rayon's `par_iter`, `map` and `collect_into_vec` on an indexed
/// parallel iterator: one result per column, kept in the columns' order, each
/// one computed by `column_heights`.
#[verifier::external_body]
fn par_column_heights(crests: &Vec<Vec<Crest>>, h: usize) -> (r: WorldMap)
    ensures
        is_height_field(crest_grid(crests), h as nat, grid(&r)),
{
    let mut r: WorldMap = Vec::new();
    crests.par_iter().map(|col| column_heights(col, h)).collect_into_vec(&mut r);
    r
}

/// The height field of a map `crests.len()` columns wide and `h` rows high,
/// where `crests[x]` gives, for each fault, its flag and its crest row in column `x`.
/// The columns are computed in parallel.
pub fn map_from_crests(crests: &Vec<Vec<Crest>>, h: usize) -> (r: WorldMap)
    ensures
        is_height_field(crest_grid(crests), h as nat, grid(&r)),
        forall|x: int, y: int|
            0 <= x < crests@.len() && 0 <= y < h ==> #[trigger] grid(&r)[x][y]
                <= crests@[x]@.len(),
{
    let r = par_column_heights(crests, h);
    proof {
        lemma_height_field_bounded(crest_grid(crests), h as nat, grid(&r));
    }
    r
}

} // verus!
