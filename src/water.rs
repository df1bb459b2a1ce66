//! The water-threshold solver: the lowest level below which enough cells lie.

use vstd::prelude::*;

use crate::extremes::{has_cells, is_cell, is_max, is_min, world_max};
use crate::{grid, WorldMap};

verus! {

/// How many cells of column `c` lie strictly below `t`.
pub open spec fn count_col(c: Seq<usize>, t: int) -> nat
    decreases c.len(),
{
    if c.len() == 0 {
        0
    } else {
        count_col(c.drop_last(), t) + if c.last() < t {
            1nat
        } else {
            0nat
        }
    }
}

/// How many cells of `m` lie strictly below `t`.
pub open spec fn count_below(m: Seq<Seq<usize>>, t: int) -> nat
    decreases m.len(),
{
    if m.len() == 0 {
        0
    } else {
        count_below(m.drop_last(), t) + count_col(m.last(), t)
    }
}

/// The number of cells of `m`.
pub open spec fn cell_count(m: Seq<Seq<usize>>) -> nat
    decreases m.len(),
{
    if m.len() == 0 {
        0
    } else {
        cell_count(m.drop_last()) + m.last().len()
    }
}

/// `t` is the least level with at least `target` cells strictly below it.
pub open spec fn is_threshold(m: Seq<Seq<usize>>, target: int, t: int) -> bool {
    &&& 0 <= t
    &&& count_below(m, t) >= target
    &&& forall|s: int| 0 <= s < t ==> #[trigger] count_below(m, s) < target
}

/// The threshold of `m` for `target`, where one exists.
pub open spec fn threshold_of(m: Seq<Seq<usize>>, target: int) -> int {
    choose|t: int| is_threshold(m, target, t)
}

/// A target has at most one threshold.
pub proof fn lemma_threshold_of(m: Seq<Seq<usize>>, target: int, t: int)
    requires
        is_threshold(m, target, t),
    ensures
        threshold_of(m, target) == t,
{
    let u = threshold_of(m, target);
    assert(is_threshold(m, target, u));
    if u < t {
        assert(count_below(m, u) < target);
    }
    if t < u {
        assert(count_below(m, t) < target);
    }
}

/// A column has no more cells below `t` than it has cells, and all of them
/// when every cell lies below `t`.
pub proof fn lemma_count_col_bounded(c: Seq<usize>, t: int)
    ensures
        count_col(c, t) <= c.len(),
        (forall|y: int| 0 <= y < c.len() ==> #[trigger] c[y] < t) ==> count_col(c, t) == c.len(),
    decreases c.len(),
{
    if c.len() > 0 {
        lemma_count_col_bounded(c.drop_last(), t);
    }
}

/// A field has no more cells below `t` than it has cells, and all of them
/// when every cell lies below `t`.
pub proof fn lemma_count_below_bounded(m: Seq<Seq<usize>>, t: int)
    ensures
        count_below(m, t) <= cell_count(m),
        (forall|x: int, y: int| is_cell(m, x, y) ==> #[trigger] m[x][y] < t) ==> count_below(m, t)
            == cell_count(m),
    decreases m.len(),
{
    if m.len() > 0 {
        let p = m.drop_last();
        lemma_count_below_bounded(p, t);
        lemma_count_col_bounded(m.last(), t);
        if forall|x: int, y: int| is_cell(m, x, y) ==> #[trigger] m[x][y] < t {
            assert forall|x: int, y: int| is_cell(p, x, y) implies #[trigger] p[x][y] < t by {
                assert(is_cell(m, x, y));
                assert(p[x] == m[x]);
            }
            assert forall|y: int| 0 <= y < m.last().len() implies #[trigger] m.last()[y] < t by {
                assert(is_cell(m, m.len() - 1, y));
            }
        }
    }
}

/// The number of cells of column `c` strictly below `t`.
fn count_col_below(c: &Vec<usize>, t: usize) -> (r: usize)
    ensures
        r == count_col(c@, t as int),
{
    let mut n: usize = 0;
    let mut j: usize = 0;
    while j < c.len()
        invariant
            j <= c@.len(),
            n == count_col(c@.subrange(0, j as int), t as int),
            n <= j,
        decreases c@.len() - j,
    {
        assert(c@.subrange(0, j + 1).drop_last() =~= c@.subrange(0, j as int));
        if c[j] < t {
            n = n + 1;
        }
        j = j + 1;
    }
    assert(c@.subrange(0, c@.len() as int) =~= c@);
    n
}

/// The number of cells of the map strictly below `t`.
pub fn cells_below(map: &WorldMap, t: usize) -> (r: usize)
    requires
        cell_count(grid(map)) <= usize::MAX,
    ensures
        r == count_below(grid(map), t as int),
{
    let ghost g = grid(map);
    let mut n: usize = 0;
    let mut i: usize = 0;
    while i < map.len()
        invariant
            g == grid(map),
            cell_count(g) <= usize::MAX,
            i <= g.len(),
            n == count_below(g.subrange(0, i as int), t as int),
            n <= cell_count(g.subrange(0, i as int)),
        decreases g.len() - i,
    {
        let ghost p = g.subrange(0, i + 1);
        assert(p.drop_last() =~= g.subrange(0, i as int));
        assert(p.last() == map@[i as int]@);
        let k = count_col_below(&map[i], t);
        proof {
            lemma_count_col_bounded(p.last(), t as int);
            lemma_cell_count_prefix(g, i + 1);
        }
        n = n + k;
        i = i + 1;
    }
    assert(g.subrange(0, g.len() as int) =~= g);
    n
}

/// The leading columns of a field hold no more cells than the whole field.
pub proof fn lemma_cell_count_prefix(m: Seq<Seq<usize>>, i: int)
    requires
        0 <= i <= m.len(),
    ensures
        cell_count(m.subrange(0, i)) <= cell_count(m),
    decreases m.len(),
{
    if i < m.len() {
        assert(m.drop_last().subrange(0, i) =~= m.subrange(0, i));
        lemma_cell_count_prefix(m.drop_last(), i);
    } else {
        assert(m.subrange(0, i) =~= m);
    }
}

/// The least level `t` such that at least `target` cells lie strictly below it,
/// found by scanning upward from zero.
pub fn find_threshold(map: &WorldMap, target: usize) -> (t: usize)
    requires
        target <= cell_count(grid(map)),
        cell_count(grid(map)) <= usize::MAX,
        forall|x: int, y: int| is_cell(grid(map), x, y) ==> #[trigger] grid(map)[x][y] < usize::MAX,
    ensures
        is_threshold(grid(map), target as int, t as int),
{
    let ghost g = grid(map);
    let hi = world_max(map);
    proof {
        if has_cells(g) {
            assert(is_max(g, hi as int));
            let (x, y) = choose|x: int, y: int| is_cell(g, x, y) && g[x][y] == hi;
            assert(g[x][y] < usize::MAX);
        }
        assert forall|x: int, y: int| is_cell(g, x, y) implies #[trigger] g[x][y] < hi + 1 by {
            assert(has_cells(g));
        }
        lemma_count_below_bounded(g, hi + 1);
    }
    let mut t: usize = 0;
    while cells_below(map, t) < target
        invariant
            g == grid(map),
            target <= cell_count(g),
            cell_count(g) <= usize::MAX,
            hi < usize::MAX,
            count_below(g, hi + 1) == cell_count(g),
            t <= hi + 1,
            forall|s: int| 0 <= s < t ==> #[trigger] count_below(g, s) < target,
        decreases hi + 1 - t,
    {
        t = t + 1;
    }
    proof {
        lemma_threshold_of(g, target as int, t as int);
    }
    t
}

/// Asking for more water never lowers the level: the threshold for a larger
/// target is at least the threshold for a smaller one.
pub proof fn lemma_threshold_monotone(m: Seq<Seq<usize>>, a: int, b: int, ta: int, tb: int)
    requires
        a <= b,
        is_threshold(m, a, ta),
        is_threshold(m, b, tb),
    ensures
        ta <= tb,
{
    if tb < ta {
        assert(count_below(m, tb) < a);
    }
}

/// With no water asked for, the level is zero, which on a field whose lowest
/// cell is zero is that minimum.
pub proof fn lemma_threshold_no_water(m: Seq<Seq<usize>>, t: int)
    requires
        is_threshold(m, 0, t),
    ensures
        t == 0,
        is_min(m, 0) ==> is_min(m, t),
{
    if t > 0 {
        assert(count_below(m, 0) < 0);
    }
}

/// With every cell asked for as water, the level lies above every cell.
pub proof fn lemma_threshold_all_water(m: Seq<Seq<usize>>, t: int)
    requires
        is_threshold(m, cell_count(m) as int, t),
    ensures
        forall|x: int, y: int| is_cell(m, x, y) ==> #[trigger] m[x][y] < t,
{
    assert forall|x: int, y: int| is_cell(m, x, y) implies #[trigger] m[x][y] < t by {
        if m[x][y] >= t {
            lemma_count_misses_cell(m, t, x, y);
        }
    }
}

/// A cell at or above `t` is one that `count_below` leaves out.
proof fn lemma_count_misses_cell(m: Seq<Seq<usize>>, t: int, x: int, y: int)
    requires
        is_cell(m, x, y),
        m[x][y] >= t,
    ensures
        count_below(m, t) < cell_count(m),
    decreases m.len(),
{
    let p = m.drop_last();
    lemma_count_below_bounded(p, t);
    if x == m.len() - 1 {
        lemma_count_col_misses(m.last(), t, y);
    } else {
        assert(p[x] == m[x]);
        lemma_count_misses_cell(p, t, x, y);
        lemma_count_col_bounded(m.last(), t);
    }
}

/// A cell of a column at or above `t` is one that `count_col` leaves out.
proof fn lemma_count_col_misses(c: Seq<usize>, t: int, y: int)
    requires
        0 <= y < c.len(),
        c[y] >= t,
    ensures
        count_col(c, t) < c.len(),
    decreases c.len(),
{
    lemma_count_col_bounded(c.drop_last(), t);
    if y < c.len() - 1 {
        lemma_count_col_misses(c.drop_last(), t, y);
    }
}

} // verus!
