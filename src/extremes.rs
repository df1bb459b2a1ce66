//! The extremes of a height field, and the field shifted so that its minimum is zero.

use vstd::prelude::*;

use crate::{grid, WorldMap};

verus! {

/// `(x, y)` names a cell of `m`.
pub open spec fn is_cell(m: Seq<Seq<usize>>, x: int, y: int) -> bool {
    0 <= x < m.len() && 0 <= y < m[x].len()
}

/// `m` holds at least one cell.
pub open spec fn has_cells(m: Seq<Seq<usize>>) -> bool {
    exists|x: int, y: int| is_cell(m, x, y)
}

/// No cell of `m` lies below `v`, and some cell equals it.
pub open spec fn is_min(m: Seq<Seq<usize>>, v: int) -> bool {
    &&& forall|x: int, y: int| is_cell(m, x, y) ==> v <= #[trigger] m[x][y]
    &&& exists|x: int, y: int| is_cell(m, x, y) && m[x][y] == v
}

/// No cell of `m` lies above `v`, and some cell equals it.
pub open spec fn is_max(m: Seq<Seq<usize>>, v: int) -> bool {
    &&& forall|x: int, y: int| is_cell(m, x, y) ==> #[trigger] m[x][y] <= v
    &&& exists|x: int, y: int| is_cell(m, x, y) && m[x][y] == v
}

/// `a` and `b` have the same columns, of the same lengths.
pub open spec fn same_shape(a: Seq<Seq<usize>>, b: Seq<Seq<usize>>) -> bool {
    &&& a.len() == b.len()
    &&& forall|x: int| 0 <= x < a.len() ==> (#[trigger] a[x]).len() == b[x].len()
}

/// The smallest cell of the map; `usize::MAX` when it holds no cell.
pub fn world_min(map: &WorldMap) -> (r: usize)
    ensures
        has_cells(grid(map)) ==> is_min(grid(map), r as int),
        !has_cells(grid(map)) ==> r == usize::MAX,
{
    let ghost g = grid(map);
    let mut r: usize = usize::MAX;
    let ghost mut found = false;
    let ghost mut wx: int = 0;
    let ghost mut wy: int = 0;
    let mut i: usize = 0;
    while i < map.len()
        invariant
            g == grid(map),
            i <= g.len(),
            forall|x: int, y: int| 0 <= x < i && is_cell(g, x, y) ==> r <= #[trigger] g[x][y],
            found ==> is_cell(g, wx, wy) && g[wx][wy] == r,
            !found ==> r == usize::MAX,
        decreases g.len() - i,
    {
        let col = &map[i];
        assert(g[i as int] == col@);
        let mut j: usize = 0;
        while j < col.len()
            invariant
                g == grid(map),
                i < g.len(),
                g[i as int] == col@,
                j <= col@.len(),
                forall|x: int, y: int|
                    ((0 <= x < i && is_cell(g, x, y)) || (x == i && 0 <= y < j)) ==> r
                        <= #[trigger] g[x][y],
                found ==> is_cell(g, wx, wy) && g[wx][wy] == r,
                !found ==> r == usize::MAX,
            decreases col@.len() - j,
        {
            if col[j] < r {
                r = col[j];
                proof {
                    found = true;
                    wx = i as int;
                    wy = j as int;
                }
            }
            j = j + 1;
        }
        i = i + 1;
    }
    proof {
        if has_cells(g) {
            let (x, y) = choose|x: int, y: int| is_cell(g, x, y);
            if !found {
                assert(r <= g[x][y]);
                assert(is_cell(g, x, y) && g[x][y] == r);
            } else {
                assert(is_cell(g, wx, wy) && g[wx][wy] == r);
            }
        }
    }
    r
}

/// The largest cell of the map; zero when it holds no cell.
pub fn world_max(map: &WorldMap) -> (r: usize)
    ensures
        has_cells(grid(map)) ==> is_max(grid(map), r as int),
        !has_cells(grid(map)) ==> r == 0,
{
    let ghost g = grid(map);
    let mut r: usize = 0;
    let ghost mut found = false;
    let ghost mut wx: int = 0;
    let ghost mut wy: int = 0;
    let mut i: usize = 0;
    while i < map.len()
        invariant
            g == grid(map),
            i <= g.len(),
            forall|x: int, y: int| 0 <= x < i && is_cell(g, x, y) ==> #[trigger] g[x][y] <= r,
            found ==> is_cell(g, wx, wy) && g[wx][wy] == r,
            !found ==> r == 0,
        decreases g.len() - i,
    {
        let col = &map[i];
        assert(g[i as int] == col@);
        let mut j: usize = 0;
        while j < col.len()
            invariant
                g == grid(map),
                i < g.len(),
                g[i as int] == col@,
                j <= col@.len(),
                forall|x: int, y: int|
                    ((0 <= x < i && is_cell(g, x, y)) || (x == i && 0 <= y < j)) ==> #[trigger] g[x][y]
                        <= r,
                found ==> is_cell(g, wx, wy) && g[wx][wy] == r,
                !found ==> r == 0,
            decreases col@.len() - j,
        {
            if col[j] > r {
                r = col[j];
                proof {
                    found = true;
                    wx = i as int;
                    wy = j as int;
                }
            }
            j = j + 1;
        }
        i = i + 1;
    }
    proof {
        if has_cells(g) {
            let (x, y) = choose|x: int, y: int| is_cell(g, x, y);
            if !found {
                assert(g[x][y] <= r);
                assert(is_cell(g, x, y) && g[x][y] == r);
            } else {
                assert(is_cell(g, wx, wy) && g[wx][wy] == r);
            }
        }
    }
    r
}

/// The lowest cell value of `m`, where it holds a cell.
pub open spec fn min_of(m: Seq<Seq<usize>>) -> int {
    choose|v: int| is_min(m, v)
}

/// The highest cell value of `m`, where it holds a cell.
pub open spec fn max_of(m: Seq<Seq<usize>>) -> int {
    choose|v: int| is_max(m, v)
}

/// `m` with `min_of(m)` subtracted from every cell.
pub open spec fn shifted(m: Seq<Seq<usize>>) -> Seq<Seq<usize>> {
    m.map_values(|c: Seq<usize>| c.map_values(|v: usize| (v - min_of(m)) as usize))
}

/// The minimum of a field is unique.
pub proof fn lemma_min_of(m: Seq<Seq<usize>>, v: int)
    requires
        is_min(m, v),
    ensures
        min_of(m) == v,
{
    let w = min_of(m);
    assert(is_min(m, w));
    let (x, y) = choose|x: int, y: int| is_cell(m, x, y) && m[x][y] == v;
    let (a, b) = choose|a: int, b: int| is_cell(m, a, b) && m[a][b] == w;
    assert(w <= m[x][y]);
    assert(v <= m[a][b]);
}

/// The maximum of a field is unique.
pub proof fn lemma_max_of(m: Seq<Seq<usize>>, v: int)
    requires
        is_max(m, v),
    ensures
        max_of(m) == v,
{
    let w = max_of(m);
    assert(is_max(m, w));
    let (x, y) = choose|x: int, y: int| is_cell(m, x, y) && m[x][y] == v;
    let (a, b) = choose|a: int, b: int| is_cell(m, a, b) && m[a][b] == w;
    assert(m[x][y] <= w);
    assert(m[a][b] <= v);
}

/// A field that holds a cell has a minimum.
pub proof fn lemma_min_exists(m: Seq<Seq<usize>>)
    requires
        has_cells(m),
    ensures
        is_min(m, min_of(m)),
{
    let (x, y) = choose|x: int, y: int| is_cell(m, x, y);
    lemma_min_below(m, m[x][y] as int);
}

/// Where some cell lies at or below `k`, a minimum exists.
proof fn lemma_min_below(m: Seq<Seq<usize>>, k: int)
    requires
        0 <= k,
        exists|x: int, y: int| is_cell(m, x, y) && m[x][y] <= k,
    ensures
        is_min(m, min_of(m)),
    decreases k,
{
    if k > 0 && exists|x: int, y: int| is_cell(m, x, y) && m[x][y] <= k - 1 {
        lemma_min_below(m, k - 1);
    } else {
        let (x, y) = choose|x: int, y: int| is_cell(m, x, y) && m[x][y] <= k;
        assert(is_min(m, m[x][y] as int));
    }
}

/// A field that holds a cell has a maximum.
pub proof fn lemma_max_exists(m: Seq<Seq<usize>>)
    requires
        has_cells(m),
    ensures
        is_max(m, max_of(m)),
{
    let (x, y) = choose|x: int, y: int| is_cell(m, x, y);
    lemma_max_above(m, m[x][y] as int);
}

/// Where some cell lies at or above `k`, a maximum exists.
proof fn lemma_max_above(m: Seq<Seq<usize>>, k: int)
    requires
        k <= usize::MAX,
        exists|x: int, y: int| is_cell(m, x, y) && m[x][y] >= k,
    ensures
        is_max(m, max_of(m)),
    decreases usize::MAX - k,
{
    if k < usize::MAX && exists|x: int, y: int| is_cell(m, x, y) && m[x][y] >= k + 1 {
        lemma_max_above(m, k + 1);
    } else {
        let (x, y) = choose|x: int, y: int| is_cell(m, x, y) && m[x][y] >= k;
        assert(is_max(m, m[x][y] as int));
    }
}

/// The map with its minimum subtracted from every cell, so that its lowest cell is zero.
pub fn normalize(map: &WorldMap) -> (r: WorldMap)
    ensures
        grid(&r) == shifted(grid(map)),
        has_cells(grid(map)) ==> is_min(grid(&r), 0),
{
    let lo = world_min(map);
    let ghost g = grid(map);
    proof {
        if has_cells(g) {
            lemma_min_of(g, lo as int);
        }
    }
    let mut r: WorldMap = Vec::with_capacity(map.len());
    let mut i: usize = 0;
    while i < map.len()
        invariant
            g == grid(map),
            has_cells(g) ==> is_min(g, lo as int) && min_of(g) == lo,
            i <= g.len(),
            r@.len() == i,
            forall|x: int| 0 <= x < i ==> (#[trigger] r@[x])@ == shifted(g)[x],
        decreases g.len() - i,
    {
        let col = &map[i];
        assert(g[i as int] == col@);
        let mut c: Vec<usize> = Vec::with_capacity(col.len());
        let mut j: usize = 0;
        while j < col.len()
            invariant
                g == grid(map),
                has_cells(g) ==> is_min(g, lo as int) && min_of(g) == lo,
                i < g.len(),
                g[i as int] == col@,
                j <= col@.len(),
                c@.len() == j,
                forall|y: int| 0 <= y < j ==> #[trigger] c@[y] == (col@[y] - min_of(g)) as usize,
            decreases col@.len() - j,
        {
            assert(is_cell(g, i as int, j as int));
            assert(lo <= g[i as int][j as int]);
            c.push(col[j] - lo);
            j = j + 1;
        }
        assert(c@ =~= shifted(g)[i as int]);
        r.push(c);
        i = i + 1;
    }
    let ghost gr = grid(&r);
    assert(gr =~= shifted(g));
    proof {
        if has_cells(g) {
            let (mx, my) = choose|x: int, y: int| is_cell(g, x, y) && g[x][y] == lo;
            assert(is_cell(gr, mx, my) && gr[mx][my] == 0);
        }
    }
    r
}

} // verus!
