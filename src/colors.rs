//! The color quantizer: each height becomes a palette bucket, with one run of
//! buckets for water shades and the run after it for land shades.

use vstd::prelude::*;

use crate::extremes::{
    has_cells, is_cell, is_max, is_min, lemma_max_exists, lemma_max_of, lemma_min_exists, lemma_min_of, max_of, min_of, normalize,
    same_shape, shifted, world_max, world_min,
};
use crate::water::{cell_count, find_threshold, lemma_cell_count_prefix, threshold_of};
use crate::{grid, WorldMap};

verus! {

/// The bucket of height `h` in a field spanning `lo..=hi` with water level `t`:
/// heights below `t` spread over `0..wb`, the others over `wb..wb + lb`.
/// A side whose span is empty maps to the first bucket of its run.
pub open spec fn bucket_of(h: int, lo: int, t: int, hi: int, wb: int, lb: int) -> int {
    if h < t {
        if t == lo {
            0
        } else {
            let v = (h - lo) * wb / (t - lo);
            if v >= wb {
                wb - 1
            } else {
                v
            }
        }
    } else {
        if hi == t {
            wb
        } else {
            let v = (h - t) * lb / (hi - t);
            if v >= lb {
                wb + lb - 1
            } else {
                wb + v
            }
        }
    }
}

/// Every cell of `m` replaced by its bucket for water level `t`.
pub open spec fn quantized(m: Seq<Seq<usize>>, t: int, wb: int, lb: int) -> Seq<Seq<usize>> {
    m.map_values(
        |c: Seq<usize>| c.map_values(|v: usize| bucket_of(v as int, min_of(m), t, max_of(m), wb, lb) as usize),
    )
}

/// The color field of height field `m` with `target` cells asked for as water:
/// the field is shifted down to a minimum of zero, its water level solved, and
/// every cell quantized against that level.
pub open spec fn colormap(m: Seq<Seq<usize>>, target: int, wb: int, lb: int) -> Seq<Seq<usize>> {
    quantized(shifted(m), threshold_of(shifted(m), target), wb, lb)
}

/// A bucket always lies in `0..wb + lb`; heights below the water level get a
/// water bucket (below `wb`), the others a land bucket.
pub proof fn lemma_bucket_range(h: int, lo: int, t: int, hi: int, wb: int, lb: int)
    requires
        lo <= h <= hi,
        1 <= wb,
        1 <= lb,
    ensures
        0 <= bucket_of(h, lo, t, hi, wb, lb) < wb + lb,
        h < t ==> bucket_of(h, lo, t, hi, wb, lb) < wb,
        h >= t ==> wb <= bucket_of(h, lo, t, hi, wb, lb),
{
    if h < t && t != lo {
        assert(0 <= (h - lo) * wb / (t - lo)) by (nonlinear_arith)
            requires
                lo <= h < t,
                1 <= wb,
        ;
    }
    if h >= t && hi != t {
        assert(0 <= (h - t) * lb / (hi - t)) by (nonlinear_arith)
            requires
                t <= h <= hi,
                hi != t,
                1 <= lb,
        ;
    }
}

/// Every cell of a quantized field lies in `0..wb + lb`, and a cell below the
/// water level never gets a land bucket.
pub proof fn lemma_quantized_range(m: Seq<Seq<usize>>, t: int, wb: int, lb: int)
    requires
        1 <= wb,
        1 <= lb,
        wb + lb <= usize::MAX,
    ensures
        same_shape(m, quantized(m, t, wb, lb)),
        forall|x: int, y: int|
            is_cell(m, x, y) ==> #[trigger] quantized(m, t, wb, lb)[x][y] < wb + lb,
        forall|x: int, y: int|
            is_cell(m, x, y) && m[x][y] < t ==> #[trigger] quantized(m, t, wb, lb)[x][y] < wb,
{
    let q = quantized(m, t, wb, lb);
    assert forall|x: int, y: int| is_cell(m, x, y) implies #[trigger] q[x][y] < wb + lb && (m[x][y]
        < t ==> q[x][y] < wb) by {
        assert(has_cells(m));
        lemma_min_exists(m);
        lemma_max_exists(m);
        lemma_bucket_range(m[x][y] as int, min_of(m), t, max_of(m), wb, lb);
    }
}

/// A product of two `usize` values fits in a `u128`.
proof fn lemma_product_fits(a: int, b: int)
    requires
        0 <= a <= usize::MAX,
        0 <= b <= usize::MAX,
    ensures
        0 <= a * b <= u128::MAX,
{
    assert(0 <= a * b <= usize::MAX * usize::MAX) by (nonlinear_arith)
        requires
            0 <= a <= usize::MAX,
            0 <= b <= usize::MAX,
    ;
}

/// The palette bucket of height `h`, for a field spanning `lo..=hi` with water
/// level `t`, `water_buckets` water shades and `land_buckets` land shades.
pub fn bucket(h: usize, lo: usize, t: usize, hi: usize, water_buckets: usize, land_buckets: usize) -> (r: usize)
    requires
        lo <= h <= hi,
        1 <= water_buckets,
        1 <= land_buckets,
        water_buckets + land_buckets <= usize::MAX,
    ensures
        r == bucket_of(h as int, lo as int, t as int, hi as int, water_buckets as int, land_buckets as int),
        r < water_buckets + land_buckets,
        h < t ==> r < water_buckets,
        h >= t ==> water_buckets <= r,
{
    proof {
        lemma_bucket_range(h as int, lo as int, t as int, hi as int, water_buckets as int, land_buckets as int);
    }
    if h < t {
        if t == lo {
            0
        } else {
            proof {
                lemma_product_fits((h - lo) as int, water_buckets as int);
            }
            let num: u128 = (h - lo) as u128 * water_buckets as u128;
            let v: u128 = num / ((t - lo) as u128);
            if v >= water_buckets as u128 {
                water_buckets - 1
            } else {
                v as usize
            }
        }
    } else {
        if hi == t {
            water_buckets
        } else {
            proof {
                lemma_product_fits((h - t) as int, land_buckets as int);
            }
            let num: u128 = (h - t) as u128 * land_buckets as u128;
            let v: u128 = num / ((hi - t) as u128);
            if v >= land_buckets as u128 {
                water_buckets + land_buckets - 1
            } else {
                water_buckets + v as usize
            }
        }
    }
}

/// Every cell of the map replaced by its palette bucket for water level `t`,
/// measured against the map's own minimum and maximum.
pub fn quantize(map: &WorldMap, t: usize, water_buckets: usize, land_buckets: usize) -> (r: WorldMap)
    requires
        1 <= water_buckets,
        1 <= land_buckets,
        water_buckets + land_buckets <= usize::MAX,
    ensures
        grid(&r) == quantized(grid(map), t as int, water_buckets as int, land_buckets as int),
        forall|x: int, y: int|
            is_cell(grid(map), x, y) ==> #[trigger] grid(&r)[x][y] < water_buckets + land_buckets,
        forall|x: int, y: int|
            is_cell(grid(map), x, y) && grid(map)[x][y] < t ==> #[trigger] grid(&r)[x][y]
                < water_buckets,
{
    let ghost g = grid(map);
    let ghost q = quantized(g, t as int, water_buckets as int, land_buckets as int);
    let lo = world_min(map);
    let hi = world_max(map);
    proof {
        if has_cells(g) {
            lemma_min_of(g, lo as int);
            lemma_max_of(g, hi as int);
        }
    }
    let mut r: WorldMap = Vec::with_capacity(map.len());
    let mut i: usize = 0;
    while i < map.len()
        invariant
            g == grid(map),
            q == quantized(g, t as int, water_buckets as int, land_buckets as int),
            1 <= water_buckets,
            1 <= land_buckets,
            water_buckets + land_buckets <= usize::MAX,
            has_cells(g) ==> is_min(g, lo as int) && min_of(g) == lo && is_max(g, hi as int)
                && max_of(g) == hi,
            i <= g.len(),
            r@.len() == i,
            forall|x: int| 0 <= x < i ==> (#[trigger] r@[x])@ == q[x],
        decreases g.len() - i,
    {
        let col = &map[i];
        assert(g[i as int] == col@);
        let mut c: Vec<usize> = Vec::with_capacity(col.len());
        let mut j: usize = 0;
        while j < col.len()
            invariant
                g == grid(map),
                q == quantized(g, t as int, water_buckets as int, land_buckets as int),
                1 <= water_buckets,
                1 <= land_buckets,
                water_buckets + land_buckets <= usize::MAX,
                has_cells(g) ==> is_min(g, lo as int) && min_of(g) == lo && is_max(g, hi as int)
                    && max_of(g) == hi,
                i < g.len(),
                g[i as int] == col@,
                j <= col@.len(),
                c@.len() == j,
                forall|y: int| 0 <= y < j ==> #[trigger] c@[y] == q[i as int][y],
            decreases col@.len() - j,
        {
            assert(is_cell(g, i as int, j as int));
            assert(lo <= g[i as int][j as int] <= hi);
            let b = bucket(col[j], lo, t, hi, water_buckets, land_buckets);
            c.push(b);
            j = j + 1;
        }
        assert(c@ =~= q[i as int]);
        r.push(c);
        i = i + 1;
    }
    assert(grid(&r) =~= q);
    proof {
        lemma_quantized_range(g, t as int, water_buckets as int, land_buckets as int);
    }
    r
}

/// The color field of a height field: the field is shifted down to a minimum of
/// zero, the least level with `target` cells strictly below it is solved, and
/// every cell becomes its palette bucket against that level.
pub fn colormap_from_worldmap(map: WorldMap, target: usize, water_buckets: usize, land_buckets: usize) -> (r: WorldMap)
    requires
        target <= cell_count(grid(&map)),
        cell_count(grid(&map)) <= usize::MAX,
        forall|x: int, y: int| is_cell(grid(&map), x, y) ==> #[trigger] grid(&map)[x][y] < usize::MAX,
        1 <= water_buckets,
        1 <= land_buckets,
        water_buckets + land_buckets <= usize::MAX,
    ensures
        grid(&r) == colormap(grid(&map), target as int, water_buckets as int, land_buckets as int),
        same_shape(grid(&map), grid(&r)),
        forall|x: int, y: int|
            is_cell(grid(&map), x, y) ==> #[trigger] grid(&r)[x][y] < water_buckets + land_buckets,
{
    let heights = normalize(&map);
    let ghost g = grid(&map);
    let ghost n = grid(&heights);
    proof {
        lemma_cell_count_same_shape(g, n);
        assert forall|x: int, y: int| is_cell(n, x, y) implies #[trigger] n[x][y] < usize::MAX by {
            assert(is_cell(g, x, y));
            lemma_min_exists(g);
            let (a, b) = choose|a: int, b: int| is_cell(g, a, b) && g[a][b] == min_of(g);
            assert(0 <= min_of(g) <= g[x][y]);
            assert(n[x][y] == (g[x][y] - min_of(g)) as usize);
        }
    }
    let t = find_threshold(&heights, target);
    let r = quantize(&heights, t, water_buckets, land_buckets);
    proof {
        lemma_quantized_range(n, t as int, water_buckets as int, land_buckets as int);
        assert forall|x: int, y: int| is_cell(g, x, y) implies #[trigger] grid(&r)[x][y]
            < water_buckets + land_buckets by {
            assert(is_cell(n, x, y));
        }
    }
    r
}

/// Fields of the same shape hold the same number of cells.
proof fn lemma_cell_count_same_shape(a: Seq<Seq<usize>>, b: Seq<Seq<usize>>)
    requires
        same_shape(a, b),
    ensures
        cell_count(a) == cell_count(b),
    decreases a.len(),
{
    if a.len() > 0 {
        lemma_cell_count_same_shape(a.drop_last(), b.drop_last());
    }
}

/// Why a color field was not computed.
#[derive(PartialEq, Eq, Structural, Debug, Clone, Copy)]
pub enum ConfigError {
    /// A side of the palette has no bucket, or the two sides overflow an index.
    NoBuckets,
    /// The map holds no cell.
    NoCells,
    /// The map holds more cells than an index can count.
    TooManyCells,
    /// More water cells were asked for than the map holds.
    WaterOutOfRange,
    /// A height leaves no level above it.
    HeightOutOfRange,
}

/// The first reason, in the order of `ConfigError`, not to compute a color field.
pub open spec fn config_error(m: Seq<Seq<usize>>, target: int, wb: int, lb: int) -> Option<ConfigError> {
    if wb == 0 || lb == 0 || wb + lb > usize::MAX {
        Some(ConfigError::NoBuckets)
    } else if cell_count(m) == 0 {
        Some(ConfigError::NoCells)
    } else if cell_count(m) > usize::MAX {
        Some(ConfigError::TooManyCells)
    } else if target > cell_count(m) {
        Some(ConfigError::WaterOutOfRange)
    } else if exists|x: int, y: int| is_cell(m, x, y) && m[x][y] == usize::MAX {
        Some(ConfigError::HeightOutOfRange)
    } else {
        None
    }
}

/// A field with a positive cell count holds a cell.
proof fn lemma_counted_cells_exist(m: Seq<Seq<usize>>)
    requires
        cell_count(m) > 0,
    ensures
        has_cells(m),
    decreases m.len(),
{
    let p = m.drop_last();
    if m.last().len() > 0 {
        assert(is_cell(m, m.len() - 1, 0));
    } else {
        lemma_counted_cells_exist(p);
        let (x, y) = choose|x: int, y: int| is_cell(p, x, y);
        assert(p[x] == m[x]);
        assert(is_cell(m, x, y));
    }
}

/// The number of cells of the map, or `None` where it exceeds `usize::MAX`.
pub fn count_cells(map: &WorldMap) -> (r: Option<usize>)
    ensures
        r == (if cell_count(grid(map)) <= usize::MAX {
            Some(cell_count(grid(map)) as usize)
        } else {
            None::<usize>
        }),
{
    let ghost g = grid(map);
    let mut n: usize = 0;
    let mut i: usize = 0;
    while i < map.len()
        invariant
            g == grid(map),
            i <= g.len(),
            n == cell_count(g.subrange(0, i as int)),
        decreases g.len() - i,
    {
        let ghost p = g.subrange(0, i + 1);
        assert(p.drop_last() =~= g.subrange(0, i as int));
        assert(p.last() == map@[i as int]@);
        let k = map[i].len();
        if k > usize::MAX - n {
            proof {
                lemma_cell_count_prefix(g, i + 1);
            }
            return None;
        }
        n = n + k;
        i = i + 1;
    }
    assert(g.subrange(0, g.len() as int) =~= g);
    Some(n)
}

/// The color field of a height field with `target` cells asked for as water,
/// or the first reason in the order of `ConfigError` not to compute it.
pub fn color_field(map: WorldMap, target: usize, water_buckets: usize, land_buckets: usize) -> (r: Result<WorldMap, ConfigError>)
    ensures
        config_error(grid(&map), target as int, water_buckets as int, land_buckets as int) is Some
            <==> r is Err,
        r matches Err(e) ==> config_error(grid(&map), target as int, water_buckets as int, land_buckets as int)
            == Some(e),
        r matches Ok(c) ==> grid(&c) == colormap(grid(&map), target as int, water_buckets as int, land_buckets as int),
{
    let ghost g = grid(&map);
    if water_buckets == 0 || land_buckets == 0 || water_buckets > usize::MAX - land_buckets {
        return Err(ConfigError::NoBuckets);
    }
    let cells = match count_cells(&map) {
        None => {
            return Err(ConfigError::TooManyCells);
        },
        Some(n) => n,
    };
    if cells == 0 {
        return Err(ConfigError::NoCells);
    }
    if target > cells {
        return Err(ConfigError::WaterOutOfRange);
    }
    let hi = world_max(&map);
    proof {
        lemma_counted_cells_exist(g);
    }
    if hi == usize::MAX {
        return Err(ConfigError::HeightOutOfRange);
    }
    proof {
        assert(!(exists|x: int, y: int| is_cell(g, x, y) && g[x][y] == usize::MAX));
    }
    Ok(colormap_from_worldmap(map, target, water_buckets, land_buckets))
}

} // verus!
