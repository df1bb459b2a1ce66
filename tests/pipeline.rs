use fault_terrain::colors::{bucket, colormap_from_worldmap, quantize};
use fault_terrain::extremes::{normalize, world_max, world_min};
use fault_terrain::heights::{cell_height, column_heights, map_from_crests};
use fault_terrain::water::{cells_below, find_threshold};
use fault_terrain::WorldMap;

fn flat(w: usize, h: usize, v: usize) -> WorldMap {
    vec![vec![v; h]; w]
}

#[test]
fn zero_faults_four_by_four_round_trip() {
    let crests: Vec<Vec<(bool, usize)>> = vec![Vec::new(); 4];
    let heights = map_from_crests(&crests, 4);
    assert_eq!(heights, flat(4, 4, 0));
    let target = (0.5f64 * 16.0) as usize;
    assert_eq!(target, 8);
    let t = find_threshold(&heights, target);
    // A flat field cannot split: the least level with 8 cells below it is one
    // above the common height, which puts all 16 cells below it.
    assert_eq!(t, 1);
    assert_eq!(cells_below(&heights, 0), 0);
    assert_eq!(cells_below(&heights, t), 16);
    let colors = colormap_from_worldmap(heights, target, 16, 16);
    assert_eq!(colors.len(), 4);
    for col in &colors {
        assert_eq!(col.len(), 4);
        for &b in col {
            assert_eq!(b, colors[0][0]);
        }
    }
    assert_eq!(colors[0][0], 0);
}

#[test]
fn one_flat_fault_splits_into_two_bands() {
    let h: usize = 10;
    let crests: Vec<Vec<(bool, usize)>> = vec![vec![(true, h / 2)]; 6];
    let heights = map_from_crests(&crests, h);
    assert_eq!(heights.len(), 6);
    for col in &heights {
        assert_eq!(col.len(), h);
        for y in 0..h {
            let expected = if y <= h / 2 { 1 } else { 0 };
            assert_eq!(col[y], expected);
        }
    }
}

#[test]
fn flag_false_counts_rows_above_the_crest() {
    let col = vec![(false, 2)];
    assert_eq!(column_heights(&col, 5), vec![0, 0, 0, 1, 1]);
}

#[test]
fn cell_height_sums_contributions() {
    let col = vec![(true, 3), (false, 1), (true, 0), (false, 4)];
    // y = 2: true&(2<=3) -> 1, false&(2<=1 is false) -> 1, true&(2<=0 false) -> 0, false&(2<=4) -> 0
    assert_eq!(cell_height(&col, 2), 2);
    assert_eq!(cell_height(&col, 0), 2);
    assert_eq!(cell_height(&col, 5), 2);
    assert_eq!(cell_height(&Vec::new(), 3), 0);
}

#[test]
fn heights_bounded_by_fault_count() {
    let col = vec![(true, 1), (true, 2), (false, 0), (true, 7), (false, 3)];
    let crests = vec![col.clone(), col.clone(), col];
    let heights = map_from_crests(&crests, 9);
    for c in &heights {
        for &v in c {
            assert!(v <= 5);
        }
    }
}

#[test]
fn parallel_columns_keep_their_order() {
    let crests: Vec<Vec<(bool, usize)>> = (0..50).map(|x| vec![(true, x)]).collect();
    let heights = map_from_crests(&crests, 60);
    assert_eq!(heights.len(), 50);
    for x in 0..50 {
        for y in 0..60 {
            assert_eq!(heights[x][y], if y <= x { 1 } else { 0 });
        }
    }
}

#[test]
fn heights_are_deterministic() {
    let crests: Vec<Vec<(bool, usize)>> = (0..40)
        .map(|x| (0..25).map(|f| ((x + f) % 3 == 0, (x * 7 + f * 11) % 30)).collect())
        .collect();
    let a = map_from_crests(&crests, 30);
    let b = map_from_crests(&crests, 30);
    assert_eq!(a, b);
}

#[test]
fn extremes_and_normalize() {
    let m = vec![vec![5, 3, 9], vec![4, 7]];
    assert_eq!(world_min(&m), 3);
    assert_eq!(world_max(&m), 9);
    assert_eq!(normalize(&m), vec![vec![2, 0, 6], vec![1, 4]]);
    let empty: WorldMap = vec![Vec::new()];
    assert_eq!(world_min(&empty), usize::MAX);
    assert_eq!(world_max(&empty), 0);
}

#[test]
fn threshold_is_least_level() {
    let m = vec![vec![0, 1, 2, 3], vec![1, 2, 2, 4]];
    assert_eq!(cells_below(&m, 2), 3);
    assert_eq!(find_threshold(&m, 0), 0);
    assert_eq!(find_threshold(&m, 1), 1);
    assert_eq!(find_threshold(&m, 3), 2);
    assert_eq!(find_threshold(&m, 4), 3);
    assert_eq!(find_threshold(&m, 6), 3);
    assert_eq!(find_threshold(&m, 8), 5);
}

#[test]
fn threshold_monotone_in_target() {
    let m = vec![vec![3, 1, 4, 1, 5], vec![9, 2, 6, 5, 3], vec![5, 8, 9, 7, 9]];
    let mut last = 0;
    for target in 0..=15 {
        let t = find_threshold(&m, target);
        assert!(t >= last);
        last = t;
    }
    assert_eq!(find_threshold(&m, 15), 10);
}

#[test]
fn bucket_formulas() {
    // water: floor((h - lo) * wb / (t - lo))
    assert_eq!(bucket(3, 0, 8, 20, 16, 16), 6);
    assert_eq!(bucket(0, 0, 8, 20, 16, 16), 0);
    assert_eq!(bucket(7, 0, 8, 20, 16, 16), 14);
    // land: floor((h - t) * lb / (hi - t)) + wb, clamped below wb + lb
    assert_eq!(bucket(8, 0, 8, 20, 16, 16), 16);
    assert_eq!(bucket(14, 0, 8, 20, 16, 16), 24);
    assert_eq!(bucket(20, 0, 8, 20, 16, 16), 31);
    // a level at the top of the field leaves the land side degenerate
    assert_eq!(bucket(20, 0, 20, 20, 16, 16), 16);
    // a level at the bottom of the field leaves the water side empty
    assert_eq!(bucket(0, 0, 0, 4, 16, 16), 16);
}

#[test]
fn quantize_range_and_sides() {
    let m = vec![vec![0, 2, 4], vec![6, 8, 10]];
    let q = quantize(&m, 5, 4, 3);
    assert_eq!(q, vec![vec![0, 1, 3], vec![4, 5, 6]]);
    for (x, col) in q.iter().enumerate() {
        for (y, &b) in col.iter().enumerate() {
            assert!(b < 7);
            if m[x][y] < 5 {
                assert!(b < 4);
            }
        }
    }
}

#[test]
fn colormap_shifts_then_quantizes() {
    let m = vec![vec![10, 12], vec![14, 16]];
    // shifted: [[0, 2], [4, 6]]; two cells below level 3
    let c = colormap_from_worldmap(m, 2, 10, 10);
    assert_eq!(c, vec![vec![0, 6], vec![13, 19]]);
}

#[test]
fn colormap_all_water() {
    let m = vec![vec![1, 2], vec![3, 4]];
    let c = colormap_from_worldmap(m, 4, 8, 8);
    // level 4 lies above every shifted cell 0..=3
    assert_eq!(c, vec![vec![0, 2], vec![4, 6]]);
}
