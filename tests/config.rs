use fault_terrain::colors::{color_field, count_cells, ConfigError};
use fault_terrain::WorldMap;

#[test]
fn color_field_matches_colormap_on_valid_input() {
    let m = vec![vec![10, 12], vec![14, 16]];
    assert_eq!(color_field(m, 2, 10, 10), Ok(vec![vec![0, 6], vec![13, 19]]));
}

#[test]
fn color_field_rejects_missing_buckets() {
    let m = vec![vec![1, 2]];
    assert_eq!(color_field(m.clone(), 1, 0, 4), Err(ConfigError::NoBuckets));
    assert_eq!(color_field(m.clone(), 1, 4, 0), Err(ConfigError::NoBuckets));
    assert_eq!(color_field(m, 1, usize::MAX, 1), Err(ConfigError::NoBuckets));
}

#[test]
fn color_field_rejects_zero_area() {
    let none: WorldMap = Vec::new();
    assert_eq!(color_field(none, 0, 16, 16), Err(ConfigError::NoCells));
    let empty_columns: WorldMap = vec![Vec::new(), Vec::new()];
    assert_eq!(color_field(empty_columns, 0, 16, 16), Err(ConfigError::NoCells));
}

#[test]
fn color_field_rejects_too_much_water() {
    let m = vec![vec![1, 2], vec![3]];
    assert_eq!(color_field(m, 4, 16, 16), Err(ConfigError::WaterOutOfRange));
}

#[test]
fn color_field_rejects_height_without_level_above() {
    let m = vec![vec![1, usize::MAX]];
    assert_eq!(color_field(m, 1, 16, 16), Err(ConfigError::HeightOutOfRange));
}

#[test]
fn color_field_accepts_all_water_and_no_water() {
    let m = vec![vec![0, 1], vec![2, 3]];
    assert_eq!(color_field(m.clone(), 4, 8, 8), Ok(vec![vec![0, 2], vec![4, 6]]));
    // no water: level 0, every cell is land over 0..=3
    assert_eq!(color_field(m, 0, 8, 8), Ok(vec![vec![8, 10], vec![13, 15]]));
}

#[test]
fn count_cells_sums_column_lengths() {
    assert_eq!(count_cells(&vec![vec![1, 2, 3], Vec::new(), vec![4]]), Some(4));
    assert_eq!(count_cells(&Vec::new()), Some(0));
}
