// Dimension lists below are those of the classic example files: a 6 x 12
// `data` variable over (x, y), and a `temperature` variable over
// (time, level, latitude, longitude) of sizes 2, 2, 6 and 12.
use nc2parquet::error::ExtractError;
use nc2parquet::extract::{
    extract_data_to_dataframe, extract_data_with_dimension_manager, DimensionIndexManager,
    DisplayCoordinate,
};
use nc2parquet::filters::{
    CoordinateTable, CoordinateVector, FilterConfig, FilterResult, KeyWindow, NC2DPointFilter,
    NCListFilter, NCRangeFilter,
};

fn dims(entries: &[(&str, usize)]) -> Vec<(String, usize)> {
    entries.iter().map(|(n, s)| (n.to_string(), *s)).collect()
}

fn single(dimension: &str, indices: Vec<usize>) -> FilterResult {
    FilterResult::Single { dimension: dimension.to_string(), indices }
}

fn pairs(a: &str, b: &str, pairs: Vec<(usize, usize)>) -> FilterResult {
    FilterResult::Pairs { lat_dimension: a.to_string(), lon_dimension: b.to_string(), pairs }
}

fn table(entries: Vec<(&str, Vec<i64>)>) -> CoordinateTable {
    CoordinateTable {
        vectors: entries
            .into_iter()
            .map(|(name, keys)| CoordinateVector { name: name.to_string(), keys })
            .collect(),
    }
}

fn time_lat_lon() -> DimensionIndexManager {
    DimensionIndexManager::new(&dims(&[("time", 10), ("lat", 3), ("lon", 2)]))
}

#[test]
fn test_dimension_index_manager_with_simple_data() {
    let manager = DimensionIndexManager::new(&dims(&[("x", 6), ("y", 12)]));
    let dimensions = manager.get_dimension_order();

    assert_eq!(dimensions.len(), 2);
    assert!(dimensions.contains(&"x".to_string()));
    assert!(dimensions.contains(&"y".to_string()));
}

#[test]
fn test_dimension_index_manager_with_4d_data() {
    let manager = DimensionIndexManager::new(&dims(&[
        ("time", 2),
        ("level", 2),
        ("latitude", 6),
        ("longitude", 12),
    ]));
    let dimensions = manager.get_dimension_order();

    assert_eq!(dimensions.len(), 4);
    assert!(dimensions.contains(&"time".to_string()));
    assert!(dimensions.contains(&"level".to_string()));
    assert!(dimensions.contains(&"latitude".to_string()));
    assert!(dimensions.contains(&"longitude".to_string()));
}

#[test]
fn test_dimension_index_manager_filter_application() {
    let mut manager = DimensionIndexManager::new(&dims(&[
        ("time", 2),
        ("level", 2),
        ("latitude", 6),
        ("longitude", 12),
    ]));

    let filter_result = single("time", vec![0, 1]);
    manager.apply_filter_result(&filter_result).unwrap();

    let time_indices = manager.get_dimension_indices("time").unwrap();
    assert_eq!(time_indices.len(), 2);
    assert!(time_indices.contains(&0));
    assert!(time_indices.contains(&1));
}

#[test]
fn unfiltered_dimensions_keep_every_index() {
    let mut manager = time_lat_lon();
    manager.apply_filter_result(&single("time", vec![3])).unwrap();
    assert_eq!(manager.get_dimension_indices("lat").unwrap(), &vec![0, 1, 2]);
    assert_eq!(manager.get_dimension_indices("lon").unwrap(), &vec![0, 1]);
    assert!(manager.get_dimension_indices("depth").is_none());
}

#[test]
fn enumeration_is_lexicographic_cartesian_product() {
    let mut manager = DimensionIndexManager::new(&dims(&[("a", 3), ("b", 3)]));
    manager.apply_filter_result(&single("a", vec![2, 0])).unwrap();
    manager.apply_filter_result(&single("b", vec![1, 2, 1])).unwrap();
    assert_eq!(
        manager.get_all_coordinate_combinations(),
        vec![vec![0, 1], vec![0, 2], vec![2, 1], vec![2, 2]]
    );
}

#[test]
fn enumeration_size_is_product_of_candidate_counts() {
    let mut manager = time_lat_lon();
    manager.apply_filter_result(&single("time", vec![1, 4, 7])).unwrap();
    assert_eq!(manager.get_all_coordinate_combinations().len(), 3 * 3 * 2);
}

#[test]
fn range_filters_on_one_dimension_compose_as_and() {
    let coords = table(vec![("d", (0..30).collect())]);
    let d = dims(&[("d", 30)]);
    let apply = |filters: Vec<(i64, i64)>| {
        let mut manager = DimensionIndexManager::new(&d);
        for (lo, hi) in filters {
            let result = NCRangeFilter::new("d", lo, hi).apply(&coords).unwrap();
            manager.apply_filter_result(&result).unwrap();
        }
        manager.get_dimension_indices("d").unwrap().clone()
    };
    let both = apply(vec![(0, 10), (5, 20)]);
    assert_eq!(both, apply(vec![(5, 10)]));
    assert_eq!(both, vec![5, 6, 7, 8, 9, 10]);
}

#[test]
fn single_filters_commute() {
    let d = dims(&[("d", 10)]);
    let a = single("d", vec![1, 2, 3, 4, 9]);
    let b = single("d", vec![9, 0, 3, 2]);
    let mut ab = DimensionIndexManager::new(&d);
    ab.apply_filter_result(&a).unwrap();
    ab.apply_filter_result(&b).unwrap();
    let mut ba = DimensionIndexManager::new(&d);
    ba.apply_filter_result(&b).unwrap();
    ba.apply_filter_result(&a).unwrap();
    assert_eq!(ab.get_dimension_indices("d"), ba.get_dimension_indices("d"));
    assert_eq!(ab.get_dimension_indices("d").unwrap(), &vec![2, 3, 9]);
}

#[test]
fn range_outside_coordinates_leaves_no_rows() {
    let coords = table(vec![("time", (0..10).collect())]);
    let mut manager = time_lat_lon();
    let result = NCRangeFilter::new("time", 50, 60).apply(&coords).unwrap();
    assert!(result.is_empty());
    manager.apply_filter_result(&result).unwrap();
    assert!(manager.get_all_coordinate_combinations().is_empty());
}

#[test]
fn range_then_point_filter_enumerates_explicit_tuples() {
    let mut manager = time_lat_lon();
    manager.apply_filter_result(&single("time", vec![0, 1])).unwrap();
    manager.apply_filter_result(&pairs("lat", "lon", vec![(1, 1)])).unwrap();
    assert_eq!(manager.get_all_coordinate_combinations(), vec![vec![0, 1, 1], vec![1, 1, 1]]);
}

#[test]
fn repeated_points_give_one_tuple_each() {
    let mut manager = DimensionIndexManager::new(&dims(&[("lat", 3), ("lon", 2)]));
    manager
        .apply_filter_result(&pairs("lat", "lon", vec![(1, 1), (0, 1), (1, 1)]))
        .unwrap();
    assert_eq!(manager.get_all_coordinate_combinations(), vec![vec![1, 1], vec![0, 1]]);
}

#[test]
fn later_point_filter_replaces_earlier_override() {
    let mut manager = DimensionIndexManager::new(&dims(&[("lat", 3), ("lon", 2)]));
    manager.apply_filter_result(&pairs("lat", "lon", vec![(0, 0)])).unwrap();
    manager.apply_filter_result(&pairs("lat", "lon", vec![(2, 1)])).unwrap();
    assert_eq!(manager.get_all_coordinate_combinations(), vec![vec![2, 1]]);
}

#[test]
fn triplets_fix_three_dimensions_and_cross_the_rest() {
    let mut manager = DimensionIndexManager::new(&dims(&[
        ("time", 3),
        ("level", 2),
        ("lat", 3),
        ("lon", 2),
    ]));
    let result = FilterResult::Triplets {
        time_dimension: "time".to_string(),
        lat_dimension: "lat".to_string(),
        lon_dimension: "lon".to_string(),
        triplets: vec![(2, 0, 1)],
    };
    manager.apply_filter_result(&result).unwrap();
    assert_eq!(
        manager.get_all_coordinate_combinations(),
        vec![vec![2, 0, 0, 1], vec![2, 1, 0, 1]]
    );
}

#[test]
fn single_on_unknown_dimension_is_rejected() {
    let mut manager = time_lat_lon();
    match manager.apply_filter_result(&single("depth", vec![0])) {
        Err(ExtractError::UnknownDimension(name)) => assert_eq!(name, "depth"),
        other => panic!("unexpected {:?}", other),
    }
    assert_eq!(manager.get_all_coordinate_combinations().len(), 60);
}

#[test]
fn pairs_on_unknown_dimension_are_rejected() {
    let mut manager = time_lat_lon();
    match manager.apply_filter_result(&pairs("lat", "depth", vec![(0, 0)])) {
        Err(ExtractError::DimensionNotFound(name)) => assert_eq!(name, "depth"),
        other => panic!("unexpected {:?}", other),
    }
}

#[test]
fn pair_naming_one_dimension_twice_is_rejected() {
    let mut manager = DimensionIndexManager::new(&dims(&[("lat", 3)]));
    match manager.apply_filter_result(&pairs("lat", "lat", vec![(0, 1), (2, 1)])) {
        Err(ExtractError::RepeatedDimension(name)) => assert_eq!(name, "lat"),
        other => panic!("unexpected {:?}", other),
    }
    assert_eq!(manager.get_all_coordinate_combinations(), vec![vec![0], vec![1], vec![2]]);
}

#[test]
fn triplet_naming_a_dimension_again_names_the_repeat() {
    let mut manager = time_lat_lon();
    let result = FilterResult::Triplets {
        time_dimension: "time".to_string(),
        lat_dimension: "lon".to_string(),
        lon_dimension: "time".to_string(),
        triplets: vec![(0, 0, 0)],
    };
    match manager.apply_filter_result(&result) {
        Err(ExtractError::RepeatedDimension(name)) => assert_eq!(name, "time"),
        other => panic!("unexpected {:?}", other),
    }
}

#[test]
fn first_unknown_dimension_is_named() {
    let mut manager = time_lat_lon();
    match manager.apply_filter_result(&pairs("depth", "height", vec![])) {
        Err(ExtractError::DimensionNotFound(name)) => assert_eq!(name, "depth"),
        other => panic!("unexpected {:?}", other),
    }
}

#[test]
fn pair_past_dimension_end_is_rejected() {
    let mut manager = time_lat_lon();
    match manager.apply_filter_result(&pairs("lat", "lon", vec![(0, 0), (1, 2)])) {
        Err(ExtractError::IndexOutOfRange(name)) => assert_eq!(name, "lon"),
        other => panic!("unexpected {:?}", other),
    }
    assert_eq!(manager.get_all_coordinate_combinations().len(), 60);
}

#[test]
fn display_coordinates_use_vector_or_index() {
    let mut manager = DimensionIndexManager::new(&dims(&[("time", 3), ("station", 2)]));
    manager.apply_filter_result(&single("time", vec![2])).unwrap();
    let coordinates: Vec<Option<Vec<f64>>> = vec![Some(vec![0.5, 1.5, 2.5]), None];
    let plan = extract_data_with_dimension_manager(&manager, &coordinates).unwrap();
    assert_eq!(plan.dimension_names, vec!["time".to_string(), "station".to_string()]);
    assert_eq!(plan.combinations, vec![vec![2, 0], vec![2, 1]]);
    assert!(matches!(plan.coordinate_columns[0][0], DisplayCoordinate::Coordinate(v) if v == 2.5));
    assert!(matches!(plan.coordinate_columns[0][1], DisplayCoordinate::Coordinate(v) if v == 2.5));
    assert!(matches!(plan.coordinate_columns[1][0], DisplayCoordinate::Index(0)));
    assert!(matches!(plan.coordinate_columns[1][1], DisplayCoordinate::Index(1)));
}

#[test]
fn rank_five_is_unsupported() {
    let d = dims(&[("a", 1), ("b", 1), ("c", 1), ("d", 1), ("e", 1)]);
    let coordinates: Vec<Option<Vec<f64>>> = vec![None, None, None, None, None];
    let result = extract_data_to_dataframe(&d, &table(vec![]), &vec![], &coordinates);
    assert!(matches!(result, Err(ExtractError::UnsupportedRank(5))));
    let manager = DimensionIndexManager::new(&d);
    let result = extract_data_with_dimension_manager(&manager, &coordinates);
    assert!(matches!(result, Err(ExtractError::UnsupportedRank(5))));
}

#[test]
fn rank_zero_is_unsupported() {
    let coordinates: Vec<Option<Vec<f64>>> = vec![];
    let result = extract_data_to_dataframe(&vec![], &table(vec![]), &vec![], &coordinates);
    assert!(matches!(result, Err(ExtractError::UnsupportedRank(0))));
}

#[test]
fn extraction_folds_filters_then_builds_rows() {
    let d = dims(&[("time", 10), ("lat", 3), ("lon", 2)]);
    let coords = table(vec![
        ("time", (0..10).collect()),
        ("lat", vec![10, 20, 30]),
        ("lon", vec![100, 200]),
    ]);
    let filters = vec![
        FilterConfig::Range(NCRangeFilter::new("time", 0, 1)),
        FilterConfig::Point2D(NC2DPointFilter::new(
            "lat",
            "lon",
            vec![(KeyWindow { min: 19, max: 21 }, KeyWindow { min: 199, max: 201 })],
        )),
    ];
    let coordinates: Vec<Option<Vec<i32>>> = vec![
        Some((0..10).collect()),
        Some(vec![10, 20, 30]),
        Some(vec![100, 200]),
    ];
    let plan = extract_data_to_dataframe(&d, &coords, &filters, &coordinates).unwrap();
    assert_eq!(plan.combinations, vec![vec![0, 1, 1], vec![1, 1, 1]]);
    assert!(matches!(plan.coordinate_columns[0][1], DisplayCoordinate::Coordinate(1)));
    assert!(matches!(plan.coordinate_columns[1][0], DisplayCoordinate::Coordinate(20)));
    assert!(matches!(plan.coordinate_columns[2][1], DisplayCoordinate::Coordinate(200)));
}

#[test]
fn extraction_stops_at_failing_filter() {
    let d = dims(&[("time", 4)]);
    let coords = table(vec![("time", vec![0, 1, 2, 3])]);
    let coordinates: Vec<Option<Vec<i32>>> = vec![None];
    let filters = vec![FilterConfig::List(NCListFilter::new("level", vec![1]))];
    let result = extract_data_to_dataframe(&d, &coords, &filters, &coordinates);
    assert!(matches!(result, Err(ExtractError::DimensionNotFound(ref n)) if n == "level"));
}

#[test]
fn extraction_reports_folding_error_with_its_name() {
    let d = dims(&[("time", 4)]);
    let coords = table(vec![("time", vec![0, 1, 2, 3]), ("depth", vec![5])]);
    let coordinates: Vec<Option<Vec<i32>>> = vec![None];
    let filters = vec![
        FilterConfig::Range(NCRangeFilter::new("time", 1, 2)),
        FilterConfig::List(NCListFilter::new("depth", vec![5])),
        FilterConfig::List(NCListFilter::new("missing", vec![5])),
    ];
    let result = extract_data_to_dataframe(&d, &coords, &filters, &coordinates);
    assert!(matches!(result, Err(ExtractError::UnknownDimension(ref n)) if n == "depth"));
}

#[test]
fn range_filter_missing_coordinates_gives_no_rows() {
    let d = dims(&[("time", 10), ("lat", 3)]);
    let coords = table(vec![("time", (0..10).collect()), ("lat", vec![10, 20, 30])]);
    let coordinates: Vec<Option<Vec<i32>>> = vec![None, None];
    let filters = vec![
        FilterConfig::Range(NCRangeFilter::new("time", 100, 200)),
        FilterConfig::List(NCListFilter::new("lat", vec![20])),
    ];
    let plan = extract_data_to_dataframe(&d, &coords, &filters, &coordinates).unwrap();
    assert!(plan.combinations.is_empty());
    assert!(plan.coordinate_columns.iter().all(|c| c.is_empty()));
}
