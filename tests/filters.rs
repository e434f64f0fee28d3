// Coordinates in these tests are integral, so each value serves as its own
// order key.
use nc2parquet::error::ExtractError;
use nc2parquet::filters::{
    CoordinateTable, CoordinateVector, FilterConfig, FilterResult, KeyWindow, NC2DPointFilter,
    NC3DPointFilter, NCListFilter, NCRangeFilter,
};

fn table(entries: Vec<(&str, Vec<i64>)>) -> CoordinateTable {
    let mut vectors = Vec::new();
    for (name, keys) in entries {
        vectors.push(CoordinateVector { name: name.to_string(), keys });
    }
    CoordinateTable { vectors }
}

fn window(centre: i64, tolerance: i64) -> KeyWindow {
    KeyWindow { min: centre - tolerance, max: centre + tolerance }
}

fn single(result: &FilterResult) -> (String, Vec<usize>) {
    let (d, i) = result.as_single().expect("single result");
    (d.clone(), i.clone())
}

#[test]
fn test_filter_result_single() {
    let result = FilterResult::Single {
        dimension: "time".to_string(),
        indices: vec![1, 2, 3, 5, 8],
    };

    assert_eq!(result.len(), 5);
    assert!(!result.is_empty());

    if let Some((dim, indices)) = result.as_single() {
        assert_eq!(dim, "time");
        assert_eq!(indices.len(), 5);
        assert!(indices.contains(&1));
        assert!(indices.contains(&8));
    } else {
        panic!("Expected single result");
    }
}

#[test]
fn test_filter_result_pairs() {
    let result = FilterResult::Pairs {
        lat_dimension: "latitude".to_string(),
        lon_dimension: "longitude".to_string(),
        pairs: vec![(0, 1), (2, 3), (4, 0)],
    };

    assert_eq!(result.len(), 3);
    assert!(!result.is_empty());

    if let Some((lat_dim, lon_dim, pairs)) = result.as_pairs() {
        assert_eq!(lat_dim, "latitude");
        assert_eq!(lon_dim, "longitude");
        assert_eq!(pairs.len(), 3);
        assert!(pairs.contains(&(0, 1)));
        assert!(pairs.contains(&(4, 0)));
    } else {
        panic!("Expected pairs result");
    }
}

#[test]
fn test_filter_result_empty() {
    let empty_single = FilterResult::Single {
        dimension: "time".to_string(),
        indices: vec![],
    };

    assert_eq!(empty_single.len(), 0);
    assert!(empty_single.is_empty());

    let empty_pairs = FilterResult::Pairs {
        lat_dimension: "lat".to_string(),
        lon_dimension: "lon".to_string(),
        pairs: vec![],
    };

    assert_eq!(empty_pairs.len(), 0);
    assert!(empty_pairs.is_empty());
}

#[test]
fn filter_result_triplets_accessors() {
    let result = FilterResult::Triplets {
        time_dimension: "time".to_string(),
        lat_dimension: "lat".to_string(),
        lon_dimension: "lon".to_string(),
        triplets: vec![(0, 1, 1), (1, 1, 1)],
    };
    assert_eq!(result.len(), 2);
    assert!(result.as_single().is_none());
    assert!(result.as_pairs().is_none());
    let (t, a, b, ts) = result.as_triplets().unwrap();
    assert_eq!((t.as_str(), a.as_str(), b.as_str()), ("time", "lat", "lon"));
    assert_eq!(ts, &vec![(0, 1, 1), (1, 1, 1)]);
}

#[test]
fn test_range_filter_creation() {
    let filter = NCRangeFilter::new("time", 10, 20);
    assert_eq!(filter.dimension_name, "time");
    assert_eq!(filter.min_value, 10);
    assert_eq!(filter.max_value, 20);
}

#[test]
fn test_list_filter_creation() {
    let values = vec![0, 10, 20, 30];
    let filter = NCListFilter::new("depth", values.clone());
    assert_eq!(filter.dimension_name, "depth");
    assert_eq!(filter.values, values);
}

#[test]
fn range_on_time_keeps_inclusive_bounds() {
    let coords = table(vec![("time", (0..10).collect())]);
    let result = NCRangeFilter::new("time", 2, 5).apply(&coords).unwrap();
    assert_eq!(single(&result), ("time".to_string(), vec![2, 3, 4, 5]));
}

#[test]
fn list_on_level_keeps_exact_matches() {
    let coords = table(vec![("level", vec![100, 200, 300, 400])]);
    let result = NCListFilter::new("level", vec![100, 300]).apply(&coords).unwrap();
    assert_eq!(single(&result), ("level".to_string(), vec![0, 2]));
}

#[test]
fn list_with_value_absent_keeps_nothing() {
    let coords = table(vec![("level", vec![100, 200])]);
    let result = NCListFilter::new("level", vec![150]).apply(&coords).unwrap();
    assert!(result.is_empty());
}

#[test]
fn point2d_matches_single_pair() {
    let coords = table(vec![("lat", vec![10, 20, 30]), ("lon", vec![100, 200])]);
    let filter = NC2DPointFilter::new("lat", "lon", vec![(window(20, 1), window(200, 1))]);
    let result = filter.apply(&coords).unwrap();
    let (a, b, pairs) = result.as_pairs().unwrap();
    assert_eq!((a.as_str(), b.as_str()), ("lat", "lon"));
    assert_eq!(pairs, &vec![(1, 1)]);
}

#[test]
fn point2d_wide_window_crosses_matches_point_by_point() {
    let coords = table(vec![("lat", vec![10, 20, 30]), ("lon", vec![100, 200])]);
    let filter = NC2DPointFilter::new(
        "lat",
        "lon",
        vec![(window(15, 5), window(150, 50)), (window(30, 0), window(100, 0))],
    );
    let result = filter.apply(&coords).unwrap();
    assert_eq!(
        result.as_pairs().unwrap().2,
        &vec![(0, 0), (0, 1), (1, 0), (1, 1), (2, 0)]
    );
}

#[test]
fn point3d_crosses_time_steps_with_pairs() {
    let coords = table(vec![
        ("time", vec![0, 6, 12, 18]),
        ("lat", vec![10, 20, 30]),
        ("lon", vec![100, 200]),
    ]);
    let filter = NC3DPointFilter::new(
        "time",
        "lat",
        "lon",
        vec![6, 18],
        vec![(window(20, 1), window(200, 1))],
    );
    let result = filter.apply(&coords).unwrap();
    let (t, a, b, triplets) = result.as_triplets().unwrap();
    assert_eq!((t.as_str(), a.as_str(), b.as_str()), ("time", "lat", "lon"));
    assert_eq!(triplets, &vec![(1, 1, 1), (3, 1, 1)]);
}

#[test]
fn test_3d_point_filter_creation_only() {
    // Time step indices, and one spatial point with a tolerance of 5.
    let steps = vec![0, 1];
    let points = vec![(window(35, 5), window(-110, 5))];
    let filter = NC3DPointFilter::new("time", "latitude", "longitude", steps.clone(), points.clone());
    assert_eq!(filter.time_dimension_name, "time");
    assert_eq!(filter.lat_dimension_name, "latitude");
    assert_eq!(filter.lon_dimension_name, "longitude");
    assert_eq!(filter.steps, steps);
    assert_eq!(filter.points, points);
    assert_eq!(filter.points[0].0.max - filter.points[0].0.min, 10);
}

#[test]
fn missing_coordinate_vector_is_dimension_not_found() {
    let coords = table(vec![("lat", vec![10, 20])]);
    match NCRangeFilter::new("time", 0, 1).apply(&coords) {
        Err(ExtractError::DimensionNotFound(name)) => assert_eq!(name, "time"),
        other => panic!("unexpected {:?}", other),
    }
    let filter = NC2DPointFilter::new("lat", "lon", vec![(window(10, 1), window(10, 1))]);
    match filter.apply(&coords) {
        Err(ExtractError::DimensionNotFound(name)) => assert_eq!(name, "lon"),
        other => panic!("unexpected {:?}", other),
    }
    let filter = NC3DPointFilter::new("time", "lat", "lon", vec![0], vec![]);
    match filter.apply(&coords) {
        Err(ExtractError::DimensionNotFound(name)) => assert_eq!(name, "time"),
        other => panic!("unexpected {:?}", other),
    }
}

#[test]
fn range_beyond_coordinates_keeps_nothing() {
    let coords = table(vec![("time", (0..10).collect())]);
    assert!(NCRangeFilter::new("time", 20, 30).apply(&coords).unwrap().is_empty());
    assert!(NCRangeFilter::new("time", -30, -1).apply(&coords).unwrap().is_empty());
}

#[test]
fn filter_config_kinds_and_dispatch() {
    let coords = table(vec![("time", (0..10).collect())]);
    let range = FilterConfig::Range(NCRangeFilter::new("time", 8, 20));
    let list = FilterConfig::List(NCListFilter::new("time", vec![3]));
    let point2d = FilterConfig::Point2D(NC2DPointFilter::new("a", "b", vec![]));
    let point3d = FilterConfig::Point3D(NC3DPointFilter::new("t", "a", "b", vec![], vec![]));
    assert_eq!(range.kind(), "range");
    assert_eq!(list.kind(), "list");
    assert_eq!(point2d.kind(), "2d_point");
    assert_eq!(point3d.kind(), "3d_point");
    assert_eq!(single(&range.apply(&coords).unwrap()).1, vec![8, 9]);
    assert_eq!(single(&list.apply(&coords).unwrap()).1, vec![3]);
}
