// The layouts of the classic example files, rebuilt as values. In
// `pres_temp_4D`, `temperature` lies over (time, level, latitude, longitude)
// of sizes 2, 2, 6 and 12; latitude runs 25, 30, ..., 50 and longitude
// -125, -120, ..., -70, and time and level have no coordinate vector. In
// `simple_xy`, `data` lies over (x, y) of sizes 6 and 12 without coordinate
// vectors. The coordinates are integral, so each value is its own order key.
use nc2parquet::extract::{extract_data_to_dataframe, DisplayCoordinate};
use nc2parquet::filters::{
    CoordinateTable, CoordinateVector, FilterConfig, FilterResult, KeyWindow, NC2DPointFilter,
    NCListFilter, NCRangeFilter,
};

fn latitudes() -> Vec<i64> {
    (0..6).map(|i| 25 + 5 * i).collect()
}

fn longitudes() -> Vec<i64> {
    (0..12).map(|i| -125 + 5 * i).collect()
}

fn pres_temp_coords() -> CoordinateTable {
    CoordinateTable {
        vectors: vec![
            CoordinateVector { name: "latitude".to_string(), keys: latitudes() },
            CoordinateVector { name: "longitude".to_string(), keys: longitudes() },
        ],
    }
}

fn pres_temp_dims() -> Vec<(String, usize)> {
    vec![
        ("time".to_string(), 2),
        ("level".to_string(), 2),
        ("latitude".to_string(), 6),
        ("longitude".to_string(), 12),
    ]
}

fn pres_temp_display() -> Vec<Option<Vec<i64>>> {
    vec![None, None, Some(latitudes()), Some(longitudes())]
}

fn tolerance_window(centre: i64, tolerance: i64) -> KeyWindow {
    KeyWindow { min: centre - tolerance, max: centre + tolerance }
}

#[test]
fn test_range_filter_with_real_data() {
    let filter = NCRangeFilter::new("latitude", 30, 45);
    let result = filter.apply(&pres_temp_coords()).unwrap();

    if let FilterResult::Single { dimension, indices } = result {
        assert_eq!(dimension, "latitude");
        assert_eq!(indices.len(), 4);
        assert!(indices.contains(&1)); // 30
        assert!(indices.contains(&2)); // 35
        assert!(indices.contains(&3)); // 40
        assert!(indices.contains(&4)); // 45
    } else {
        panic!("Expected Single filter result");
    }
}

#[test]
fn test_list_filter_with_real_data() {
    let filter = NCListFilter::new("longitude", vec![-120, -85]);
    let result = filter.apply(&pres_temp_coords()).unwrap();

    if let FilterResult::Single { dimension, indices } = result {
        assert_eq!(dimension, "longitude");
        assert_eq!(indices.len(), 2);
        assert!(indices.contains(&1)); // -120
        assert!(indices.contains(&8)); // -85
    } else {
        panic!("Expected Single filter result");
    }
}

#[test]
fn test_2d_point_filter_with_real_data() {
    let points = vec![
        (tolerance_window(30, 1), tolerance_window(-120, 1)),
        (tolerance_window(45, 1), tolerance_window(-85, 1)),
    ];
    let filter = NC2DPointFilter::new("latitude", "longitude", points);
    let result = filter.apply(&pres_temp_coords()).unwrap();

    if let FilterResult::Pairs { lat_dimension, lon_dimension, pairs } = result {
        assert_eq!(lat_dimension, "latitude");
        assert_eq!(lon_dimension, "longitude");
        assert_eq!(pairs.len(), 2);
        assert!(pairs.contains(&(1, 1))); // (30, -120)
        assert!(pairs.contains(&(4, 8))); // (45, -85)
    } else {
        panic!("Expected Pairs filter result");
    }
}

#[test]
fn test_extract_data_to_dataframe_simple() {
    let dims = vec![("x".to_string(), 6), ("y".to_string(), 12)];
    let display: Vec<Option<Vec<f64>>> = vec![None, None];
    let table = CoordinateTable { vectors: vec![] };
    let plan = extract_data_to_dataframe(&dims, &table, &vec![], &display).unwrap();

    assert_eq!(plan.combinations.len(), 72);
    assert!(plan.dimension_names.contains(&"x".to_string()));
    assert!(plan.dimension_names.contains(&"y".to_string()));
    assert!(matches!(plan.coordinate_columns[1][13], DisplayCoordinate::Index(1)));
}

#[test]
fn test_extract_data_to_dataframe_with_filter() {
    let filters = vec![FilterConfig::Range(NCRangeFilter::new("latitude", 30, 40))];
    let plan =
        extract_data_to_dataframe(&pres_temp_dims(), &pres_temp_coords(), &filters, &pres_temp_display())
            .unwrap();

    // 2 time steps * 2 levels * 3 latitudes * 12 longitudes
    assert_eq!(plan.combinations.len(), 144);
    for name in ["time", "level", "latitude", "longitude"] {
        assert!(plan.dimension_names.contains(&name.to_string()));
    }
    assert!(plan.coordinate_columns[2]
        .iter()
        .all(|c| matches!(c, DisplayCoordinate::Coordinate(v) if (30..=40).contains(v))));
}

#[test]
fn test_extract_data_to_dataframe_with_spatial_filter() {
    let points = vec![(tolerance_window(30, 1), tolerance_window(-120, 1))];
    let filters = vec![FilterConfig::Point2D(NC2DPointFilter::new("latitude", "longitude", points))];
    let plan =
        extract_data_to_dataframe(&pres_temp_dims(), &pres_temp_coords(), &filters, &pres_temp_display())
            .unwrap();

    // 2 time steps * 2 levels * 1 coordinate pair
    assert_eq!(plan.combinations.len(), 4);
    assert_eq!(
        plan.combinations,
        vec![vec![0, 0, 1, 1], vec![0, 1, 1, 1], vec![1, 0, 1, 1], vec![1, 1, 1, 1]]
    );
}
