// Filters hold order keys; these tests build them from real values the way
// the command-line tool does.
use nc2parquet::filters::{KeyWindow, NC2DPointFilter, NC3DPointFilter};

fn order_key(x: f64) -> i64 {
    let x = if x == 0.0 { 0.0 } else { x };
    let bits = x.to_bits() as i64;
    if bits < 0 {
        bits ^ i64::MAX
    } else {
        bits
    }
}

fn windows(points: &[(f64, f64)], tolerance: f64) -> Vec<(KeyWindow, KeyWindow)> {
    let w = |c: f64| KeyWindow { min: order_key(c - tolerance), max: order_key(c + tolerance) };
    points.iter().map(|&(a, b)| (w(a), w(b))).collect()
}

#[test]
fn test_2d_point_filter_creation() {
    let points = vec![(10.0, 20.0), (15.0, 25.0)];
    let filter = NC2DPointFilter::new("lat", "lon", windows(&points, 0.1));

    assert_eq!(filter.lat_dimension_name, "lat");
    assert_eq!(filter.lon_dimension_name, "lon");
    assert_eq!(filter.points, windows(&points, 0.1));
    assert_eq!(filter.points.len(), points.len());
    assert!(filter.points[0].0.min < order_key(10.0) && order_key(10.0) < filter.points[0].0.max);
}

#[test]
fn test_3d_point_filter_creation() {
    let steps = vec![0.0, 24.0, 48.0];
    let points = vec![(40.0, -74.0), (34.0, -118.0)];
    let step_keys: Vec<i64> = steps.iter().map(|&s| order_key(s)).collect();
    let filter =
        NC3DPointFilter::new("time", "lat", "lon", step_keys.clone(), windows(&points, 0.1));

    assert_eq!(filter.time_dimension_name, "time");
    assert_eq!(filter.lat_dimension_name, "lat");
    assert_eq!(filter.lon_dimension_name, "lon");
    assert_eq!(filter.steps, step_keys);
    assert_eq!(filter.points, windows(&points, 0.1));
}

#[test]
fn order_keys_follow_real_order() {
    let values = [-118.5, -74.0, -0.0, 0.0, 1e-300, 24.0, 48.0];
    for pair in values.windows(2) {
        assert!(order_key(pair[0]) <= order_key(pair[1]));
    }
    assert_eq!(order_key(-0.0), order_key(0.0));
}
