use lidar_scan::cluster::{dbscan, group_by_label, label_counts, ConfigError, DbscanParams};
use lidar_scan::geometry::{points_close, Point};

fn pt(x: i64, y: i64) -> Point {
    Point::new(x, y).unwrap()
}

fn params(min_points: usize, tolerance_sq: i64) -> DbscanParams {
    DbscanParams::new(min_points, tolerance_sq).unwrap()
}

#[test]
fn config_rejects_zero_min_points() {
    assert_eq!(DbscanParams::new(0, 4), Err(ConfigError::MinPointsZero));
}

#[test]
fn config_rejects_non_positive_tolerance() {
    assert_eq!(DbscanParams::new(2, 0), Err(ConfigError::ToleranceNotPositive));
    assert_eq!(DbscanParams::new(2, -7), Err(ConfigError::ToleranceNotPositive));
}

#[test]
fn config_accepts_valid_parameters() {
    let p = DbscanParams::new(3, 100).unwrap();
    assert_eq!(p.min_points, 3);
    assert_eq!(p.tolerance_sq, 100);
}

#[test]
fn point_new_rejects_out_of_range() {
    assert!(Point::new(1_000_000_001, 0).is_none());
    assert!(Point::new(0, -1_000_000_001).is_none());
    assert!(Point::new(1_000_000_000, -1_000_000_000).is_some());
}

#[test]
fn points_close_is_squared_euclidean() {
    let a = pt(0, 0);
    let b = pt(3, 4);
    assert!(points_close(&a, &b, 25));
    assert!(!points_close(&a, &b, 24));
}

#[test]
fn two_groups_and_no_noise() {
    let points = vec![pt(0, 0), pt(1, 0), pt(0, 1), pt(50, 50), pt(51, 50)];
    let (labels, n) = dbscan(&points, &params(2, 4));
    assert_eq!(n, 2);
    assert_eq!(labels, vec![Some(0), Some(0), Some(0), Some(1), Some(1)]);
}

#[test]
fn tight_tolerance_makes_all_noise() {
    // The same shape in tenths of a unit, with a radius of half a unit.
    let points = vec![pt(0, 0), pt(10, 0), pt(0, 10), pt(500, 500), pt(510, 500)];
    let (labels, n) = dbscan(&points, &params(2, 25));
    assert_eq!(n, 0);
    assert_eq!(labels, vec![None, None, None, None, None]);
}

#[test]
fn empty_scan_clusters_to_nothing() {
    let points: Vec<Point> = Vec::new();
    let (labels, n) = dbscan(&points, &params(3, 100));
    assert_eq!(n, 0);
    assert!(labels.is_empty());
}

#[test]
fn single_point_is_its_own_cluster() {
    let points = vec![pt(7, -3)];
    let (labels, n) = dbscan(&points, &params(1, 1));
    assert_eq!(n, 1);
    assert_eq!(labels, vec![Some(0)]);
}

#[test]
fn single_point_below_min_points_is_noise() {
    let points = vec![pt(7, -3)];
    let (labels, n) = dbscan(&points, &params(2, 1));
    assert_eq!(n, 0);
    assert_eq!(labels, vec![None]);
}

#[test]
fn clustering_is_deterministic() {
    let points = vec![pt(0, 0), pt(1, 0), pt(0, 1), pt(50, 50), pt(51, 50), pt(-20, 3)];
    let p = params(2, 4);
    let first = dbscan(&points, &p);
    let second = dbscan(&points, &p);
    assert_eq!(first, second);
}

#[test]
fn wider_tolerance_keeps_clustered_points_clustered() {
    let points = vec![pt(0, 0), pt(1, 0), pt(4, 0)];
    let (narrow, _) = dbscan(&points, &params(2, 1));
    let (wide, _) = dbscan(&points, &params(2, 16));
    assert_eq!(narrow, vec![Some(0), Some(0), None]);
    for i in 0..points.len() {
        if narrow[i].is_some() {
            assert!(wide[i].is_some());
        }
    }
    assert_eq!(wide, vec![Some(0), Some(0), Some(0)]);
}

#[test]
fn groups_partition_the_scan() {
    let points = vec![pt(0, 0), pt(1, 0), pt(0, 1), pt(50, 50), pt(51, 50), pt(-30, -30)];
    let (labels, n) = dbscan(&points, &params(2, 4));
    let (groups, noise) = group_by_label(&points, &labels, n);
    assert_eq!(groups.len(), 2);
    assert_eq!(groups[0], vec![pt(0, 0), pt(1, 0), pt(0, 1)]);
    assert_eq!(groups[1], vec![pt(50, 50), pt(51, 50)]);
    assert_eq!(noise, vec![pt(-30, -30)]);
    let total: usize = groups.iter().map(|g| g.len()).sum::<usize>() + noise.len();
    assert_eq!(total, points.len());
}

#[test]
fn label_counts_match_groups() {
    let points = vec![pt(0, 0), pt(1, 0), pt(0, 1), pt(50, 50), pt(51, 50), pt(-30, -30)];
    let (labels, n) = dbscan(&points, &params(2, 4));
    let (counts, noise_count) = label_counts(&labels, n);
    assert_eq!(counts, vec![3, 2]);
    assert_eq!(noise_count, 1);
}
