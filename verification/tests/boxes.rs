use lidar_scan::bbox::{bounding_box, BoundingBox};
use lidar_scan::geometry::Point;

fn pt(x: i64, y: i64) -> Point {
    Point::new(x, y).unwrap()
}

#[test]
fn box_of_first_cluster_of_the_scenario() {
    // Cluster {(0,0), (1,0), (0,1)}: centre (0.5, 0.5), width 1, height 1.
    let cluster = vec![pt(0, 0), pt(1, 0), pt(0, 1)];
    let b = bounding_box(&cluster);
    assert_eq!(b, BoundingBox { min_x: 0, max_x: 1, min_y: 0, max_y: 1 });
    assert_eq!(b.center_x2(), 1);
    assert_eq!(b.center_y2(), 1);
    assert_eq!(b.width(), 1);
    assert_eq!(b.height(), 1);
    assert_eq!(b.theta(), 0);
}

#[test]
fn single_point_cluster_has_degenerate_box() {
    let cluster = vec![pt(-4, 9)];
    let b = bounding_box(&cluster);
    assert_eq!(b, BoundingBox { min_x: -4, max_x: -4, min_y: 9, max_y: 9 });
    assert_eq!(b.width(), 0);
    assert_eq!(b.height(), 0);
    assert_eq!(b.center_x2(), -8);
    assert_eq!(b.center_y2(), 18);
}

#[test]
fn every_cluster_point_lies_within_the_box() {
    let cluster = vec![pt(3, -2), pt(-7, 11), pt(0, 0), pt(5, 5)];
    let b = bounding_box(&cluster);
    for p in &cluster {
        assert!(b.min_x <= p.x && p.x <= b.max_x);
        assert!(b.min_y <= p.y && p.y <= b.max_y);
        assert!(b.center_x2() - b.width() <= 2 * p.x && 2 * p.x <= b.center_x2() + b.width());
        assert!(b.center_y2() - b.height() <= 2 * p.y && 2 * p.y <= b.center_y2() + b.height());
    }
}

#[test]
fn extents_are_exact_over_negative_coordinates() {
    let cluster = vec![pt(-10, -20), pt(-30, -5)];
    let b = bounding_box(&cluster);
    assert_eq!(b, BoundingBox { min_x: -30, max_x: -10, min_y: -20, max_y: -5 });
    assert_eq!(b.width(), 20);
    assert_eq!(b.height(), 15);
    assert_eq!(b.center_x2(), -40);
    assert_eq!(b.center_y2(), -25);
}
