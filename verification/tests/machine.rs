use lidar_scan::cluster::DbscanParams;
use lidar_scan::geometry::Point;
use lidar_scan::pipeline::{process_scan, Action, Event, ScanResult, Stage};

fn pt(x: i64, y: i64) -> Point {
    Point::new(x, y).unwrap()
}

fn params() -> DbscanParams {
    DbscanParams::new(2, 4).unwrap()
}

/// Drives one full cycle through the machine and returns the dispatched
/// result together with the stage left after the sink's verdict.
fn run_cycle(start: Stage, points: Vec<Point>, timestamp: u64, sink_ok: bool) -> (ScanResult, Stage) {
    let p = params();
    let (s, a) = start.step(Event::Tick, &p);
    assert!(matches!(s, Stage::Acquiring));
    assert!(matches!(a, Action::RequestScan));
    let (s, a) = s.step(Event::ScanOk { points, timestamp }, &p);
    assert!(matches!(s, Stage::Clustering { .. }));
    assert!(matches!(a, Action::Work));
    let (s, a) = s.step(Event::Advance, &p);
    assert!(matches!(s, Stage::Summarizing { .. }));
    assert!(matches!(a, Action::Work));
    let (s, a) = s.step(Event::Advance, &p);
    assert!(matches!(s, Stage::Dispatching));
    let result = match a {
        Action::Send(r) => r,
        _ => panic!("expected a dispatch"),
    };
    let verdict = if sink_ok { Event::SinkOk } else { Event::SinkErr };
    let (s, a) = s.step(verdict, &p);
    assert!(matches!(s, Stage::Idle));
    assert!(matches!(a, Action::Rest));
    (result, s)
}

#[test]
fn full_cycle_produces_the_scenario_result() {
    let points = vec![pt(0, 0), pt(1, 0), pt(0, 1), pt(50, 50), pt(51, 50)];
    let (result, _) = run_cycle(Stage::Idle, points.clone(), 1700000000, true);
    assert_eq!(result.timestamp, 1700000000);
    assert_eq!(result.points, points);
    assert_eq!(result.labels, vec![Some(0), Some(0), Some(0), Some(1), Some(1)]);
    assert_eq!(result.boxes.len(), 2);
    assert_eq!(result.boxes[0].0, 0);
    assert_eq!(result.boxes[0].1.min_x, 0);
    assert_eq!(result.boxes[0].1.max_x, 1);
    assert_eq!(result.boxes[0].1.min_y, 0);
    assert_eq!(result.boxes[0].1.max_y, 1);
    assert_eq!(result.boxes[1].0, 1);
    assert_eq!(result.boxes[1].1.min_x, 50);
    assert_eq!(result.boxes[1].1.max_x, 51);
}

#[test]
fn sink_failure_does_not_halt_the_next_cycle() {
    let points = vec![pt(0, 0), pt(1, 0), pt(0, 1), pt(50, 50), pt(51, 50)];
    // Cycle one: the sink rejects the result.
    let (first, after_failure) = run_cycle(Stage::Idle, points.clone(), 41, false);
    assert!(matches!(after_failure, Stage::Idle));
    // Cycle two still acquires, clusters and dispatches as usual.
    let (second, _) = run_cycle(after_failure, points, 42, true);
    assert_eq!(second.labels, first.labels);
    assert_eq!(second.boxes, first.boxes);
    assert_eq!(second.timestamp, 42);
}

#[test]
fn failed_acquisition_skips_the_cycle() {
    let p = params();
    let (s, _) = Stage::Idle.step(Event::Tick, &p);
    let (s, a) = s.step(Event::ScanErr, &p);
    assert!(matches!(s, Stage::Idle));
    assert!(matches!(a, Action::Rest));
    // The following cycle begins normally.
    let (s, a) = s.step(Event::Tick, &p);
    assert!(matches!(s, Stage::Acquiring));
    assert!(matches!(a, Action::RequestScan));
}

#[test]
fn mismatched_event_leaves_the_stage_unchanged() {
    let p = params();
    let (s, a) = Stage::Idle.step(Event::SinkErr, &p);
    assert!(matches!(s, Stage::Idle));
    assert!(matches!(a, Action::Rest));
    let (s, a) = Stage::Acquiring.step(Event::Tick, &p);
    assert!(matches!(s, Stage::Acquiring));
    assert!(matches!(a, Action::Rest));
}

#[test]
fn empty_scan_dispatches_empty_arrays() {
    let (result, _) = run_cycle(Stage::Idle, Vec::new(), 7, true);
    assert!(result.points.is_empty());
    assert!(result.labels.is_empty());
    assert!(result.boxes.is_empty());
    assert_eq!(result.timestamp, 7);
}

#[test]
fn process_scan_keeps_points_and_aligns_labels() {
    let points = vec![pt(0, 0), pt(1, 0), pt(500, 500)];
    let result = process_scan(points.clone(), 9, &params());
    assert_eq!(result.points, points);
    assert_eq!(result.labels.len(), points.len());
    assert_eq!(result.labels, vec![Some(0), Some(0), None]);
    assert_eq!(result.boxes.len(), 1);
    assert_eq!(result.boxes[0].1.max_x, 1);
}
