//! The per-cycle scan pipeline: assembling one scan's result, and the
//! orchestration state machine that sequences acquisition, clustering,
//! summarizing and dispatch.
//!
//! The machine is a pure step function from a stage and an event to the next
//! stage and an action; the surrounding process performs the actions (fetch a
//! scan, send a result) and feeds the outcome back as the next event. A
//! failed acquisition skips the cycle; a failed dispatch discards the result;
//! neither ever halts the loop.

use vstd::prelude::*;

use crate::bbox::{bounding_box, box_of, BoundingBox};
use crate::cluster::{
    cluster_members, dbscan, dbscan_cluster_count, dbscan_labels, group_by_label,
    lemma_cluster_id_has_member, lemma_members_nonempty, lemma_members_wf, DbscanParams,
};
use crate::geometry::{wf_points, Point};

verus! {

/// The unit of output: one scan's points, their labels (index-aligned,
/// `None` marks noise), and one bounding box per cluster, keyed by the dense
/// cluster identifier.
#[derive(Debug)]
pub struct ScanResult {
    pub timestamp: u64,
    pub points: Vec<Point>,
    pub labels: Vec<Option<usize>>,
    pub boxes: Vec<(usize, BoundingBox)>,
}

/// A well-formed result: the labels are exactly the clustering of the points,
/// and box `c` is exactly the bounding box of cluster `c`'s members.
pub open spec fn result_wf(r: ScanResult, params: DbscanParams) -> bool {
    let mp = params.min_points as int;
    let tol = params.tolerance_sq as int;
    &&& wf_points(r.points@)
    &&& r.labels@ == dbscan_labels(r.points@, mp, tol)
    &&& r.boxes@.len() == dbscan_cluster_count(r.points@, mp, tol)
    &&& forall|c: int|
        0 <= c < r.boxes@.len() ==> (#[trigger] r.boxes@[c]).0 == c as usize && r.boxes@[c].1
            == box_of(cluster_members(r.points@, r.labels@, c as usize)) && r.boxes@[c].1.wf()
}

/// Runs one scan through the engine: clusters the points, groups them by
/// label, and summarizes every cluster as its bounding box. An empty scan
/// yields a result with empty arrays. Noise points appear in the labels but
/// in no box: the extractor is never invoked for the noise bucket.
pub fn process_scan(points: Vec<Point>, timestamp: u64, params: &DbscanParams) -> (r: ScanResult)
    requires
        wf_points(points@),
        params.wf(),
    ensures
        r.timestamp == timestamp,
        r.points@ == points@,
        result_wf(r, *params),
{
    let (labels, num_clusters) = dbscan(&points, params);
    assemble_result(points, timestamp, labels, num_clusters, params)
}

/// Groups already-labelled points by cluster and summarizes every cluster as
/// its bounding box. Noise points appear in the labels but in no box: the
/// extractor is never invoked for the noise bucket.
pub fn assemble_result(
    points: Vec<Point>,
    timestamp: u64,
    labels: Vec<Option<usize>>,
    num_clusters: usize,
    params: &DbscanParams,
) -> (r: ScanResult)
    requires
        wf_points(points@),
        params.wf(),
        labels@ == dbscan_labels(points@, params.min_points as int, params.tolerance_sq as int),
        num_clusters as int == dbscan_cluster_count(
            points@,
            params.min_points as int,
            params.tolerance_sq as int,
        ),
    ensures
        r.timestamp == timestamp,
        r.points@ == points@,
        result_wf(r, *params),
{
    let ghost mp = params.min_points as int;
    let ghost tol = params.tolerance_sq as int;
    proof {
        crate::cluster::lemma_dbscan_labels_len(points@, mp, tol);
    }
    let (groups, _noise) = group_by_label(&points, &labels, num_clusters);
    let n = points.len();
    let mut boxes: Vec<(usize, BoundingBox)> = Vec::new();
    let mut c: usize = 0;
    while c < num_clusters
        invariant
            n == points@.len(),
            wf_points(points@),
            params.wf(),
            mp == params.min_points as int,
            tol == params.tolerance_sq as int,
            labels@ == dbscan_labels(points@, mp, tol),
            num_clusters as int == dbscan_cluster_count(points@, mp, tol),
            groups@.len() == num_clusters,
            forall|t: int|
                0 <= t < num_clusters ==> #[trigger] groups@[t]@ == cluster_members(
                    points@,
                    labels@,
                    t as usize,
                ),
            c <= num_clusters,
            boxes@.len() == c as int,
            forall|t: int|
                0 <= t < c ==> (#[trigger] boxes@[t]).0 == t as usize && boxes@[t].1 == box_of(
                    cluster_members(points@, labels@, t as usize),
                ) && boxes@[t].1.wf(),
        decreases num_clusters - c,
    {
        proof {
            lemma_cluster_id_has_member(points@, mp, tol, c as int);
            let i = choose|i: int|
                0 <= i < points@.len() && #[trigger] dbscan_labels(points@, mp, tol)[i] == Some(c);
            lemma_members_nonempty(points@, labels@, c, points@.len() as int, i);
            lemma_members_wf(points@, labels@, c, points@.len() as int);
        }
        let b = bounding_box(&groups[c]);
        boxes.push((c, b));
        c = c + 1;
    }
    ScanResult { timestamp, points, labels, boxes }
}

/// The stages of one scan cycle.
#[derive(Debug)]
pub enum Stage {
    /// Between cycles.
    Idle,
    /// A scan has been requested from the point source.
    Acquiring,
    /// A scan arrived; the engine has yet to run.
    Clustering { points: Vec<Point>, timestamp: u64 },
    /// Labels are computed; grouping and box extraction have yet to run.
    Summarizing {
        points: Vec<Point>,
        timestamp: u64,
        labels: Vec<Option<usize>>,
        num_clusters: usize,
    },
    /// A result has been handed to the sink; its outcome is awaited.
    Dispatching,
}

/// What the surrounding process reports to the machine.
#[derive(Debug)]
pub enum Event {
    /// Begin the next cycle.
    Tick,
    /// Acquisition delivered a scan.
    ScanOk { points: Vec<Point>, timestamp: u64 },
    /// Acquisition failed or returned nothing usable.
    ScanErr,
    /// The requested internal work may proceed.
    Advance,
    /// The sink accepted the result.
    SinkOk,
    /// The sink was unreachable or rejected the result.
    SinkErr,
}

/// What the surrounding process must do next.
#[derive(Debug)]
pub enum Action {
    /// Fetch one scan from the point source and report `ScanOk` or `ScanErr`.
    RequestScan,
    /// Internal work remains: report `Advance`.
    Work,
    /// Deliver this result to the sink and report `SinkOk` or `SinkErr`.
    Send(ScanResult),
    /// Nothing to do until the next cycle.
    Rest,
}

/// The data carried by a stage is consistent with the engine.
pub open spec fn stage_wf(s: Stage, params: DbscanParams) -> bool {
    match s {
        Stage::Clustering { points, .. } => wf_points(points@),
        Stage::Summarizing { points, labels, num_clusters, .. } => {
            &&& wf_points(points@)
            &&& labels@ == dbscan_labels(
                points@,
                params.min_points as int,
                params.tolerance_sq as int,
            )
            &&& num_clusters as int == dbscan_cluster_count(
                points@,
                params.min_points as int,
                params.tolerance_sq as int,
            )
        },
        _ => true,
    }
}

/// The stage reacts to the event.
pub open spec fn step_defined(s: Stage, e: Event) -> bool {
    ||| s is Idle && e is Tick
    ||| s is Acquiring && (e is ScanOk || e is ScanErr)
    ||| (s is Clustering || s is Summarizing) && e is Advance
    ||| s is Dispatching && (e is SinkOk || e is SinkErr)
}

/// The full transition relation of the cycle machine: what stage and action
/// every (stage, event) pair leads to.
///
/// One cycle runs `Idle -> Acquiring -> Clustering -> Summarizing ->
/// Dispatching -> Idle`. A failed acquisition skips straight back to `Idle`;
/// a failed dispatch is treated exactly like a successful one — the result is
/// already discarded and the machine returns to `Idle` — so the next cycle's
/// acquisition and clustering proceed regardless: a sink failure never halts
/// the loop. An event that does not belong to the stage leaves the stage
/// unchanged and demands nothing.
pub open spec fn step_spec(
    pre: Stage,
    event: Event,
    post: Stage,
    action: Action,
    params: DbscanParams,
) -> bool {
    let mp = params.min_points as int;
    let tol = params.tolerance_sq as int;
    match (pre, event) {
        (Stage::Idle, Event::Tick) => post is Acquiring && action is RequestScan,
        (Stage::Acquiring, Event::ScanOk { points, timestamp }) => {
            post matches Stage::Clustering { points: p, timestamp: t } && p == points && t
                == timestamp && action is Work
        },
        (Stage::Acquiring, Event::ScanErr) => post is Idle && action is Rest,
        (Stage::Clustering { points, timestamp }, Event::Advance) => {
            post matches Stage::Summarizing { points: p, timestamp: t, labels, num_clusters } && p
                == points && t == timestamp && labels@ == dbscan_labels(points@, mp, tol)
                && num_clusters as int == dbscan_cluster_count(points@, mp, tol) && action is Work
        },
        (Stage::Summarizing { points, timestamp, .. }, Event::Advance) => {
            post is Dispatching && (action matches Action::Send(res) && res.timestamp == timestamp
                && res.points@ == points@ && result_wf(res, params))
        },
        (Stage::Dispatching, Event::SinkOk) => post is Idle && action is Rest,
        (Stage::Dispatching, Event::SinkErr) => post is Idle && action is Rest,
        (s, _) => post == s && action is Rest,
    }
}

impl Stage {
    /// One transition of the cycle: `Idle -> Acquiring -> Clustering ->
    /// Summarizing -> Dispatching -> Idle`, looping indefinitely.
    ///
    /// Per-cycle failure handling: a failed acquisition skips straight back
    /// to `Idle`, and a failed dispatch is treated exactly like a successful
    /// one — the result is discarded and the machine returns to `Idle`, so
    /// the next cycle's acquisition and clustering proceed regardless. An
    /// event that does not belong to the stage leaves the stage unchanged.
    pub fn step(self, event: Event, params: &DbscanParams) -> (r: (Stage, Action))
        requires
            params.wf(),
            stage_wf(self, *params),
            event matches Event::ScanOk { points, .. } ==> wf_points(points@),
        ensures
            stage_wf(r.0, *params),
            step_spec(self, event, r.0, r.1, *params),
            !step_defined(self, event) ==> r.0 == self && r.1 is Rest,
    {
        match (self, event) {
            (Stage::Idle, Event::Tick) => (Stage::Acquiring, Action::RequestScan),
            (Stage::Acquiring, Event::ScanOk { points, timestamp }) => (
                Stage::Clustering { points, timestamp },
                Action::Work,
            ),
            (Stage::Acquiring, Event::ScanErr) => (Stage::Idle, Action::Rest),
            (Stage::Clustering { points, timestamp }, Event::Advance) => {
                let (labels, num_clusters) = dbscan(&points, params);
                (Stage::Summarizing { points, timestamp, labels, num_clusters }, Action::Work)
            },
            (Stage::Summarizing { points, timestamp, labels, num_clusters }, Event::Advance) => {
                let res = assemble_result(points, timestamp, labels, num_clusters, params);
                (Stage::Dispatching, Action::Send(res))
            },
            (Stage::Dispatching, Event::SinkOk) => (Stage::Idle, Action::Rest),
            (Stage::Dispatching, Event::SinkErr) => (Stage::Idle, Action::Rest),
            (s, _) => (s, Action::Rest),
        }
    }
}

} // verus!
