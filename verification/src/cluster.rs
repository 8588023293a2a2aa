//! Density-based clustering (DBSCAN) over a scan's point sequence.
//!
//! The engine partitions the points into clusters and noise by local density:
//! a point is a *core* point when at least `min_points` points (itself
//! included) lie within the tolerance radius; core points within each other's
//! radius are density-connected and share a cluster; a non-core point within
//! some core point's radius is a *border* point and joins the cluster of the
//! first such core point in scan order; everything else is noise.
//!
//! The whole computation is pinned to the spec function [`dbscan_labels`]:
//! the executable engine returns exactly that sequence, so the labelling is a
//! pure function of the point sequence and the parameters.

use vstd::prelude::*;

use crate::geometry::{close, wf_points, Point};

verus! {

use vstd::multiset::Multiset;

/// Clustering parameters: the minimum neighbourhood size for a core point and
/// the squared neighbourhood radius.
#[derive(Clone, Copy, PartialEq, Eq, Structural, Debug)]
pub struct DbscanParams {
    pub min_points: usize,
    pub tolerance_sq: i64,
}

/// An invalid clustering configuration, fatal at startup.
#[derive(Clone, Copy, PartialEq, Eq, Structural, Debug)]
pub enum ConfigError {
    /// `min_points` was zero; a core point needs a neighbourhood of at least one.
    MinPointsZero,
    /// The tolerance was not positive.
    ToleranceNotPositive,
}

impl DbscanParams {
    /// A valid configuration: a neighbourhood of at least one point and a
    /// positive radius.
    pub open spec fn wf(self) -> bool {
        self.min_points >= 1 && self.tolerance_sq >= 1
    }

    /// Validates a configuration, exactly as the engine demands it.
    pub fn new(min_points: usize, tolerance_sq: i64) -> (r: Result<DbscanParams, ConfigError>)
        ensures
            min_points == 0 ==> r == Err::<DbscanParams, ConfigError>(ConfigError::MinPointsZero),
            min_points >= 1 && tolerance_sq < 1 ==> r == Err::<DbscanParams, ConfigError>(
                ConfigError::ToleranceNotPositive,
            ),
            min_points >= 1 && tolerance_sq >= 1 ==> r == Ok::<DbscanParams, ConfigError>(
                DbscanParams { min_points, tolerance_sq },
            ),
            r matches Ok(p) ==> p.wf(),
    {
        if min_points == 0 {
            Err(ConfigError::MinPointsZero)
        } else if tolerance_sq < 1 {
            Err(ConfigError::ToleranceNotPositive)
        } else {
            Ok(DbscanParams { min_points, tolerance_sq })
        }
    }
}

/// How many of the first `k` points lie within the radius of point `i`
/// (point `i` itself counts when `k` passes it).
pub open spec fn neighbor_count(ps: Seq<Point>, i: int, tol: int, k: int) -> int
    decreases k,
{
    if k <= 0 {
        0
    } else {
        neighbor_count(ps, i, tol, k - 1) + if close(ps[i], ps[k - 1], tol) {
            1int
        } else {
            0int
        }
    }
}

/// Point `i` is a core point: its whole neighbourhood has at least
/// `min_points` members.
pub open spec fn is_core(ps: Seq<Point>, i: int, min_points: int, tol: int) -> bool {
    neighbor_count(ps, i, tol, ps.len() as int) >= min_points
}

/// The core flag of every point, index-aligned with the scan.
pub open spec fn core_seq(ps: Seq<Point>, min_points: int, tol: int) -> Seq<bool> {
    Seq::new(ps.len(), |i: int| is_core(ps, i, min_points, tol))
}

/// A neighbour count never exceeds the prefix length it was taken over.
proof fn lemma_neighbor_count_bounds(ps: Seq<Point>, i: int, tol: int, k: int)
    requires
        k >= 0,
    ensures
        0 <= neighbor_count(ps, i, tol, k) <= k,
    decreases k,
{
    if k > 0 {
        lemma_neighbor_count_bounds(ps, i, tol, k - 1);
    }
}

/// Computes the core flag of every point by counting neighbours.
fn core_flags(points: &Vec<Point>, params: &DbscanParams) -> (core: Vec<bool>)
    requires
        wf_points(points@),
        params.wf(),
    ensures
        core@ == core_seq(points@, params.min_points as int, params.tolerance_sq as int),
{
    let n = points.len();
    let ghost mp = params.min_points as int;
    let ghost tol = params.tolerance_sq as int;
    let mut core: Vec<bool> = Vec::new();
    let mut i: usize = 0;
    while i < n
        invariant
            n == points@.len(),
            wf_points(points@),
            params.wf(),
            mp == params.min_points as int,
            tol == params.tolerance_sq as int,
            i <= n,
            core@.len() == i as int,
            forall|t: int| 0 <= t < i ==> core@[t] == is_core(points@, t, mp, tol),
        decreases n - i,
    {
        let mut count: usize = 0;
        let mut j: usize = 0;
        while j < n
            invariant
                n == points@.len(),
                wf_points(points@),
                params.wf(),
                tol == params.tolerance_sq as int,
                i < n,
                j <= n,
                count as int == neighbor_count(points@, i as int, tol, j as int),
            decreases n - j,
        {
            proof {
                lemma_neighbor_count_bounds(points@, i as int, tol, j as int);
            }
            if crate::geometry::points_close(&points[i], &points[j], params.tolerance_sq) {
                count = count + 1;
            }
            j = j + 1;
        }
        core.push(count >= params.min_points);
        i = i + 1;
    }
    proof {
        assert(core@ =~= core_seq(points@, mp, tol));
    }
    core
}

/// One pass of the minimising scan for point `i`: for each core point `j`
/// below `k` within the radius of `i`, the representative of `i` drops to the
/// representative of `j` whenever that one is smaller.
pub open spec fn scan_min(
    ps: Seq<Point>,
    core: Seq<bool>,
    tol: int,
    rep: Seq<usize>,
    i: int,
    k: int,
) -> Seq<usize>
    decreases k,
{
    if k <= 0 {
        rep
    } else {
        let r = scan_min(ps, core, tol, rep, i, k - 1);
        if core[k - 1] && close(ps[i], ps[k - 1], tol) && r[k - 1] < r[i] {
            r.update(i, r[k - 1])
        } else {
            r
        }
    }
}

/// One sweep over the first `k` points: every core point in turn runs its
/// minimising scan over the whole sequence.
pub open spec fn sweep(ps: Seq<Point>, core: Seq<bool>, tol: int, rep: Seq<usize>, k: int) -> Seq<
    usize,
>
    decreases k,
{
    if k <= 0 {
        rep
    } else {
        let r = sweep(ps, core, tol, rep, k - 1);
        if core[k - 1] {
            scan_min(ps, core, tol, r, k - 1, ps.len() as int)
        } else {
            r
        }
    }
}

/// `rounds` full sweeps, starting from `rep`.
pub open spec fn propagate(
    ps: Seq<Point>,
    core: Seq<bool>,
    tol: int,
    rep: Seq<usize>,
    rounds: int,
) -> Seq<usize>
    decreases rounds,
{
    if rounds <= 0 {
        rep
    } else {
        sweep(ps, core, tol, propagate(ps, core, tol, rep, rounds - 1), ps.len() as int)
    }
}

/// Each point starts as its own representative.
pub open spec fn init_reps(n: int) -> Seq<usize> {
    Seq::new(n as nat, |i: int| i as usize)
}

/// The representative of every point after the propagation has settled:
/// as many sweeps as there are points, enough for the smallest core index of
/// a density-connected component to reach every core member.
pub open spec fn final_reps(ps: Seq<Point>, min_points: int, tol: int) -> Seq<usize> {
    propagate(
        ps,
        core_seq(ps, min_points, tol),
        tol,
        init_reps(ps.len() as int),
        ps.len() as int,
    )
}

/// The minimising scan changes no entry but that of `i`, and keeps the length.
proof fn lemma_scan_min_frame(
    ps: Seq<Point>,
    core: Seq<bool>,
    tol: int,
    rep: Seq<usize>,
    i: int,
    k: int,
)
    requires
        0 <= i < rep.len(),
        k <= rep.len(),
    ensures
        scan_min(ps, core, tol, rep, i, k).len() == rep.len(),
        forall|t: int|
            0 <= t < rep.len() && t != i ==> #[trigger] scan_min(ps, core, tol, rep, i, k)[t]
                == rep[t],
    decreases k,
{
    if k > 0 {
        lemma_scan_min_frame(ps, core, tol, rep, i, k - 1);
    }
}

/// Runs the propagation: after as many sweeps as there are points, the
/// representatives equal [`propagate`] applied to the start state.
fn propagate_reps(points: &Vec<Point>, core: &Vec<bool>, tol_sq: i64, rep: &mut Vec<usize>)
    requires
        wf_points(points@),
        core@.len() == points@.len(),
        old(rep)@.len() == points@.len(),
    ensures
        final(rep)@ == propagate(points@, core@, tol_sq as int, old(rep)@, points@.len() as int),
        final(rep)@.len() == points@.len(),
{
    let n = points.len();
    let ghost tol = tol_sq as int;
    let ghost rep_start = rep@;
    let mut round: usize = 0;
    while round < n
        invariant
            n == points@.len(),
            wf_points(points@),
            core@.len() == n as int,
            rep@.len() == n as int,
            tol == tol_sq as int,
            round <= n,
            rep@ == propagate(points@, core@, tol, rep_start, round as int),
        decreases n - round,
    {
        let ghost rep_round = rep@;
        let mut i: usize = 0;
        while i < n
            invariant
                n == points@.len(),
                wf_points(points@),
                core@.len() == n as int,
                rep@.len() == n as int,
                rep_round.len() == n as int,
                tol == tol_sq as int,
                i <= n,
                rep@ == sweep(points@, core@, tol, rep_round, i as int),
            decreases n - i,
        {
            if core[i] {
                let ghost rep_sweep = rep@;
                let mut j: usize = 0;
                while j < n
                    invariant
                        n == points@.len(),
                        wf_points(points@),
                        core@.len() == n as int,
                        rep@.len() == n as int,
                        rep_sweep.len() == n as int,
                        tol == tol_sq as int,
                        i < n,
                        j <= n,
                        rep@ == scan_min(points@, core@, tol, rep_sweep, i as int, j as int),
                    decreases n - j,
                {
                    proof {
                        lemma_scan_min_frame(points@, core@, tol, rep_sweep, i as int, j as int);
                        lemma_scan_min_frame(
                            points@,
                            core@,
                            tol,
                            rep_sweep,
                            i as int,
                            j as int + 1,
                        );
                    }
                    let ghost prev = rep@;
                    if core[j] && crate::geometry::points_close(&points[i], &points[j], tol_sq) {
                        let rj = rep[j];
                        if rj < rep[i] {
                            rep.set(i, rj);
                        }
                    }
                    proof {
                        assert(scan_min(points@, core@, tol, rep_sweep, i as int, j as int + 1)
                            == (if core@[j as int] && close(points@[i as int], points@[j as int], tol)
                                && prev[j as int] < prev[i as int] {
                                prev.update(i as int, prev[j as int])
                            } else {
                                prev
                            }));
                    }
                    j = j + 1;
                }
            }
            i = i + 1;
        }
        round = round + 1;
    }
}

/// The first core point among the first `k` whose radius covers point `i`,
/// if any: the cluster a border point joins is the first one discovered.
pub open spec fn first_core_neighbor(
    ps: Seq<Point>,
    core: Seq<bool>,
    tol: int,
    i: int,
    k: int,
) -> Option<usize>
    decreases k,
{
    if k <= 0 {
        None
    } else {
        match first_core_neighbor(ps, core, tol, i, k - 1) {
            Some(j) => Some(j),
            None => if core[k - 1] && close(ps[i], ps[k - 1], tol) {
                Some((k - 1) as usize)
            } else {
                None
            },
        }
    }
}

/// The pre-renumbering label of point `i`: a core point carries its own
/// representative, a border point the representative of its first core
/// neighbour, and any other point none.
pub open spec fn rep_label(
    ps: Seq<Point>,
    core: Seq<bool>,
    tol: int,
    reps: Seq<usize>,
    i: int,
) -> Option<usize> {
    if core[i] {
        Some(reps[i])
    } else {
        match first_core_neighbor(ps, core, tol, i, ps.len() as int) {
            Some(j) => Some(reps[j as int]),
            None => None,
        }
    }
}

/// The pre-renumbering label of every point.
pub open spec fn rep_label_seq(ps: Seq<Point>, core: Seq<bool>, tol: int, reps: Seq<usize>) -> Seq<
    Option<usize>,
> {
    Seq::new(ps.len(), |i: int| rep_label(ps, core, tol, reps, i))
}

/// The position of the first occurrence of `v` among the first `k` entries.
pub open spec fn find_in_prefix(s: Seq<usize>, v: usize, k: int) -> Option<usize>
    decreases k,
{
    if k <= 0 {
        None
    } else {
        match find_in_prefix(s, v, k - 1) {
            Some(p) => Some(p),
            None => if s[k - 1] == v {
                Some((k - 1) as usize)
            } else {
                None
            },
        }
    }
}

/// Renumbers the first `k` representative labels into dense cluster
/// identifiers in discovery order, returning the labels and the
/// representatives in the order they were first seen.
pub open spec fn renumber(rl: Seq<Option<usize>>, k: int) -> (Seq<Option<usize>>, Seq<usize>)
    decreases k,
{
    if k <= 0 {
        (Seq::<Option<usize>>::empty(), Seq::<usize>::empty())
    } else {
        let (labs, seen) = renumber(rl, k - 1);
        match rl[k - 1] {
            None => (labs.push(None), seen),
            Some(r) => match find_in_prefix(seen, r, seen.len() as int) {
                Some(p) => (labs.push(Some(p)), seen),
                None => (labs.push(Some(seen.len() as usize)), seen.push(r)),
            },
        }
    }
}

/// The cluster label of every point: `None` for noise, otherwise a dense
/// cluster identifier assigned in discovery order. This is the whole engine
/// as one mathematical function of the scan and the parameters.
pub open spec fn dbscan_labels(ps: Seq<Point>, min_points: int, tol: int) -> Seq<Option<usize>> {
    renumber(
        rep_label_seq(ps, core_seq(ps, min_points, tol), tol, final_reps(ps, min_points, tol)),
        ps.len() as int,
    ).0
}

/// How many clusters the engine finds.
pub open spec fn dbscan_cluster_count(ps: Seq<Point>, min_points: int, tol: int) -> int {
    renumber(
        rep_label_seq(ps, core_seq(ps, min_points, tol), tol, final_reps(ps, min_points, tol)),
        ps.len() as int,
    ).1.len() as int
}

/// A first core neighbour found among the first `k` points has index below `k`.
proof fn lemma_first_core_neighbor_bound(ps: Seq<Point>, core: Seq<bool>, tol: int, i: int, k: int)
    requires
        k >= 0,
    ensures
        first_core_neighbor(ps, core, tol, i, k) matches Some(j) ==> j < k,
    decreases k,
{
    if k > 0 {
        lemma_first_core_neighbor_bound(ps, core, tol, i, k - 1);
    }
}

/// Assigns each point its representative label.
fn assign_rep_labels(points: &Vec<Point>, core: &Vec<bool>, tol_sq: i64, rep: &Vec<usize>) -> (rl:
    Vec<Option<usize>>)
    requires
        wf_points(points@),
        core@.len() == points@.len(),
        rep@.len() == points@.len(),
    ensures
        rl@ == rep_label_seq(points@, core@, tol_sq as int, rep@),
{
    let n = points.len();
    let ghost tol = tol_sq as int;
    let mut rl: Vec<Option<usize>> = Vec::new();
    let mut i: usize = 0;
    while i < n
        invariant
            n == points@.len(),
            wf_points(points@),
            core@.len() == n as int,
            rep@.len() == n as int,
            tol == tol_sq as int,
            i <= n,
            rl@.len() == i as int,
            forall|t: int| 0 <= t < i ==> rl@[t] == rep_label(points@, core@, tol, rep@, t),
        decreases n - i,
    {
        let lab: Option<usize> = if core[i] {
            Some(rep[i])
        } else {
            let mut found: Option<usize> = None;
            let mut j: usize = 0;
            while j < n
                invariant
                    n == points@.len(),
                    wf_points(points@),
                    core@.len() == n as int,
                    tol == tol_sq as int,
                    i < n,
                    j <= n,
                    found == first_core_neighbor(points@, core@, tol, i as int, j as int),
                decreases n - j,
            {
                if found.is_none() && core[j] && crate::geometry::points_close(
                    &points[i],
                    &points[j],
                    tol_sq,
                ) {
                    found = Some(j);
                }
                j = j + 1;
            }
            proof {
                lemma_first_core_neighbor_bound(points@, core@, tol, i as int, n as int);
            }
            match found {
                Some(j) => Some(rep[j]),
                None => None,
            }
        };
        rl.push(lab);
        i = i + 1;
    }
    proof {
        assert(rl@ =~= rep_label_seq(points@, core@, tol, rep@));
    }
    rl
}

/// Renumbers representative labels into dense identifiers in discovery order.
fn renumber_labels(rl: &Vec<Option<usize>>) -> (r: (Vec<Option<usize>>, Vec<usize>))
    ensures
        r.0@ == renumber(rl@, rl@.len() as int).0,
        r.1@ == renumber(rl@, rl@.len() as int).1,
{
    let n = rl.len();
    let mut labs: Vec<Option<usize>> = Vec::new();
    let mut seen: Vec<usize> = Vec::new();
    let mut k: usize = 0;
    while k < n
        invariant
            n == rl@.len(),
            k <= n,
            labs@ == renumber(rl@, k as int).0,
            seen@ == renumber(rl@, k as int).1,
        decreases n - k,
    {
        match rl[k] {
            None => labs.push(None),
            Some(v) => {
                let mut pos: Option<usize> = None;
                let mut t: usize = 0;
                let m = seen.len();
                while t < m
                    invariant
                        m == seen@.len(),
                        t <= m,
                        pos == find_in_prefix(seen@, v, t as int),
                    decreases m - t,
                {
                    if pos.is_none() && seen[t] == v {
                        pos = Some(t);
                    }
                    t = t + 1;
                }
                match pos {
                    Some(p) => labs.push(Some(p)),
                    None => {
                        labs.push(Some(seen.len()));
                        seen.push(v);
                    },
                }
            },
        }
        k = k + 1;
    }
    (labs, seen)
}

/// Clusters a scan: returns one label per point, index-aligned with the scan
/// (`None` marks noise, `Some(c)` membership of cluster `c`), and the number
/// of clusters. Identifiers are dense, starting at zero, in discovery order.
///
/// The result is pinned to [`dbscan_labels`]: the labelling is a pure
/// function of the point sequence and the parameters.
pub fn dbscan(points: &Vec<Point>, params: &DbscanParams) -> (r: (Vec<Option<usize>>, usize))
    requires
        wf_points(points@),
        params.wf(),
    ensures
        r.0@ == dbscan_labels(points@, params.min_points as int, params.tolerance_sq as int),
        r.1 as int == dbscan_cluster_count(
            points@,
            params.min_points as int,
            params.tolerance_sq as int,
        ),
        r.0@.len() == points@.len(),
{
    let n = points.len();
    let core = core_flags(points, params);
    let mut rep: Vec<usize> = Vec::new();
    let mut i: usize = 0;
    while i < n
        invariant
            i <= n,
            rep@.len() == i as int,
            forall|t: int| 0 <= t < i ==> rep@[t] == t as usize,
        decreases n - i,
    {
        rep.push(i);
        i = i + 1;
    }
    proof {
        assert(rep@ =~= init_reps(n as int));
    }
    propagate_reps(points, &core, params.tolerance_sq, &mut rep);
    let rl = assign_rep_labels(points, &core, params.tolerance_sq, &rep);
    let (labels, seen) = renumber_labels(&rl);
    proof {
        lemma_renumber_shape(rl@, rl@.len() as int);
    }
    (labels, seen.len())
}

/// The label sequence is index-aligned with the scan.
pub proof fn lemma_dbscan_labels_len(ps: Seq<Point>, min_points: int, tol: int)
    ensures
        dbscan_labels(ps, min_points, tol).len() == ps.len(),
{
    let rl = rep_label_seq(ps, core_seq(ps, min_points, tol), tol, final_reps(ps, min_points, tol));
    lemma_renumber_shape(rl, ps.len() as int);
}

/// Renumbering keeps each point's noise flag: a label is `None` after
/// renumbering exactly where it was `None` before.
proof fn lemma_renumber_preserves_none(rl: Seq<Option<usize>>, k: int, i: int)
    requires
        0 <= i < k <= rl.len(),
    ensures
        renumber(rl, k).0[i] is None <==> rl[i] is None,
    decreases k,
{
    lemma_renumber_shape(rl, k - 1);
    if i < k - 1 {
        lemma_renumber_preserves_none(rl, k - 1, i);
    }
}

/// No core point found among the first `k` means none qualifies there.
proof fn lemma_first_core_neighbor_none(ps: Seq<Point>, core: Seq<bool>, tol: int, i: int, k: int)
    requires
        k >= 0,
    ensures
        first_core_neighbor(ps, core, tol, i, k) is None <==> (forall|j: int|
            0 <= j < k ==> !(#[trigger] core[j] && close(ps[i], ps[j], tol))),
    decreases k,
{
    if k > 0 {
        lemma_first_core_neighbor_none(ps, core, tol, i, k - 1);
    }
}

/// A point is labelled noise exactly when it is not a core point and lies in
/// no core point's neighbourhood: it is neither core nor border.
pub proof fn lemma_noise_characterization(ps: Seq<Point>, min_points: int, tol: int, i: int)
    requires
        0 <= i < ps.len(),
    ensures
        dbscan_labels(ps, min_points, tol)[i] is None <==> (!is_core(ps, i, min_points, tol)
            && (forall|j: int|
            0 <= j < ps.len() ==> !(#[trigger] is_core(ps, j, min_points, tol) && close(
                ps[i],
                ps[j],
                tol,
            )))),
{
    let core = core_seq(ps, min_points, tol);
    let reps = final_reps(ps, min_points, tol);
    let rl = rep_label_seq(ps, core, tol, reps);
    lemma_dbscan_labels_len(ps, min_points, tol);
    lemma_renumber_preserves_none(rl, ps.len() as int, i);
    lemma_first_core_neighbor_none(ps, core, tol, i, ps.len() as int);
    assert(rl[i] == rep_label(ps, core, tol, reps, i));
    assert(forall|j: int| 0 <= j < ps.len() ==> #[trigger] core[j] == is_core(ps, j, min_points, tol));
    if !is_core(ps, i, min_points, tol) {
        assert(first_core_neighbor(ps, core, tol, i, ps.len() as int) is None <==> (forall|j: int|
            0 <= j < ps.len() ==> !(#[trigger] is_core(ps, j, min_points, tol) && close(
                ps[i],
                ps[j],
                tol,
            )))) by {
            if forall|j: int|
                0 <= j < ps.len() ==> !(#[trigger] core[j] && close(ps[i], ps[j], tol)) {
                assert forall|j: int|
                    0 <= j < ps.len() implies !(#[trigger] is_core(ps, j, min_points, tol)
                    && close(ps[i], ps[j], tol)) by {
                    assert(!(core[j] && close(ps[i], ps[j], tol)));
                }
            }
            if forall|j: int|
                0 <= j < ps.len() ==> !(#[trigger] is_core(ps, j, min_points, tol) && close(
                    ps[i],
                    ps[j],
                    tol,
                )) {
                assert forall|j: int|
                    0 <= j < ps.len() implies !(#[trigger] core[j] && close(ps[i], ps[j], tol)) by {
                    assert(!(is_core(ps, j, min_points, tol) && close(ps[i], ps[j], tol)));
                }
            }
        }
    }
}

/// Every core point is clustered, never noise.
pub proof fn lemma_core_point_clustered(ps: Seq<Point>, min_points: int, tol: int, i: int)
    requires
        0 <= i < ps.len(),
        is_core(ps, i, min_points, tol),
    ensures
        dbscan_labels(ps, min_points, tol)[i] is Some,
{
    lemma_noise_characterization(ps, min_points, tol, i);
    lemma_dbscan_labels_len(ps, min_points, tol);
    assert(!(dbscan_labels(ps, min_points, tol)[i] is None));
}

/// Clustering is a pure function of the point sequence and the parameters:
/// two runs over the same scan with the same configuration produce the same
/// labelling — the same partition, and even the same identifiers, since
/// discovery order is itself determined by the scan.
pub proof fn lemma_partition_deterministic(
    ps: Seq<Point>,
    min_points: int,
    tol: int,
    l1: Seq<Option<usize>>,
    l2: Seq<Option<usize>>,
)
    requires
        l1 == dbscan_labels(ps, min_points, tol),
        l2 == dbscan_labels(ps, min_points, tol),
    ensures
        l1 == l2,
{
}

/// A found position lies within the searched prefix and holds the value.
proof fn lemma_find_in_prefix_found(s: Seq<usize>, v: usize, k: int)
    requires
        0 <= k <= s.len(),
        k <= usize::MAX,
    ensures
        find_in_prefix(s, v, k) matches Some(p) ==> p < k && s[p as int] == v,
    decreases k,
{
    if k > 0 {
        lemma_find_in_prefix_found(s, v, k - 1);
    }
}

/// Some label of the prefix carries cluster identifier `c`.
spec fn label_has(labs: Seq<Option<usize>>, c: int) -> bool {
    exists|i: int| 0 <= i < labs.len() && labs[i] == Some(c as usize)
}

/// Renumbered identifiers are dense: every label is below the cluster count,
/// and every identifier below the count labels at least one point.
proof fn lemma_renumber_dense(rl: Seq<Option<usize>>, k: int)
    requires
        0 <= k <= rl.len(),
        k <= usize::MAX,
    ensures
        forall|i: int|
            0 <= i < k ==> (#[trigger] renumber(rl, k).0[i] matches Some(c) ==> (c as int)
                < renumber(rl, k).1.len()),
        forall|c: int| 0 <= c < renumber(rl, k).1.len() ==> #[trigger] label_has(renumber(rl, k).0, c),
    decreases k,
{
    if k > 0 {
        lemma_renumber_dense(rl, k - 1);
        lemma_renumber_shape(rl, k - 1);
        lemma_renumber_shape(rl, k);
        let labs0 = renumber(rl, k - 1).0;
        let seen0 = renumber(rl, k - 1).1;
        let labs = renumber(rl, k).0;
        let seen = renumber(rl, k).1;
        if rl[k - 1] is Some {
            let v = rl[k - 1]->Some_0;
            lemma_find_in_prefix_found(seen0, v, seen0.len() as int);
        }
        assert forall|c: int| 0 <= c < seen.len() implies #[trigger] label_has(labs, c) by {
            if c < seen0.len() {
                assert(label_has(labs0, c));
                let w = choose|i: int| 0 <= i < labs0.len() && labs0[i] == Some(c as usize);
                assert(labs[w] == Some(c as usize));
            } else {
                assert(labs[k - 1] == Some(c as usize));
            }
        }
    }
}

/// Every assigned cluster identifier lies below the cluster count.
pub proof fn lemma_cluster_id_in_range(ps: Seq<Point>, min_points: int, tol: int, i: int)
    requires
        0 <= i < ps.len(),
        ps.len() <= usize::MAX,
    ensures
        dbscan_labels(ps, min_points, tol)[i] matches Some(c) ==> (c as int)
            < dbscan_cluster_count(ps, min_points, tol),
{
    let rl = rep_label_seq(ps, core_seq(ps, min_points, tol), tol, final_reps(ps, min_points, tol));
    lemma_renumber_dense(rl, ps.len() as int);
}

/// Every cluster identifier below the count labels at least one point: no
/// empty cluster is ever emitted.
pub proof fn lemma_cluster_id_has_member(ps: Seq<Point>, min_points: int, tol: int, c: int)
    requires
        0 <= c < dbscan_cluster_count(ps, min_points, tol),
        ps.len() <= usize::MAX,
    ensures
        exists|i: int|
            0 <= i < ps.len() && #[trigger] dbscan_labels(ps, min_points, tol)[i] == Some(
                c as usize,
            ),
{
    let rl = rep_label_seq(ps, core_seq(ps, min_points, tol), tol, final_reps(ps, min_points, tol));
    lemma_renumber_dense(rl, ps.len() as int);
    lemma_renumber_shape(rl, ps.len() as int);
    assert(label_has(dbscan_labels(ps, min_points, tol), c));
}

/// A wider radius never loses a neighbour.
proof fn lemma_neighbor_count_monotone(ps: Seq<Point>, i: int, tol1: int, tol2: int, k: int)
    requires
        tol1 <= tol2,
        k >= 0,
    ensures
        neighbor_count(ps, i, tol1, k) <= neighbor_count(ps, i, tol2, k),
    decreases k,
{
    if k > 0 {
        lemma_neighbor_count_monotone(ps, i, tol1, tol2, k - 1);
    }
}

/// A core point stays core when the radius grows.
pub proof fn lemma_core_monotone(ps: Seq<Point>, i: int, min_points: int, tol1: int, tol2: int)
    requires
        tol1 <= tol2,
        is_core(ps, i, min_points, tol1),
    ensures
        is_core(ps, i, min_points, tol2),
{
    lemma_neighbor_count_monotone(ps, i, tol1, tol2, ps.len() as int);
}

/// Growing the radius (holding `min_points` fixed) never turns a clustered
/// point into noise.
pub proof fn lemma_tolerance_monotone(
    ps: Seq<Point>,
    min_points: int,
    tol1: int,
    tol2: int,
    i: int,
)
    requires
        0 <= i < ps.len(),
        tol1 <= tol2,
        dbscan_labels(ps, min_points, tol1)[i] is Some,
    ensures
        dbscan_labels(ps, min_points, tol2)[i] is Some,
{
    lemma_noise_characterization(ps, min_points, tol1, i);
    lemma_noise_characterization(ps, min_points, tol2, i);
    lemma_dbscan_labels_len(ps, min_points, tol1);
    lemma_dbscan_labels_len(ps, min_points, tol2);
    if is_core(ps, i, min_points, tol1) {
        lemma_core_monotone(ps, i, min_points, tol1, tol2);
    } else {
        let j = choose|j: int|
            0 <= j < ps.len() && #[trigger] is_core(ps, j, min_points, tol1) && close(
                ps[i],
                ps[j],
                tol1,
            );
        lemma_core_monotone(ps, j, min_points, tol1, tol2);
        crate::geometry::lemma_close_monotone(ps[i], ps[j], tol1, tol2);
        assert(is_core(ps, j, min_points, tol2) && close(ps[i], ps[j], tol2));
    }
    assert(!(dbscan_labels(ps, min_points, tol2)[i] is None));
}

/// Renumbering yields one label per input label.
proof fn lemma_renumber_shape(rl: Seq<Option<usize>>, k: int)
    requires
        0 <= k <= rl.len(),
    ensures
        renumber(rl, k).0.len() == k,
        renumber(rl, k).1.len() <= k,
    decreases k,
{
    if k > 0 {
        lemma_renumber_shape(rl, k - 1);
    }
}

/// Core point `t` is density-reachable from core point `s` within `k` hops:
/// a chain of core points, each within the radius of the next, leads from
/// `s` to `t`.
pub open spec fn density_reachable(
    ps: Seq<Point>,
    min_points: int,
    tol: int,
    s: int,
    t: int,
    k: nat,
) -> bool
    decreases k,
{
    if s == t {
        0 <= s < ps.len() && is_core(ps, s, min_points, tol)
    } else if k == 0 {
        false
    } else {
        0 <= t < ps.len() && is_core(ps, t, min_points, tol) && exists|m: int|
            0 <= m < ps.len() && is_core(ps, m, min_points, tol) && close(ps[m], ps[t], tol)
                && density_reachable(ps, min_points, tol, s, m, (k - 1) as nat)
    }
}

/// Both ends of a reachability chain are core points of the scan.
proof fn lemma_dr_endpoints(ps: Seq<Point>, min_points: int, tol: int, s: int, t: int, k: nat)
    requires
        density_reachable(ps, min_points, tol, s, t, k),
    ensures
        0 <= s < ps.len() && is_core(ps, s, min_points, tol),
        0 <= t < ps.len() && is_core(ps, t, min_points, tol),
    decreases k,
{
    if s != t {
        let m = choose|m: int|
            0 <= m < ps.len() && is_core(ps, m, min_points, tol) && close(ps[m], ps[t], tol)
                && density_reachable(ps, min_points, tol, s, m, (k - 1) as nat);
        lemma_dr_endpoints(ps, min_points, tol, s, m, (k - 1) as nat);
    }
}

/// A chain extends by one hop to any core point within the radius of its end.
proof fn lemma_dr_extend(ps: Seq<Point>, min_points: int, tol: int, s: int, m: int, t: int, k: nat)
    requires
        density_reachable(ps, min_points, tol, s, m, k),
        0 <= t < ps.len(),
        is_core(ps, t, min_points, tol),
        close(ps[m], ps[t], tol),
    ensures
        density_reachable(ps, min_points, tol, s, t, k + 1),
{
    if s != t {
        lemma_dr_endpoints(ps, min_points, tol, s, m, k);
    }
}

/// A chain within `k` hops is also a chain within any larger bound.
proof fn lemma_dr_mono(ps: Seq<Point>, min_points: int, tol: int, s: int, t: int, k1: nat, k2: nat)
    requires
        density_reachable(ps, min_points, tol, s, t, k1),
        k1 <= k2,
    ensures
        density_reachable(ps, min_points, tol, s, t, k2),
    decreases k1,
{
    if s != t {
        let m = choose|m: int|
            0 <= m < ps.len() && is_core(ps, m, min_points, tol) && close(ps[m], ps[t], tol)
                && density_reachable(ps, min_points, tol, s, m, (k1 - 1) as nat);
        lemma_dr_mono(ps, min_points, tol, s, m, (k1 - 1) as nat, (k2 - 1) as nat);
    }
}

/// Chains concatenate: reachability is transitive.
proof fn lemma_dr_trans(
    ps: Seq<Point>,
    min_points: int,
    tol: int,
    a: int,
    b: int,
    c: int,
    k1: nat,
    k2: nat,
)
    requires
        density_reachable(ps, min_points, tol, a, b, k1),
        density_reachable(ps, min_points, tol, b, c, k2),
    ensures
        density_reachable(ps, min_points, tol, a, c, (k1 + k2) as nat),
    decreases k2,
{
    if b != c {
        let m = choose|m: int|
            0 <= m < ps.len() && is_core(ps, m, min_points, tol) && close(ps[m], ps[c], tol)
                && density_reachable(ps, min_points, tol, b, m, (k2 - 1) as nat);
        lemma_dr_trans(ps, min_points, tol, a, b, m, k1, (k2 - 1) as nat);
        lemma_dr_extend(ps, min_points, tol, a, m, c, (k1 + k2 - 1) as nat);
    } else {
        lemma_dr_mono(ps, min_points, tol, a, b, k1, (k1 + k2) as nat);
    }
}

/// Chains reverse: the radius relation is symmetric, so reachability is too.
proof fn lemma_dr_reverse(ps: Seq<Point>, min_points: int, tol: int, s: int, t: int, k: nat)
    requires
        density_reachable(ps, min_points, tol, s, t, k),
    ensures
        density_reachable(ps, min_points, tol, t, s, k),
    decreases k,
{
    if s != t {
        let m = choose|m: int|
            0 <= m < ps.len() && is_core(ps, m, min_points, tol) && close(ps[m], ps[t], tol)
                && density_reachable(ps, min_points, tol, s, m, (k - 1) as nat);
        lemma_dr_endpoints(ps, min_points, tol, s, m, (k - 1) as nat);
        lemma_dr_reverse(ps, min_points, tol, s, m, (k - 1) as nat);
        crate::geometry::lemma_close_symmetric(ps[m], ps[t], tol);
        lemma_dr_endpoints(ps, min_points, tol, s, t, k);
        assert(density_reachable(ps, min_points, tol, t, m, 1)) by {
            if t != m {
                assert(density_reachable(ps, min_points, tol, t, t, 0));
            }
        }
        lemma_dr_trans(ps, min_points, tol, t, m, s, 1, (k - 1) as nat);
    }
}

/// Every representative of a core point leads back to it: the entry is the
/// index of a core point density-connected to the point.
spec fn rep_ok(ps: Seq<Point>, min_points: int, tol: int, rep: Seq<usize>, i: int) -> bool {
    is_core(ps, i, min_points, tol) ==> rep[i] < ps.len() && exists|k: nat|
        #[trigger] density_reachable(ps, min_points, tol, rep[i] as int, i, k)
}

/// Every core point's representative is density-connected to it.
spec fn reps_connected(ps: Seq<Point>, min_points: int, tol: int, rep: Seq<usize>) -> bool {
    forall|i: int| 0 <= i < rep.len() ==> #[trigger] rep_ok(ps, min_points, tol, rep, i)
}

/// The minimising scan keeps every representative density-connected.
proof fn lemma_scan_min_connected(
    ps: Seq<Point>,
    min_points: int,
    tol: int,
    rep: Seq<usize>,
    i: int,
    k: int,
)
    requires
        0 <= i < ps.len(),
        is_core(ps, i, min_points, tol),
        k <= ps.len(),
        rep.len() == ps.len(),
        reps_connected(ps, min_points, tol, rep),
    ensures
        reps_connected(
            ps,
            min_points,
            tol,
            scan_min(ps, core_seq(ps, min_points, tol), tol, rep, i, k),
        ),
    decreases k,
{
    let core = core_seq(ps, min_points, tol);
    if k > 0 {
        lemma_scan_min_connected(ps, min_points, tol, rep, i, k - 1);
        let r = scan_min(ps, core, tol, rep, i, k - 1);
        lemma_scan_min_frame(ps, core, tol, rep, i, k - 1);
        if core[k - 1] && close(ps[i], ps[k - 1], tol) && r[k - 1] < r[i] {
            let r2 = r.update(i, r[k - 1]);
            assert(rep_ok(ps, min_points, tol, r, k - 1));
            let kk = choose|kk: nat|
                #[trigger] density_reachable(ps, min_points, tol, r[k - 1] as int, k - 1, kk);
            crate::geometry::lemma_close_symmetric(ps[i], ps[k - 1], tol);
            lemma_dr_extend(ps, min_points, tol, r[k - 1] as int, k - 1, i, kk);
            assert forall|t: int| 0 <= t < r2.len() implies #[trigger] rep_ok(
                ps,
                min_points,
                tol,
                r2,
                t,
            ) by {
                if t == i {
                    assert(r2[i] == r[k - 1]);
                    assert(density_reachable(ps, min_points, tol, r2[i] as int, i, kk + 1));
                } else {
                    assert(rep_ok(ps, min_points, tol, r, t));
                    if is_core(ps, t, min_points, tol) {
                        let kt = choose|kt: nat|
                            #[trigger] density_reachable(ps, min_points, tol, r[t] as int, t, kt);
                        assert(r2[t] == r[t]);
                        assert(density_reachable(ps, min_points, tol, r2[t] as int, t, kt));
                    }
                }
            }
        }
    }
}

/// A sweep keeps every representative density-connected.
proof fn lemma_sweep_connected(ps: Seq<Point>, min_points: int, tol: int, rep: Seq<usize>, k: int)
    requires
        k <= ps.len(),
        rep.len() == ps.len(),
        reps_connected(ps, min_points, tol, rep),
    ensures
        reps_connected(ps, min_points, tol, sweep(ps, core_seq(ps, min_points, tol), tol, rep, k)),
        sweep(ps, core_seq(ps, min_points, tol), tol, rep, k).len() == rep.len(),
    decreases k,
{
    let core = core_seq(ps, min_points, tol);
    if k > 0 {
        lemma_sweep_connected(ps, min_points, tol, rep, k - 1);
        let r = sweep(ps, core, tol, rep, k - 1);
        if core[k - 1] {
            lemma_scan_min_connected(ps, min_points, tol, r, k - 1, ps.len() as int);
            lemma_scan_min_frame(ps, core, tol, r, k - 1, ps.len() as int);
        }
    }
}

/// The whole propagation keeps every representative density-connected.
proof fn lemma_propagate_connected(
    ps: Seq<Point>,
    min_points: int,
    tol: int,
    rep: Seq<usize>,
    rounds: int,
)
    requires
        rep.len() == ps.len(),
        reps_connected(ps, min_points, tol, rep),
    ensures
        reps_connected(
            ps,
            min_points,
            tol,
            propagate(ps, core_seq(ps, min_points, tol), tol, rep, rounds),
        ),
        propagate(ps, core_seq(ps, min_points, tol), tol, rep, rounds).len() == rep.len(),
    decreases rounds,
{
    if rounds > 0 {
        lemma_propagate_connected(ps, min_points, tol, rep, rounds - 1);
        lemma_sweep_connected(
            ps,
            min_points,
            tol,
            propagate(ps, core_seq(ps, min_points, tol), tol, rep, rounds - 1),
            ps.len() as int,
        );
    }
}

/// Renumbering sends a label back to the representative it stands for:
/// label `c` marks exactly the points whose representative is the `c`-th
/// discovered one.
proof fn lemma_renumber_positions(rl: Seq<Option<usize>>, k: int)
    requires
        0 <= k <= rl.len(),
        k <= usize::MAX,
    ensures
        forall|i: int|
            0 <= i < k ==> (#[trigger] renumber(rl, k).0[i] matches Some(c) ==> (c as int)
                < renumber(rl, k).1.len() && rl[i] == Some(renumber(rl, k).1[c as int])),
    decreases k,
{
    if k > 0 {
        lemma_renumber_positions(rl, k - 1);
        lemma_renumber_shape(rl, k - 1);
        lemma_renumber_shape(rl, k);
        if rl[k - 1] is Some {
            let v = rl[k - 1]->Some_0;
            let seen0 = renumber(rl, k - 1).1;
            lemma_find_in_prefix_found(seen0, v, seen0.len() as int);
        }
    }
}

/// Fewer noise labels stand in a sequence whose `Some` labels cover another's.
proof fn lemma_none_count_antitone(l1: Seq<Option<usize>>, l2: Seq<Option<usize>>, k: int)
    requires
        0 <= k <= l1.len(),
        l1.len() == l2.len(),
        forall|i: int| 0 <= i < l1.len() && #[trigger] l1[i] is Some ==> l2[i] is Some,
    ensures
        count_label_upto(l2, None, k) <= count_label_upto(l1, None, k),
    decreases k,
{
    if k > 0 {
        lemma_none_count_antitone(l1, l2, k - 1);
    }
}

/// Growing the radius (holding `min_points` fixed) never shrinks the
/// clustered part of the scan: the number of noise points can only fall, so
/// the total size of all clusters can only grow.
pub proof fn lemma_tolerance_monotone_counts(ps: Seq<Point>, min_points: int, tol1: int, tol2: int)
    requires
        tol1 <= tol2,
    ensures
        count_label(dbscan_labels(ps, min_points, tol2), None) <= count_label(
            dbscan_labels(ps, min_points, tol1),
            None,
        ),
{
    let l1 = dbscan_labels(ps, min_points, tol1);
    let l2 = dbscan_labels(ps, min_points, tol2);
    lemma_dbscan_labels_len(ps, min_points, tol1);
    lemma_dbscan_labels_len(ps, min_points, tol2);
    assert forall|i: int| 0 <= i < l1.len() && #[trigger] l1[i] is Some implies l2[i] is Some by {
        lemma_tolerance_monotone(ps, min_points, tol1, tol2, i);
    }
    lemma_none_count_antitone(l1, l2, l1.len() as int);
}

/// A found first core neighbour is a core point within the radius.
proof fn lemma_first_core_neighbor_found(
    ps: Seq<Point>,
    core: Seq<bool>,
    tol: int,
    i: int,
    k: int,
)
    requires
        0 <= k <= usize::MAX,
    ensures
        first_core_neighbor(ps, core, tol, i, k) matches Some(j) ==> (j as int) < k
            && core[j as int] && close(ps[i], ps[j as int], tol),
    decreases k,
{
    if k > 0 {
        lemma_first_core_neighbor_found(ps, core, tol, i, k - 1);
    }
}

/// A value that was never found among the first `k` entries is absent there.
proof fn lemma_find_in_prefix_none(s: Seq<usize>, v: usize, k: int)
    requires
        0 <= k,
    ensures
        find_in_prefix(s, v, k) is None ==> (forall|p: int| 0 <= p < k ==> s[p] != v),
    decreases k,
{
    if k > 0 {
        lemma_find_in_prefix_none(s, v, k - 1);
    }
}

/// The discovered representatives are pairwise distinct, so a label is
/// determined by the representative it stands for: equal representatives get
/// equal labels.
proof fn lemma_renumber_distinct(rl: Seq<Option<usize>>, k: int)
    requires
        0 <= k <= rl.len(),
        k <= usize::MAX,
    ensures
        forall|p: int, q: int|
            0 <= p < q < renumber(rl, k).1.len() ==> renumber(rl, k).1[p] != renumber(
                rl,
                k,
            ).1[q],
    decreases k,
{
    if k > 0 {
        lemma_renumber_distinct(rl, k - 1);
        lemma_renumber_shape(rl, k - 1);
        let seen0 = renumber(rl, k - 1).1;
        if rl[k - 1] is Some {
            let v = rl[k - 1]->Some_0;
            if find_in_prefix(seen0, v, seen0.len() as int) is None {
                lemma_find_in_prefix_none(seen0, v, seen0.len() as int);
            }
        }
    }
}

/// Two points whose representative labels agree carry the same cluster label.
proof fn lemma_renumber_value_determines(rl: Seq<Option<usize>>, k: int, i: int, j: int)
    requires
        0 <= i < k,
        0 <= j < k,
        k <= rl.len(),
        k <= usize::MAX,
        rl[i] == rl[j],
        rl[i] is Some,
    ensures
        renumber(rl, k).0[i] == renumber(rl, k).0[j],
{
    lemma_renumber_positions(rl, k);
    lemma_renumber_distinct(rl, k);
    lemma_renumber_shape(rl, k);
    lemma_renumber_preserves_none(rl, k, i);
    lemma_renumber_preserves_none(rl, k, j);
    let labs = renumber(rl, k).0;
    let seen = renumber(rl, k).1;
    let ci = labs[i]->Some_0;
    let cj = labs[j]->Some_0;
    assert(rl[i] == Some(seen[ci as int]) && rl[j] == Some(seen[cj as int]));
    if ci != cj {
        assert(seen[ci as int] != seen[cj as int]);
    }
}

/// Density-connectivity of shared labels: two core points carrying the same
/// cluster label are density-reachable from one another through a chain of
/// core points. Together with [`lemma_noise_characterization`] this pins what
/// a cluster is: core points of one density-connected component, with the
/// border points attached to it.
pub proof fn lemma_same_cluster_core_connected(
    ps: Seq<Point>,
    min_points: int,
    tol: int,
    i: int,
    j: int,
)
    requires
        0 <= i < ps.len(),
        0 <= j < ps.len(),
        ps.len() <= usize::MAX,
        is_core(ps, i, min_points, tol),
        is_core(ps, j, min_points, tol),
        dbscan_labels(ps, min_points, tol)[i] == dbscan_labels(ps, min_points, tol)[j],
    ensures
        exists|k: nat| density_reachable(ps, min_points, tol, i, j, k),
{
    let core = core_seq(ps, min_points, tol);
    let reps = final_reps(ps, min_points, tol);
    let rl = rep_label_seq(ps, core, tol, reps);
    let n = ps.len() as int;
    assert forall|t: int| 0 <= t < n implies #[trigger] rep_ok(
        ps,
        min_points,
        tol,
        init_reps(n),
        t,
    ) by {
        if is_core(ps, t, min_points, tol) {
            assert(init_reps(n)[t] == t as usize);
            assert(density_reachable(ps, min_points, tol, init_reps(n)[t] as int, t, 0));
        }
    }
    assert(reps_connected(ps, min_points, tol, init_reps(n)));
    lemma_propagate_connected(ps, min_points, tol, init_reps(n), n);
    lemma_renumber_positions(rl, n);
    lemma_dbscan_labels_len(ps, min_points, tol);
    lemma_core_point_clustered(ps, min_points, tol, i);
    assert(rl[i] == Some(reps[i]));
    assert(rl[j] == Some(reps[j]));
    let labels = dbscan_labels(ps, min_points, tol);
    let c = labels[i]->Some_0;
    assert(rl[i] == Some(renumber(rl, n).1[c as int]));
    assert(rl[j] == Some(renumber(rl, n).1[c as int]));
    assert(reps[i] == reps[j]);
    let a = reps[i] as int;
    assert(rep_ok(ps, min_points, tol, reps, i));
    assert(rep_ok(ps, min_points, tol, reps, j));
    let k1 = choose|k: nat| #[trigger] density_reachable(ps, min_points, tol, a, i, k);
    let k2 = choose|k: nat| #[trigger] density_reachable(ps, min_points, tol, a, j, k);
    lemma_dr_reverse(ps, min_points, tol, a, i, k1);
    lemma_dr_trans(ps, min_points, tol, i, a, j, k1, k2);
}

/// A clustered border point joins a core point's cluster: every clustered
/// non-core point lies within the radius of a core point that carries the
/// same cluster label.
pub proof fn lemma_border_joins_core_cluster(ps: Seq<Point>, min_points: int, tol: int, i: int)
    requires
        0 <= i < ps.len(),
        ps.len() <= usize::MAX,
        !is_core(ps, i, min_points, tol),
        dbscan_labels(ps, min_points, tol)[i] is Some,
    ensures
        exists|j: int|
            0 <= j < ps.len() && #[trigger] is_core(ps, j, min_points, tol) && close(
                ps[i],
                ps[j],
                tol,
            ) && dbscan_labels(ps, min_points, tol)[j] == dbscan_labels(ps, min_points, tol)[i],
{
    let core = core_seq(ps, min_points, tol);
    let reps = final_reps(ps, min_points, tol);
    let rl = rep_label_seq(ps, core, tol, reps);
    let n = ps.len() as int;
    lemma_dbscan_labels_len(ps, min_points, tol);
    lemma_renumber_preserves_none(rl, n, i);
    assert(rl[i] is Some);
    lemma_first_core_neighbor_found(ps, core, tol, i, n);
    let j = first_core_neighbor(ps, core, tol, i, n)->Some_0 as int;
    assert(core[j] && close(ps[i], ps[j], tol));
    assert(rl[i] == Some(reps[j]));
    assert(rl[j] == Some(reps[j]));
    lemma_renumber_value_determines(rl, n, i, j);
    assert(is_core(ps, j, min_points, tol) && close(ps[i], ps[j], tol) && dbscan_labels(
        ps,
        min_points,
        tol,
    )[j] == dbscan_labels(ps, min_points, tol)[i]);
}

/// An empty scan clusters to an empty labelling and no clusters — a valid
/// result, not an error.
pub proof fn lemma_empty_scan(min_points: int, tol: int)
    ensures
        dbscan_labels(Seq::<Point>::empty(), min_points, tol) == Seq::<Option<usize>>::empty(),
        dbscan_cluster_count(Seq::<Point>::empty(), min_points, tol) == 0,
{
    let rl = rep_label_seq(
        Seq::<Point>::empty(),
        core_seq(Seq::<Point>::empty(), min_points, tol),
        tol,
        final_reps(Seq::<Point>::empty(), min_points, tol),
    );
    assert(renumber(rl, 0).0 =~= Seq::<Option<usize>>::empty());
    assert(renumber(rl, 0).1 =~= Seq::<usize>::empty());
}

/// A single point with `min_points` of one and any positive radius is its own
/// cluster of size one, not noise: it is within its own neighbourhood.
pub proof fn lemma_single_point_cluster(p: Point, tol: int)
    requires
        tol >= 1,
    ensures
        dbscan_labels(seq![p], 1, tol) =~= seq![Some(0usize)],
        dbscan_cluster_count(seq![p], 1, tol) == 1,
{
    let ps = seq![p];
    crate::geometry::lemma_close_self(p, tol);
    assert(close(p, p, tol));
    assert(neighbor_count(ps, 0, tol, 1) == 1) by {
        reveal_with_fuel(neighbor_count, 3);
    }
    assert(is_core(ps, 0, 1, tol));
    let core = core_seq(ps, 1, tol);
    assert(core[0]);
    let rep0 = init_reps(1);
    assert(rep0[0] == 0usize);
    assert(scan_min(ps, core, tol, rep0, 0, 1) == rep0) by {
        reveal_with_fuel(scan_min, 3);
    }
    assert(sweep(ps, core, tol, rep0, 1) == rep0) by {
        reveal_with_fuel(sweep, 3);
    }
    assert(propagate(ps, core, tol, rep0, 1) == rep0) by {
        reveal_with_fuel(propagate, 3);
    }
    assert(final_reps(ps, 1, tol) == rep0);
    let rl = rep_label_seq(ps, core, tol, rep0);
    assert(rl[0] == Some(0usize));
    assert(rl.len() == 1);
    assert(renumber(rl, 1).0 =~= seq![Some(0usize)] && renumber(rl, 1).1.len() == 1) by {
        reveal_with_fuel(renumber, 2);
        assert(renumber(rl, 0).0 =~= Seq::<Option<usize>>::empty());
        assert(renumber(rl, 0).1 =~= Seq::<usize>::empty());
        assert(find_in_prefix(Seq::<usize>::empty(), 0usize, 0) is None);
    }
}

/// The points among the first `k` that carry label `c`, in scan order.
pub open spec fn members_upto(ps: Seq<Point>, labels: Seq<Option<usize>>, c: usize, k: int) -> Seq<
    Point,
>
    decreases k,
{
    if k <= 0 {
        Seq::empty()
    } else {
        let r = members_upto(ps, labels, c, k - 1);
        if labels[k - 1] == Some(c) {
            r.push(ps[k - 1])
        } else {
            r
        }
    }
}

/// The points of cluster `c`, in scan order.
pub open spec fn cluster_members(ps: Seq<Point>, labels: Seq<Option<usize>>, c: usize) -> Seq<
    Point,
> {
    members_upto(ps, labels, c, ps.len() as int)
}

/// The noise points among the first `k`, in scan order.
pub open spec fn noise_upto(ps: Seq<Point>, labels: Seq<Option<usize>>, k: int) -> Seq<Point>
    decreases k,
{
    if k <= 0 {
        Seq::empty()
    } else {
        let r = noise_upto(ps, labels, k - 1);
        if labels[k - 1] is None {
            r.push(ps[k - 1])
        } else {
            r
        }
    }
}

/// The noise points of the scan, in scan order.
pub open spec fn noise_members(ps: Seq<Point>, labels: Seq<Option<usize>>) -> Seq<Point> {
    noise_upto(ps, labels, ps.len() as int)
}

/// Splits a labelled scan into its per-cluster point groups and its noise
/// points, each group in scan order.
pub fn group_by_label(
    points: &Vec<Point>,
    labels: &Vec<Option<usize>>,
    num_clusters: usize,
) -> (r: (Vec<Vec<Point>>, Vec<Point>))
    requires
        labels@.len() == points@.len(),
    ensures
        r.0@.len() == num_clusters,
        forall|c: int|
            0 <= c < num_clusters ==> #[trigger] r.0@[c]@ == cluster_members(
                points@,
                labels@,
                c as usize,
            ),
        r.1@ == noise_members(points@, labels@),
{
    let n = points.len();
    let mut groups: Vec<Vec<Point>> = Vec::new();
    let mut c: usize = 0;
    while c < num_clusters
        invariant
            n == points@.len(),
            labels@.len() == n as int,
            c <= num_clusters,
            groups@.len() == c as int,
            forall|t: int|
                0 <= t < c ==> #[trigger] groups@[t]@ == cluster_members(
                    points@,
                    labels@,
                    t as usize,
                ),
        decreases num_clusters - c,
    {
        let mut group: Vec<Point> = Vec::new();
        let mut i: usize = 0;
        while i < n
            invariant
                n == points@.len(),
                labels@.len() == n as int,
                c < num_clusters,
                i <= n,
                group@ == members_upto(points@, labels@, c, i as int),
            decreases n - i,
        {
            let keep = match labels[i] {
                Some(x) => x == c,
                None => false,
            };
            if keep {
                group.push(points[i]);
            }
            i = i + 1;
        }
        groups.push(group);
        c = c + 1;
    }
    let mut noise: Vec<Point> = Vec::new();
    let mut i: usize = 0;
    while i < n
        invariant
            n == points@.len(),
            labels@.len() == n as int,
            i <= n,
            noise@ == noise_upto(points@, labels@, i as int),
        decreases n - i,
    {
        let drop = match labels[i] {
            Some(_) => true,
            None => false,
        };
        if !drop {
            noise.push(points[i]);
        }
        i = i + 1;
    }
    (groups, noise)
}

/// Cluster members are drawn from the scan, so they stay well formed.
pub proof fn lemma_members_wf(ps: Seq<Point>, labels: Seq<Option<usize>>, c: usize, k: int)
    requires
        wf_points(ps),
        k <= ps.len(),
    ensures
        wf_points(members_upto(ps, labels, c, k)),
    decreases k,
{
    if k > 0 {
        lemma_members_wf(ps, labels, c, k - 1);
        let r = members_upto(ps, labels, c, k - 1);
        if labels[k - 1] == Some(c) {
            assert(ps[k - 1].wf());
            assert(forall|i: int|
                0 <= i < r.push(ps[k - 1]).len() ==> #[trigger] r.push(ps[k - 1])[i].wf());
        }
    }
}

/// A label that occurs in the prefix puts at least one point in its cluster.
pub proof fn lemma_members_nonempty(
    ps: Seq<Point>,
    labels: Seq<Option<usize>>,
    c: usize,
    k: int,
    i: int,
)
    requires
        0 <= i < k <= ps.len(),
        labels[i] == Some(c),
    ensures
        members_upto(ps, labels, c, k).len() >= 1,
    decreases k,
{
    if i < k - 1 {
        lemma_members_nonempty(ps, labels, c, k - 1, i);
    }
}

/// How many of the first `k` labels equal `lab`.
pub open spec fn count_label_upto(labels: Seq<Option<usize>>, lab: Option<usize>, k: int) -> int
    decreases k,
{
    if k <= 0 {
        0
    } else {
        count_label_upto(labels, lab, k - 1) + if labels[k - 1] == lab {
            1int
        } else {
            0int
        }
    }
}

/// How many points carry label `lab` (`None` counts the noise points).
pub open spec fn count_label(labels: Seq<Option<usize>>, lab: Option<usize>) -> int {
    count_label_upto(labels, lab, labels.len() as int)
}

/// A label count never exceeds the prefix it was taken over.
proof fn lemma_count_label_bounds(labels: Seq<Option<usize>>, lab: Option<usize>, k: int)
    requires
        k >= 0,
    ensures
        0 <= count_label_upto(labels, lab, k) <= k,
    decreases k,
{
    if k > 0 {
        lemma_count_label_bounds(labels, lab, k - 1);
    }
}

/// Counts the points of each cluster and the noise points, for the per-scan
/// summary report.
pub fn label_counts(labels: &Vec<Option<usize>>, num_clusters: usize) -> (r: (Vec<usize>, usize))
    ensures
        r.0@.len() == num_clusters,
        forall|c: int|
            0 <= c < num_clusters ==> #[trigger] r.0@[c] as int == count_label(
                labels@,
                Some(c as usize),
            ),
        r.1 as int == count_label(labels@, None::<usize>),
{
    let n = labels.len();
    let mut counts: Vec<usize> = Vec::new();
    let mut c: usize = 0;
    while c < num_clusters
        invariant
            n == labels@.len(),
            c <= num_clusters,
            counts@.len() == c as int,
            forall|t: int|
                0 <= t < c ==> #[trigger] counts@[t] as int == count_label(
                    labels@,
                    Some(t as usize),
                ),
        decreases num_clusters - c,
    {
        let mut count: usize = 0;
        let mut i: usize = 0;
        while i < n
            invariant
                n == labels@.len(),
                i <= n,
                count as int == count_label_upto(labels@, Some(c), i as int),
            decreases n - i,
        {
            proof {
                lemma_count_label_bounds(labels@, Some(c), i as int);
            }
            let hit = match labels[i] {
                Some(x) => x == c,
                None => false,
            };
            if hit {
                count = count + 1;
            }
            i = i + 1;
        }
        counts.push(count);
        c = c + 1;
    }
    let mut noise_count: usize = 0;
    let mut i: usize = 0;
    while i < n
        invariant
            n == labels@.len(),
            i <= n,
            noise_count as int == count_label_upto(labels@, None::<usize>, i as int),
        decreases n - i,
    {
        proof {
            lemma_count_label_bounds(labels@, None::<usize>, i as int);
        }
        let hit = match labels[i] {
            Some(_) => false,
            None => true,
        };
        if hit {
            noise_count = noise_count + 1;
        }
        i = i + 1;
    }
    (counts, noise_count)
}

/// The multiset of points of the first `nc` clusters, over the first `k`
/// points of the scan.
pub open spec fn clusters_multiset(
    ps: Seq<Point>,
    labels: Seq<Option<usize>>,
    nc: int,
    k: int,
) -> Multiset<Point>
    decreases nc,
{
    if nc <= 0 {
        Multiset::empty()
    } else {
        clusters_multiset(ps, labels, nc - 1, k).add(
            members_upto(ps, labels, (nc - 1) as usize, k).to_multiset(),
        )
    }
}

/// Extending the prefix by one point changes the union of the cluster
/// multisets by exactly that point when its label is a cluster below `nc`,
/// and not at all otherwise.
proof fn lemma_clusters_multiset_step(ps: Seq<Point>, labels: Seq<Option<usize>>, nc: int, k: int)
    requires
        1 <= k <= labels.len(),
        labels.len() == ps.len(),
        0 <= nc <= usize::MAX,
    ensures
        clusters_multiset(ps, labels, nc, k) == (match labels[k - 1] {
            Some(x) => if (x as int) < nc {
                clusters_multiset(ps, labels, nc, k - 1).insert(ps[k - 1])
            } else {
                clusters_multiset(ps, labels, nc, k - 1)
            },
            None => clusters_multiset(ps, labels, nc, k - 1),
        }),
    decreases nc,
{
    broadcast use vstd::seq_lib::group_to_multiset_ensures;

    if nc > 0 {
        lemma_clusters_multiset_step(ps, labels, nc - 1, k);
        let c = (nc - 1) as usize;
        let prev_rest = clusters_multiset(ps, labels, nc - 1, k - 1);
        let prev_mem = members_upto(ps, labels, c, k - 1);
        if labels[k - 1] == Some(c) {
            assert(members_upto(ps, labels, c, k) == prev_mem.push(ps[k - 1]));
            assert(prev_mem.push(ps[k - 1]).to_multiset() =~= prev_mem.to_multiset().insert(
                ps[k - 1],
            ));
            assert(clusters_multiset(ps, labels, nc, k) =~= prev_rest.add(
                prev_mem.to_multiset(),
            ).insert(ps[k - 1]));
        } else {
            assert(members_upto(ps, labels, c, k) == prev_mem);
            if labels[k - 1] matches Some(x) && (x as int) < nc - 1 {
                assert(clusters_multiset(ps, labels, nc, k) =~= prev_rest.add(
                    prev_mem.to_multiset(),
                ).insert(ps[k - 1]));
            }
        }
    }
}

/// Over an empty prefix every cluster is empty, so their union is too.
proof fn lemma_clusters_multiset_empty(ps: Seq<Point>, labels: Seq<Option<usize>>, nc: int)
    requires
        nc >= 0,
    ensures
        clusters_multiset(ps, labels, nc, 0) =~= Multiset::<Point>::empty(),
    decreases nc,
{
    broadcast use vstd::seq_lib::group_to_multiset_ensures;

    if nc > 0 {
        lemma_clusters_multiset_empty(ps, labels, nc - 1);
        assert(members_upto(ps, labels, (nc - 1) as usize, 0) == Seq::<Point>::empty());
        assert(Seq::<Point>::empty().to_multiset().len() == 0);
    }
}

/// Partition property: the clusters and the noise together hold every point
/// of the scan exactly once — as multisets, their union is the scan.
pub proof fn lemma_partition(ps: Seq<Point>, labels: Seq<Option<usize>>, nc: int, k: int)
    requires
        labels.len() == ps.len(),
        0 <= k <= ps.len(),
        0 <= nc <= usize::MAX,
        forall|i: int|
            0 <= i < ps.len() ==> (#[trigger] labels[i] matches Some(c) ==> (c as int) < nc),
    ensures
        clusters_multiset(ps, labels, nc, k).add(noise_upto(ps, labels, k).to_multiset())
            =~= ps.take(k).to_multiset(),
    decreases k,
{
    broadcast use vstd::seq_lib::group_to_multiset_ensures;

    if k <= 0 {
        lemma_clusters_multiset_empty(ps, labels, nc);
        assert(noise_upto(ps, labels, 0) == Seq::<Point>::empty());
        assert(ps.take(0) == Seq::<Point>::empty());
        assert(Seq::<Point>::empty().to_multiset().len() == 0);
    }
    if k > 0 {
        lemma_partition(ps, labels, nc, k - 1);
        lemma_clusters_multiset_step(ps, labels, nc, k);
        assert(ps.take(k) == ps.take(k - 1).push(ps[k - 1]));
        assert(labels[k - 1] matches Some(c) ==> (c as int) < nc);
        let p = ps[k - 1];
        let cm1 = clusters_multiset(ps, labels, nc, k - 1);
        let nm1 = noise_upto(ps, labels, k - 1);
        assert(ps.take(k).to_multiset() =~= ps.take(k - 1).to_multiset().insert(p));
        match labels[k - 1] {
            Some(x) => {
                assert(noise_upto(ps, labels, k) == nm1);
                assert(clusters_multiset(ps, labels, nc, k) == cm1.insert(p));
                assert(cm1.insert(p).add(nm1.to_multiset()) =~= cm1.add(nm1.to_multiset()).insert(
                    p,
                ));
            },
            None => {
                assert(noise_upto(ps, labels, k) == nm1.push(p));
                assert(nm1.push(p).to_multiset() =~= nm1.to_multiset().insert(p));
                assert(clusters_multiset(ps, labels, nc, k) == cm1);
                assert(cm1.add(nm1.to_multiset().insert(p)) =~= cm1.add(nm1.to_multiset()).insert(
                    p,
                ));
            },
        }
    }
}

} // verus!
