//! Artifacts and run outcomes: naming a test after its path, dropping companion files,
//! turning what a finished process handed back into an outcome, and putting outcomes
//! that arrive in any order back into discovery order.
use vstd::prelude::*;
use vstd::utf8::valid_utf8;
use crate::metrics::{MetricSet, parse_metrics, parse_report, zero_metrics};
use crate::text::{ParseError, copy_range};

verus! {

pub const SLASH: u8 = 47;

/// Position where the last segment of a path starts: just after its last `/`,
/// or at the start when it holds none.
pub open spec fn segment_start(p: Seq<u8>) -> int
    decreases p.len(),
{
    if p.len() == 0 {
        0
    } else if p.last() == SLASH {
        p.len() as int
    } else {
        segment_start(p.drop_last())
    }
}

/// The last `/`-separated segment of a path: the name a test is reported under.
pub open spec fn last_segment(p: Seq<u8>) -> Seq<u8> {
    p.subrange(segment_start(p), p.len() as int)
}

proof fn lemma_segment_start(p: Seq<u8>)
    ensures
        0 <= segment_start(p) <= p.len(),
    decreases p.len(),
{
    if p.len() > 0 {
        lemma_segment_start(p.drop_last());
    }
}

/// The name of the test that the artifact at `path` holds: the last segment of the path.
pub fn test_name(path: &[u8]) -> (r: Vec<u8>)
    ensures
        r@ == last_segment(path@),
{
    let mut j: usize = path.len();
    assert(path@.subrange(0, j as int) =~= path@);
    while j > 0 && path[j - 1] != SLASH
        invariant
            j <= path@.len(),
            segment_start(path@) == segment_start(path@.subrange(0, j as int)),
        decreases j,
    {
        proof {
            assert(path@.subrange(0, j as int).drop_last() =~= path@.subrange(0, j - 1));
        }
        j = j - 1;
    }
    proof {
        if j == 0 {
            assert(path@.subrange(0, 0).len() == 0);
        } else {
            assert(path@.subrange(0, j as int).last() == SLASH);
        }
    }
    copy_range(path, j, path.len())
}

/// `p` ends with `suffix`.
pub open spec fn ends_with(p: Seq<u8>, suffix: Seq<u8>) -> bool {
    suffix.len() <= p.len() && p.subrange(p.len() - suffix.len(), p.len() as int) == suffix
}

/// The candidates that do not end with `suffix`, in their order.
pub open spec fn selected(candidates: Seq<Seq<u8>>, suffix: Seq<u8>) -> Seq<Seq<u8>> {
    candidates.filter(|p: Seq<u8>| !ends_with(p, suffix))
}

pub open spec fn views(s: Seq<Vec<u8>>) -> Seq<Seq<u8>> {
    s.map_values(|p: Vec<u8>| p@)
}

fn ends_with_exec(p: &[u8], suffix: &[u8]) -> (r: bool)
    ensures
        r == ends_with(p@, suffix@),
{
    if suffix.len() > p.len() {
        return false;
    }
    let p_len: usize = p.len();
    let start: usize = p_len - suffix.len();
    let mut j: usize = 0;
    while j < suffix.len()
        invariant
            p_len == p@.len(),
            start + suffix@.len() == p@.len(),
            j <= suffix@.len(),
            forall|m: int| 0 <= m < j ==> p@[start + m] == suffix@[m],
        decreases suffix@.len() - j,
    {
        if p[start + j] != suffix[j] {
            proof {
                assert(p@.subrange(start as int, p@.len() as int)[j as int] != suffix@[j as int]);
            }
            return false;
        }
        j = j + 1;
    }
    proof {
        assert(p@.subrange(start as int, p@.len() as int) =~= suffix@);
    }
    true
}

/// The candidate artifacts that do not end with `suffix`, in the order they were found.
pub fn filter_artifacts(candidates: &Vec<Vec<u8>>, suffix: &[u8]) -> (r: Vec<Vec<u8>>)
    ensures
        views(r@) == selected(views(candidates@), suffix@),
{
    let ghost keep = |p: Seq<u8>| !ends_with(p, suffix@);
    let mut r: Vec<Vec<u8>> = Vec::new();
    let mut i: usize = 0;
    while i < candidates.len()
        invariant
            i <= candidates@.len(),
            keep == (|p: Seq<u8>| !ends_with(p, suffix@)),
            views(r@) == views(candidates@.subrange(0, i as int)).filter(keep),
        decreases candidates@.len() - i,
    {
        let p = &candidates[i];
        let ghost before = views(candidates@.subrange(0, i as int));
        proof {
            assert(views(candidates@.subrange(0, i + 1)) =~= before.push(p@));
            assert(before.push(p@).drop_last() =~= before);
            reveal(Seq::filter);
            assert(before.push(p@).filter(keep) == if keep(p@) {
                before.filter(keep).push(p@)
            } else {
                before.filter(keep)
            });
        }
        if !ends_with_exec(p.as_slice(), suffix) {
            let c = copy_range(p.as_slice(), 0, p.len());
            proof {
                assert(p@.subrange(0, p@.len() as int) =~= p@);
            }
            let ghost r_old = r@;
            r.push(c);
            proof {
                assert(views(r@) =~= views(r_old).push(c@));
            }
        }
        i = i + 1;
    }
    proof {
        assert(candidates@.subrange(0, i as int) =~= candidates@);
    }
    r
}

/// What a finished process handed back: whether it exited with status zero, and what it
/// printed, or `None` for stdout where it could not be started at all.
pub struct RawRun {
    pub exit_ok: bool,
    pub stdout: Option<Vec<u8>>,
}

/// Why a run counts as failed or carries no counters.
#[derive(Debug, Clone, Copy, PartialEq, Eq, Structural)]
pub enum RunError {
    /// The executable could not be started.
    SpawnFailed,
    /// What the run printed is not UTF-8 text.
    UndecodableOutput,
    /// The run passed but its counters could not be read; they are reported as zero.
    Metrics(ParseError),
}

/// The result of one artifact's run.
#[derive(Debug)]
pub struct RunOutcome {
    pub name: Vec<u8>,
    pub passed: bool,
    pub stdout: Option<Vec<u8>>,
    pub metrics: MetricSet,
    pub error: Option<RunError>,
}

pub open spec fn output_view(o: Option<Vec<u8>>) -> Option<Seq<u8>> {
    match o {
        Some(v) => Some(v@),
        None => None,
    }
}

/// Pass or fail, counters and error of a run. Only a run that exited with status zero
/// passes; its counters are read only when `measure` asks for them.
pub open spec fn run_verdict(exit_ok: bool, stdout: Option<Seq<u8>>, measure: bool) -> (
    bool,
    MetricSet,
    Option<RunError>,
) {
    match stdout {
        None => (false, zero_metrics(), Some(RunError::SpawnFailed)),
        Some(out) => if !valid_utf8(out) {
            (false, zero_metrics(), Some(RunError::UndecodableOutput))
        } else if !exit_ok {
            (false, zero_metrics(), None)
        } else if !measure {
            (true, zero_metrics(), None)
        } else {
            match parse_report(out) {
                Ok(m) => (true, m, None),
                Err(e) => (true, zero_metrics(), Some(RunError::Metrics(e))),
            }
        },
    }
}

/// `o` is the outcome of running the artifact at `path` with result `run`.
pub open spec fn outcome_of(o: RunOutcome, path: Seq<u8>, run: RawRun, measure: bool) -> bool {
    &&& o.name@ == last_segment(path)
    &&& (o.passed, o.metrics, o.error) == run_verdict(run.exit_ok, output_view(run.stdout), measure)
    &&& output_view(o.stdout) == output_view(run.stdout)
}

/// Relies on `std::str::from_utf8`: it succeeds exactly on valid UTF-8.
#[verifier::external_body]
fn is_utf8(b: &[u8]) -> (r: bool)
    ensures
        r == valid_utf8(b@),
{
    std::str::from_utf8(b).is_ok()
}

/// Turns what the run of the artifact at `path` handed back into its outcome.
pub fn make_outcome(path: &[u8], run: RawRun, measure: bool) -> (r: RunOutcome)
    ensures
        outcome_of(r, path@, run, measure),
{
    let name = test_name(path);
    let RawRun { exit_ok, stdout } = run;
    let (passed, metrics, error) = match &stdout {
        None => (false, MetricSet::zero(), Some(RunError::SpawnFailed)),
        Some(out) => if !is_utf8(out.as_slice()) {
            (false, MetricSet::zero(), Some(RunError::UndecodableOutput))
        } else if !exit_ok {
            (false, MetricSet::zero(), None)
        } else if !measure {
            (true, MetricSet::zero(), None)
        } else {
            match parse_metrics(out.as_slice()) {
                Ok(m) => (true, m, None),
                Err(e) => (true, MetricSet::zero(), Some(RunError::Metrics(e))),
            }
        },
    };
    RunOutcome { name, passed, stdout, metrics, error }
}

/// The artifact indices that a list of finished runs carries, in the order they finished.
pub open spec fn indices(done: Seq<(usize, RawRun)>) -> Seq<usize> {
    done.map_values(|d: (usize, RawRun)| d.0)
}

/// Index `i` occurs in `idx`.
pub open spec fn carries(idx: Seq<usize>, i: int) -> bool {
    exists|k: int| 0 <= k < idx.len() && idx[k] == i
}

/// Every index in `idx` is below `n`, none repeats, and each of `0..n` occurs: `idx` is an
/// order of `0..n`.
pub open spec fn is_arrangement(idx: Seq<usize>, n: nat) -> bool {
    &&& forall|k: int| 0 <= k < idx.len() ==> idx[k] < n
    &&& forall|k1: int, k2: int| 0 <= k1 < k2 < idx.len() ==> idx[k1] != idx[k2]
    &&& forall|i: int| 0 <= i < n ==> #[trigger] carries(idx, i)
}

/// `o` is the outcome of artifact `i` of `paths`, made from a run in `done` that carries
/// index `i`.
pub open spec fn outcome_at(
    o: RunOutcome,
    paths: Seq<Vec<u8>>,
    done: Seq<(usize, RawRun)>,
    measure: bool,
    i: int,
) -> bool {
    exists|k: int| 0 <= k < done.len() && done[k].0 == i && outcome_of(o, paths[i]@, done[k].1, measure)
}

/// Outcome `i` of `outs` belongs to artifact `i` of `paths`, for each artifact.
pub open spec fn in_discovery_order(
    outs: Seq<RunOutcome>,
    paths: Seq<Vec<u8>>,
    done: Seq<(usize, RawRun)>,
    measure: bool,
) -> bool {
    &&& outs.len() == paths.len()
    &&& forall|i: int| 0 <= i < paths.len() ==> #[trigger] outcome_at(outs[i], paths, done, measure, i)
}

/// Collects the runs of all artifacts, which arrive in the order they finished, each with
/// the index of its artifact in `paths`, into outcomes in the order of `paths`. Returns
/// `None` when the indices are not an order of the artifacts (one is out of range,
/// repeats, or is missing).
pub fn collect_outcomes(paths: &Vec<Vec<u8>>, finished: Vec<(usize, RawRun)>, measure: bool) -> (r:
    Option<Vec<RunOutcome>>)
    ensures
        r is Some <==> is_arrangement(indices(finished@), paths@.len()),
        r matches Some(outs) ==> in_discovery_order(outs@, paths@, finished@, measure),
{
    let ghost all = finished@;
    let ghost idx = indices(finished@);
    let n = paths.len();
    let mut done = finished;
    let mut slots: Vec<Option<RunOutcome>> = Vec::new();
    while slots.len() < n
        invariant
            slots@.len() <= n,
            n == paths@.len(),
            forall|i: int| 0 <= i < slots@.len() ==> slots@[i] is None,
        decreases n - slots@.len(),
    {
        slots.push(None);
    }
    while done.len() > 0
        invariant
            n == paths@.len(),
            slots@.len() == n,
            idx == indices(all),
            all == finished@,
            done@.len() <= all.len(),
            done@ == all.subrange(0, done@.len() as int),
            forall|k: int|
                done@.len() <= k < all.len() ==> {
                    &&& idx[k] < n
                    &&& slots@[idx[k] as int] matches Some(o)
                    &&& outcome_of(o, paths@[idx[k] as int]@, all[k].1, measure)
                },
            forall|k1: int, k2: int|
                done@.len() <= k1 < k2 < all.len() ==> idx[k1] != idx[k2],
            forall|i: int|
                0 <= i < n && (#[trigger] slots@[i]) is Some ==> exists|k: int|
                    done@.len() <= k < all.len() && idx[k] == i,
        decreases done@.len(),
    {
        let ghost k = done@.len() - 1;
        let (i, run) = done.pop().unwrap();
        proof {
            assert(all[k] == (i, run));
            assert(idx[k] == i);
        }
        if i >= n {
            proof {
                assert(!is_arrangement(idx, n as nat));
            }
            return None;
        }
        if slots[i].is_some() {
            proof {
                let k2 = choose|k2: int| done@.len() + 1 <= k2 < all.len() && idx[k2] == i;
                assert(idx[k] == idx[k2]);
                assert(!is_arrangement(idx, n as nat));
            }
            return None;
        }
        let o = make_outcome(paths[i].as_slice(), run, measure);
        slots.set(i, Some(o));
        proof {
            assert forall|j: int|
                0 <= j < n && (#[trigger] slots@[j]) is Some implies exists|k3: int|
                    done@.len() <= k3 < all.len() && idx[k3] == j by {
                if j != i {
                    let k3 = choose|k3: int| done@.len() + 1 <= k3 < all.len() && idx[k3] == j;
                    assert(done@.len() <= k3 < all.len() && idx[k3] == j);
                } else {
                    assert(idx[k] == j);
                }
            }
        }
    }
    let ghost placed = slots@;
    let mut outs: Vec<RunOutcome> = Vec::new();
    let mut j: usize = 0;
    while j < n
        invariant
            n == paths@.len(),
            slots@.len() == n,
            placed.len() == n,
            idx == indices(all),
            all == finished@,
            j <= n,
            outs@.len() == j,
            forall|m: int| j <= m < n ==> slots@[m] == placed[m],
            forall|m: int| 0 <= m < j ==> placed[m] == Some(#[trigger] outs@[m]),
            forall|k: int|
                0 <= k < all.len() ==> {
                    &&& idx[k] < n
                    &&& placed[idx[k] as int] matches Some(o)
                    &&& outcome_of(o, paths@[idx[k] as int]@, all[k].1, measure)
                },
            forall|k1: int, k2: int| 0 <= k1 < k2 < all.len() ==> idx[k1] != idx[k2],
            forall|i: int|
                0 <= i < n && (#[trigger] placed[i]) is Some ==> exists|k: int|
                    0 <= k < all.len() && idx[k] == i,
            forall|i: int| 0 <= i < j ==> (#[trigger] placed[i]) is Some,
        decreases n - j,
    {
        let mut taken: Option<RunOutcome> = None;
        std::mem::swap(&mut taken, &mut slots[j]);
        match taken {
            Some(o) => outs.push(o),
            None => {
                proof {
                    assert(placed[j as int] is None);
                    assert(!carries(idx, j as int)) by {
                        if carries(idx, j as int) {
                            let k = choose|k: int| 0 <= k < idx.len() && idx[k] == j;
                            assert(placed[idx[k] as int] is Some);
                        }
                    }
                    assert(!is_arrangement(idx, n as nat));
                }
                return None;
            },
        }
        j = j + 1;
    }
    proof {
        assert forall|i: int| 0 <= i < n implies #[trigger] carries(idx, i) by {
            assert(placed[i] is Some);
        }
        assert forall|i: int| 0 <= i < n implies #[trigger] outcome_at(
            outs@[i],
            paths@,
            all,
            measure,
            i,
        ) by {
            assert(placed[i] is Some);
            let k = choose|k: int| 0 <= k < all.len() && idx[k] == i;
            assert(placed[i] == Some(outs@[i]));
            assert(all[k].0 == idx[k]);
        }
    }
    Some(outs)
}

/// Selection by suffix keeps nothing that ends with the suffix, and drops nothing else:
/// every selected path is a candidate that does not end with `suffix`, and every candidate
/// that does not end with it is selected.
pub proof fn excluded_never_selected(candidates: Seq<Seq<u8>>, suffix: Seq<u8>)
    ensures
        forall|i: int|
            0 <= i < selected(candidates, suffix).len() ==> !ends_with(
                #[trigger] selected(candidates, suffix)[i],
                suffix,
            ),
        forall|i: int|
            0 <= i < candidates.len() && !ends_with(#[trigger] candidates[i], suffix)
                ==> selected(candidates, suffix).contains(candidates[i]),
{
    broadcast use vstd::seq_lib::group_filter_ensures;

    let keep = |p: Seq<u8>| !ends_with(p, suffix);
    assert forall|i: int| 0 <= i < selected(candidates, suffix).len() implies !ends_with(
        #[trigger] selected(candidates, suffix)[i],
        suffix,
    ) by {
        assert(keep(candidates.filter(keep)[i]));
    }
    assert forall|i: int|
        0 <= i < candidates.len() && !ends_with(#[trigger] candidates[i], suffix) implies selected(
        candidates,
        suffix,
    ).contains(candidates[i]) by {
        assert(keep(candidates[i]));
    }
}

/// Two outcomes agree in every field that a report or a caller reads.
pub open spec fn same_outcome(a: RunOutcome, b: RunOutcome) -> bool {
    &&& a.name@ == b.name@
    &&& a.passed == b.passed
    &&& a.metrics == b.metrics
    &&& a.error == b.error
    &&& output_view(a.stdout) == output_view(b.stdout)
}

/// The order in which runs finish does not change the collected outcomes: when `first` is
/// an order of the artifacts and `second` holds the same runs in any order, outcomes
/// collected in discovery order from either agree artifact by artifact.
pub proof fn completion_order_irrelevant(
    paths: Seq<Vec<u8>>,
    first: Seq<(usize, RawRun)>,
    second: Seq<(usize, RawRun)>,
    measure: bool,
    outs1: Seq<RunOutcome>,
    outs2: Seq<RunOutcome>,
)
    requires
        is_arrangement(indices(first), paths.len()),
        forall|k2: int|
            0 <= k2 < second.len() ==> exists|k1: int|
                0 <= k1 < first.len() && first[k1] == #[trigger] second[k2],
        in_discovery_order(outs1, paths, first, measure),
        in_discovery_order(outs2, paths, second, measure),
    ensures
        outs1.len() == outs2.len() == paths.len(),
        forall|i: int| 0 <= i < paths.len() ==> same_outcome(#[trigger] outs1[i], outs2[i]),
{
    assert forall|i: int| 0 <= i < paths.len() implies same_outcome(#[trigger] outs1[i], outs2[i]) by {
        assert(outcome_at(outs1[i], paths, first, measure, i));
        assert(outcome_at(outs2[i], paths, second, measure, i));
        let k1 = choose|k1: int|
            0 <= k1 < first.len() && first[k1].0 == i && outcome_of(
                outs1[i],
                paths[i]@,
                first[k1].1,
                measure,
            );
        let k2 = choose|k2: int|
            0 <= k2 < second.len() && second[k2].0 == i && outcome_of(
                outs2[i],
                paths[i]@,
                second[k2].1,
                measure,
            );
        let k3 = choose|k3: int| 0 <= k3 < first.len() && first[k3] == second[k2];
        assert(indices(first)[k1] == i);
        assert(indices(first)[k3] == i);
        if k1 != k3 {
            if k1 < k3 {
                assert(indices(first)[k1] != indices(first)[k3]);
            } else {
                assert(indices(first)[k3] != indices(first)[k1]);
            }
        }
    }
}

} // verus!
