//! What holds of the loads in flight over many rounds of reports.

use crate::loading::{
    after_reports, fan_out, fresh, lemma_contains_concat, state_at, still_pending,
    LoadReportView, LoadState, LoadedObjectsView,
};
use vstd::prelude::*;

verus! {

/// The fresh paths are candidates that were not asked for before, each once.
pub proof fn lemma_fresh(requested: Seq<Seq<char>>, candidates: Seq<Seq<char>>)
    ensures
        fresh(requested, candidates).no_duplicates(),
        forall|i: int|
            0 <= i < fresh(requested, candidates).len() ==> candidates.contains(
                #[trigger] fresh(requested, candidates)[i],
            ) && !requested.contains(fresh(requested, candidates)[i]),
        forall|j: int|
            0 <= j < candidates.len() ==> requested.contains(#[trigger] candidates[j]) || fresh(
                requested,
                candidates,
            ).contains(candidates[j]),
    decreases candidates.len(),
{
    if candidates.len() > 0 {
        let shorter = candidates.drop_last();
        let front = fresh(requested, shorter);
        let whole = fresh(requested, candidates);
        let path = candidates.last();
        lemma_fresh(requested, shorter);
        assert(candidates[candidates.len() - 1] == path);
        assert forall|i: int| 0 <= i < front.len() implies candidates.contains(front[i]) by {
            let j = choose|j: int| 0 <= j < shorter.len() && shorter[j] == front[i];
            assert(candidates[j] == front[i]);
        }
        if !(requested.contains(path) || front.contains(path)) {
            assert(whole == front.push(path));
            assert(whole[front.len() as int] == path);
            assert forall|i: int| 0 <= i < whole.len() implies candidates.contains(
                #[trigger] whole[i],
            ) && !requested.contains(whole[i]) by {
                if i < front.len() {
                    assert(whole[i] == front[i]);
                }
            }
        }
        assert forall|j: int| 0 <= j < candidates.len() implies requested.contains(
            #[trigger] candidates[j],
        ) || whole.contains(candidates[j]) by {
            if j < shorter.len() {
                assert(shorter[j] == candidates[j]);
                if front.contains(shorter[j]) {
                    let i = choose|i: int| 0 <= i < front.len() && front[i] == shorter[j];
                    assert(whole[i] == front[i]);
                }
            } else if front.contains(path) {
                let i = choose|i: int| 0 <= i < front.len() && front[i] == path;
                assert(whole[i] == front[i]);
            }
        }
    }
}

/// What stays in flight among the first loads depends on those loads and
/// their reports only.
pub proof fn lemma_pending_alike(
    handles: Seq<Seq<char>>,
    reports: Seq<LoadReportView>,
    others: Seq<Seq<char>>,
    other_reports: Seq<LoadReportView>,
    bound: nat,
)
    requires
        bound <= handles.len(),
        bound <= others.len(),
        forall|k: int|
            0 <= k < bound ==> handles[k] == others[k] && state_at(reports, k) == state_at(
                other_reports,
                k,
            ),
    ensures
        still_pending(handles, reports, bound) == still_pending(others, other_reports, bound),
    decreases bound,
{
    if bound > 0 {
        lemma_pending_alike(handles, reports, others, other_reports, (bound - 1) as nat);
    }
}

/// The report for the load at place `k`, if there is one.
pub open spec fn report_at(reports: Seq<LoadReportView>, k: int) -> Option<LoadReportView> {
    if 0 <= k < reports.len() {
        Some(reports[k])
    } else {
        None
    }
}

/// What the first loads bring in depends on their reports only.
pub proof fn lemma_fan_out_alike(
    reports: Seq<LoadReportView>,
    other_reports: Seq<LoadReportView>,
    bound: nat,
)
    requires
        forall|k: int|
            0 <= k < bound ==> #[trigger] report_at(reports, k) == report_at(other_reports, k),
    ensures
        fan_out(reports, bound) == fan_out(other_reports, bound),
    decreases bound,
{
    if bound > 0 {
        lemma_fan_out_alike(reports, other_reports, (bound - 1) as nat);
        assert(report_at(reports, bound - 1) == report_at(other_reports, bound - 1));
    }
}

/// Among the loads up to `bound`, leaving out a failed one changes neither
/// what stays in flight nor what is brought in.
pub proof fn lemma_without_failed(
    handles: Seq<Seq<char>>,
    reports: Seq<LoadReportView>,
    i: int,
    bound: nat,
)
    requires
        0 <= i < reports.len(),
        i < bound <= handles.len(),
        reports[i].state is Failed,
    ensures
        still_pending(handles, reports, bound) == still_pending(
            handles.remove(i),
            reports.remove(i),
            (bound - 1) as nat,
        ),
        fan_out(reports, bound) == fan_out(reports.remove(i), (bound - 1) as nat),
    decreases bound,
{
    let fewer = handles.remove(i);
    let fewer_reports = reports.remove(i);
    if bound == i + 1 {
        lemma_pending_alike(handles, reports, fewer, fewer_reports, i as nat);
        assert forall|k: int| 0 <= k < i implies #[trigger] report_at(reports, k) == report_at(
            fewer_reports,
            k,
        ) by {
            assert(fewer_reports[k] == reports[k]);
        }
        lemma_fan_out_alike(reports, fewer_reports, i as nat);
    } else {
        lemma_without_failed(handles, reports, i, (bound - 1) as nat);
        assert(fewer[bound - 2] == handles[bound - 1]);
        assert(state_at(fewer_reports, bound - 2) == state_at(reports, bound - 1));
        if bound - 1 < reports.len() {
            assert(fewer_reports[bound - 2] == reports[bound - 1]);
        }
    }
}

/// A load that fails leaves the others as they
/// would be had it never been asked for. What stays in flight and what is
/// started are the same with and without it.
pub proof fn law_failure_is_isolated(
    loads: LoadedObjectsView,
    reports: Seq<LoadReportView>,
    i: int,
)
    requires
        0 <= i < loads.handles.len(),
        i < reports.len(),
        reports[i].state is Failed,
    ensures
        after_reports(loads, reports) == after_reports(
            LoadedObjectsView { handles: loads.handles.remove(i), requested: loads.requested },
            reports.remove(i),
        ),
{
    lemma_without_failed(loads.handles, reports, i, loads.handles.len());
}

/// The reports of a round in which every load in flight arrives; `world`
/// tells for each path what the asset behind it brings in.
pub open spec fn all_arrive(
    handles: Seq<Seq<char>>,
    world: spec_fn(Seq<char>) -> Seq<Seq<char>>,
) -> Seq<LoadReportView> {
    Seq::new(
        handles.len(),
        |i: int| LoadReportView { state: LoadState::Loaded, nested: world(handles[i]) },
    )
}

/// The loads in flight after `ticks` rounds in each of which every load in
/// flight arrives.
pub open spec fn settle(
    loads: LoadedObjectsView,
    world: spec_fn(Seq<char>) -> Seq<Seq<char>>,
    ticks: nat,
) -> LoadedObjectsView
    decreases ticks,
{
    if ticks == 0 {
        loads
    } else {
        settle(
            after_reports(loads, all_arrive(loads.handles, world)),
            world,
            (ticks - 1) as nat,
        )
    }
}

/// Every path that an asset of the universe brings in lies in the universe.
pub open spec fn closed_world(
    universe: Set<Seq<char>>,
    world: spec_fn(Seq<char>) -> Seq<Seq<char>>,
) -> bool {
    forall|p: Seq<char>, j: int|
        universe.contains(p) && 0 <= j < world(p).len() ==> universe.contains(
            #[trigger] world(p)[j],
        )
}

/// The paths of the universe that were not asked for yet.
pub open spec fn unasked(universe: Set<Seq<char>>, requested: Seq<Seq<char>>) -> Set<Seq<char>> {
    universe.filter(|p: Seq<char>| !requested.contains(p))
}

/// When every load arrives, nothing stays in flight.
pub proof fn lemma_none_pending(
    handles: Seq<Seq<char>>,
    world: spec_fn(Seq<char>) -> Seq<Seq<char>>,
    bound: nat,
)
    requires
        bound <= handles.len(),
    ensures
        still_pending(handles, all_arrive(handles, world), bound).len() == 0,
    decreases bound,
{
    if bound > 0 {
        lemma_none_pending(handles, world, (bound - 1) as nat);
    }
}

/// What arriving assets of the universe bring in lies in the universe.
pub proof fn lemma_fan_out_inside(
    universe: Set<Seq<char>>,
    handles: Seq<Seq<char>>,
    world: spec_fn(Seq<char>) -> Seq<Seq<char>>,
    bound: nat,
)
    requires
        closed_world(universe, world),
        bound <= handles.len(),
        forall|i: int| 0 <= i < handles.len() ==> universe.contains(#[trigger] handles[i]),
    ensures
        forall|j: int|
            0 <= j < fan_out(all_arrive(handles, world), bound).len() ==> universe.contains(
                #[trigger] fan_out(all_arrive(handles, world), bound)[j],
            ),
    decreases bound,
{
    if bound > 0 {
        lemma_fan_out_inside(universe, handles, world, (bound - 1) as nat);
        let reports = all_arrive(handles, world);
        let front = fan_out(reports, (bound - 1) as nat);
        let nested = world(handles[bound - 1]);
        assert(reports[bound - 1].nested == nested);
        assert(fan_out(reports, bound) == front + nested);
        assert forall|j: int| 0 <= j < (front + nested).len() implies universe.contains(
            #[trigger] (front + nested)[j],
        ) by {
            if j >= front.len() {
                assert((front + nested)[j] == world(handles[bound - 1])[j - front.len()]);
            }
        }
    }
}

/// Where all paths lie in a finite universe, and every
/// load arrives in the round after it was started, the list of loads in
/// flight is empty after as many rounds as there are paths not asked for
/// yet, and one more; whether or not documents refer to each other in a
/// circle.
pub proof fn law_fan_out_settles(
    loads: LoadedObjectsView,
    world: spec_fn(Seq<char>) -> Seq<Seq<char>>,
    universe: Set<Seq<char>>,
) -> (ticks: nat)
    requires
        universe.finite(),
        closed_world(universe, world),
        forall|i: int| 0 <= i < loads.handles.len() ==> universe.contains(#[trigger] loads.handles[i]),
    ensures
        ticks <= unasked(universe, loads.requested).len() + 1,
        settle(loads, world, ticks).handles.len() == 0,
    decreases unasked(universe, loads.requested).len(),
{
    if loads.handles.len() == 0 {
        0
    } else {
        let reports = all_arrive(loads.handles, world);
        let arrived = fan_out(reports, loads.handles.len());
        let started = fresh(loads.requested, arrived);
        let next = after_reports(loads, reports);
        lemma_none_pending(loads.handles, world, loads.handles.len());
        lemma_fan_out_inside(universe, loads.handles, world, loads.handles.len());
        lemma_fresh(loads.requested, arrived);
        assert(next.handles =~= started);
        assert(settle(loads, world, 1) == settle(next, world, 0));
        if started.len() == 0 {
            1
        } else {
            let before = unasked(universe, loads.requested);
            let after = unasked(universe, next.requested);
            assert forall|i: int| 0 <= i < started.len() implies universe.contains(
                #[trigger] started[i],
            ) by {
                let j = choose|j: int| 0 <= j < arrived.len() && arrived[j] == started[i];
            }
            assert forall|p: Seq<char>| after.contains(p) implies before.contains(p) by {
                lemma_contains_concat(loads.requested, started, p);
            }
            let first = started[0];
            assert(before.contains(first));
            assert(!after.contains(first)) by {
                lemma_contains_concat(loads.requested, started, first);
            }
            vstd::set_lib::lemma_set_subset_finite(universe, before);
            after.lemma_subset_not_in_lt(before, first);
            let rest = law_fan_out_settles(next, world, universe);
            assert(settle(loads, world, rest + 1) == settle(next, world, rest));
            rest + 1
        }
    }
}

} // verus!
