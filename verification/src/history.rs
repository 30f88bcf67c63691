//! Whole runs: what holds of every sequence of starts and finishes.
use vstd::prelude::*;

use crate::graph::{NodeModel, When};
use crate::order::{cyclic, deps, lemma_resolved_range};
use crate::run::{
    count_running, deps_settled, final_state, finished, launched, law_finish_keeps_sound,
    law_launch_is_sound, law_run_completes, law_run_ends, law_start_keeps_sound,
    lemma_unsettled_zero, may_start, node_sound, occurrences, over, past_waiting, settled, sound,
    started, stateless, steps_ahead, unsettled, Run, StateModel,
};

verus! {

/// Something that happens in a run.
pub enum Event {
    /// The next ready node starts.
    Start,
    /// A node finishes, without or with a failure message, after so many
    /// nanoseconds.
    Finish(int, Option<Seq<char>>, u128),
}

/// The run after an event, if that can happen.
pub open spec fn after_event(run: Run, e: Event) -> Option<Run> {
    match e {
        Event::Start => if may_start(run) {
            Some(started(run))
        } else {
            None
        },
        Event::Finish(i, failure, nanos) => if 0 <= i < run.nodes.len() && run.running[i] {
            Some(finished(run, i, failure, nanos).0)
        } else {
            None
        },
    }
}

/// The run of a graph after the given events, if they can happen in that order.
pub open spec fn played(g: Seq<NodeModel>, jobs: nat, events: Seq<Event>) -> Option<Run>
    decreases events.len(),
{
    if events.len() == 0 {
        Some(launched(g, jobs).0)
    } else {
        match played(g, jobs, events.drop_last()) {
            Some(run) => after_event(run, events.last()),
            None => None,
        }
    }
}

/// The node that event `k` starts.
pub open spec fn starter(g: Seq<NodeModel>, jobs: nat, events: Seq<Event>, k: int) -> int {
    played(g, jobs, events.take(k))->0.ready.last()
}

/// Whether the events hold one by which node `d` finishes with this result.
pub open spec fn finishes(events: Seq<Event>, d: int, failure: Option<Seq<char>>) -> bool {
    exists|j: int| 0 <= j < events.len() && finishes_at(events, j, d, failure)
}

/// Whether event `j` is one by which node `d` finishes with this result.
pub open spec fn finishes_at(events: Seq<Event>, j: int, d: int, failure: Option<Seq<char>>) -> bool {
    events[j] matches Event::Finish(i, f, _) && i == d && f == failure
}

/// The events so far can happen wherever more of them can.
proof fn lemma_played_before(g: Seq<NodeModel>, jobs: nat, events: Seq<Event>, k: int)
    requires
        0 <= k <= events.len(),
        played(g, jobs, events) is Some,
    ensures
        played(g, jobs, events.take(k)) is Some,
    decreases events.len(),
{
    if k == events.len() {
        assert(events.take(k) =~= events);
    } else {
        lemma_played_before(g, jobs, events.drop_last(), k);
        assert(events.drop_last().take(k) =~= events.take(k));
    }
}

/// Every run is sound at every moment: no more nodes run than there are jobs, only
/// nodes whose dependencies are settled have got past waiting, and nodes that are
/// meant to be skipped never run.
pub proof fn law_history_is_sound(g: Seq<NodeModel>, jobs: nat, events: Seq<Event>)
    requires
        jobs >= 1,
        played(g, jobs, events) is Some,
    ensures
        sound(played(g, jobs, events)->0),
        played(g, jobs, events)->0.nodes == g,
        played(g, jobs, events)->0.jobs == jobs,
        count_running(played(g, jobs, events)->0.running) <= jobs,
    decreases events.len(),
{
    if events.len() == 0 {
        law_launch_is_sound(g, jobs);
    } else {
        law_history_is_sound(g, jobs, events.drop_last());
        let run = played(g, jobs, events.drop_last())->0;
        match events.last() {
            Event::Start => {
                law_start_keeps_sound(run);
            },
            Event::Finish(i, failure, nanos) => {
                law_finish_keeps_sound(run, i, failure, nanos);
            },
        }
    }
}

/// Every run ends: a graph of so many nodes has at most twice as many starts and
/// finishes.
pub proof fn law_history_is_bounded(g: Seq<NodeModel>, jobs: nat, events: Seq<Event>)
    requires
        jobs >= 1,
        played(g, jobs, events) is Some,
    ensures
        events.len() + steps_ahead(played(g, jobs, events)->0) <= 2 * g.len(),
        events.len() <= 2 * g.len(),
    decreases events.len(),
{
    law_history_is_sound(g, jobs, events);
    law_run_ends(played(g, jobs, events)->0);
    if events.len() == 0 {
        lemma_stateless_bound(launched(g, jobs).0.state);
    } else {
        let front = events.drop_last();
        law_history_is_bounded(g, jobs, front);
        law_history_is_sound(g, jobs, front);
        let run = played(g, jobs, front)->0;
        law_run_ends(run);
        match events.last() {
            Event::Start => {},
            Event::Finish(i, failure, nanos) => {
                assert(steps_ahead(finished(run, i, failure, nanos).0) < steps_ahead(run));
            },
        }
    }
}

proof fn lemma_stateless_bound(state: Seq<Option<StateModel>>)
    ensures
        stateless(state) <= state.len(),
    decreases state.len(),
{
    if state.len() > 0 {
        lemma_stateless_bound(state.drop_last());
    }
}

/// A state records a result: a node is done exactly when it has finished without a
/// failure, and failed with a message exactly when it has finished with that one.
pub proof fn law_states_record_results(g: Seq<NodeModel>, jobs: nat, events: Seq<Event>, d: int)
    requires
        jobs >= 1,
        played(g, jobs, events) is Some,
        0 <= d < g.len(),
    ensures
        played(g, jobs, events)->0.state[d] == Some(StateModel::Done) <==> finishes(events, d, None),
        forall|m: Seq<char>|
            played(g, jobs, events)->0.state[d] == Some(StateModel::Failed(m)) <==> #[trigger] finishes(
                events,
                d,
                Some(m),
            ),
    decreases events.len(),
{
    law_history_is_sound(g, jobs, events);
    let r = played(g, jobs, events)->0;
    if events.len() == 0 {
        law_launch_is_sound(g, jobs);
        assert(r.state[d] is None || r.state[d] == Some(StateModel::Skipped));
    } else {
        let front = events.drop_last();
        law_history_is_sound(g, jobs, front);
        law_states_record_results(g, jobs, front, d);
        let run = played(g, jobs, front)->0;
        assert forall|f: Option<Seq<char>>| #[trigger] finishes(events, d, f) <==> finishes(front, d, f) || (
        events.last() matches Event::Finish(i, e, _) && i == d && e == f) by {
            if finishes(front, d, f) {
                let j = choose|j: int| 0 <= j < front.len() && finishes_at(front, j, d, f);
                assert(finishes_at(events, j, d, f));
            }
            if finishes(events, d, f) {
                let j = choose|j: int| 0 <= j < events.len() && finishes_at(events, j, d, f);
                if j < front.len() {
                    assert(finishes_at(front, j, d, f));
                }
            }
            if events.last() matches Event::Finish(i, e, _) && i == d && e == f {
                assert(finishes_at(events, events.len() - 1, d, f));
            }
        }
        match events.last() {
            Event::Start => {
                assert(r.state == run.state);
            },
            Event::Finish(i, failure, nanos) => {
                law_finish_keeps_sound(run, i, failure, nanos);
                assert(node_sound(run, i));
                if d != i {
                    if run.state[d] is Some {
                        assert(r.state[d] == run.state[d]);
                    } else {
                        assert(r.state[d] is None || r.state[d] == Some(StateModel::Skipped));
                    }
                } else {
                    assert(run.state[d] is None);
                }
            },
        }
    }
}

/// Nodes run in the order of the edges: when a node starts, everything that it
/// waits for is skipped or has finished without a failure before.
pub proof fn law_dependency_order(g: Seq<NodeModel>, jobs: nat, events: Seq<Event>, k: int)
    requires
        jobs >= 1,
        played(g, jobs, events) is Some,
        0 <= k < events.len(),
        events[k] is Start,
    ensures
        0 <= starter(g, jobs, events, k) < g.len(),
        g[starter(g, jobs, events, k)].when != When::Never,
        forall|m: int|
            0 <= m < deps(g, starter(g, jobs, events, k)).len() ==> {
                let d = #[trigger] deps(g, starter(g, jobs, events, k))[m];
                g[d].when == When::Never || finishes(events.take(k), d, None)
            },
{
    lemma_played_before(g, jobs, events, k);
    lemma_played_before(g, jobs, events, k + 1);
    let before = events.take(k);
    law_history_is_sound(g, jobs, before);
    let run = played(g, jobs, before)->0;
    assert(events.take(k + 1).drop_last() =~= before);
    assert(events.take(k + 1).last() == events[k]);
    law_start_keeps_sound(run);
    let i = starter(g, jobs, events, k);
    lemma_resolved_range(g, g[i].after);
    assert forall|m: int| 0 <= m < deps(g, i).len() implies ({
        let d = #[trigger] deps(g, i)[m];
        g[d].when == When::Never || finishes(before, d, None)
    }) by {
        let d = deps(g, i)[m];
        assert(settled(run.state, d));
        assert(node_sound(run, d));
        law_states_record_results(g, jobs, before, d);
    }
}

/// From its start on, a node runs or has a state.
proof fn lemma_started_stays(g: Seq<NodeModel>, jobs: nat, events: Seq<Event>, k: int)
    requires
        jobs >= 1,
        played(g, jobs, events) is Some,
        0 <= k < events.len(),
        events[k] is Start,
    ensures
        ({
            let r = played(g, jobs, events)->0;
            let i = starter(g, jobs, events, k);
            0 <= i < g.len() && (r.running[i] || r.state[i] is Some)
        }),
    decreases events.len(),
{
    law_dependency_order(g, jobs, events, k);
    law_history_is_sound(g, jobs, events);
    let i = starter(g, jobs, events, k);
    let front = events.drop_last();
    law_history_is_sound(g, jobs, front);
    let run = played(g, jobs, front)->0;
    if k == events.len() - 1 {
        assert(events.take(k) =~= front);
    } else {
        assert(front.take(k) =~= events.take(k));
        assert(front[k] == events[k]);
        lemma_started_stays(g, jobs, front, k);
        match events.last() {
            Event::Start => {},
            Event::Finish(j, failure, nanos) => {
                law_finish_keeps_sound(run, j, failure, nanos);
                if run.state[i] is Some && j != i {
                    assert(finished(run, j, failure, nanos).0.state[i] == run.state[i]);
                }
            },
        }
    }
}

/// No node starts twice.
pub proof fn law_nodes_start_once(g: Seq<NodeModel>, jobs: nat, events: Seq<Event>, k: int, m: int)
    requires
        jobs >= 1,
        played(g, jobs, events) is Some,
        0 <= k < m < events.len(),
        events[k] is Start,
        events[m] is Start,
    ensures
        starter(g, jobs, events, k) != starter(g, jobs, events, m),
{
    lemma_played_before(g, jobs, events, m);
    lemma_played_before(g, jobs, events, m + 1);
    let before = events.take(m);
    law_history_is_sound(g, jobs, before);
    assert(before.take(k) =~= events.take(k));
    assert(before[k] == events[k]);
    lemma_started_stays(g, jobs, before, k);
    assert(events.take(m + 1).drop_last() =~= before);
    assert(events.take(m + 1).last() == events[m]);
    law_start_keeps_sound(played(g, jobs, before)->0);
}

/// A run of an acyclic graph that is over, and in which nothing has failed, has
/// done every node that is meant to run and skipped the others.
pub proof fn law_successful_run_is_complete(g: Seq<NodeModel>, jobs: nat, events: Seq<Event>, i: int)
    requires
        jobs >= 1,
        !cyclic(g),
        played(g, jobs, events) is Some,
        over(played(g, jobs, events)->0),
        forall|d: int, m: Seq<char>| !(#[trigger] finishes(events, d, Some(m))),
        0 <= i < g.len(),
    ensures
        final_state(played(g, jobs, events)->0, i) == (if g[i].when == When::Never {
            StateModel::Skipped
        } else {
            StateModel::Done
        }),
{
    law_history_is_sound(g, jobs, events);
    let run = played(g, jobs, events)->0;
    if run.cancelled {
        let f = choose|f: int|
            0 <= f < run.nodes.len() && #[trigger] run.state[f] is Some && run.state[f]->0 is Failed;
        law_states_record_results(g, jobs, events, f);
        let m = run.state[f]->0->Failed_0;
        assert(run.state[f] == Some(StateModel::Failed(m)));
        assert(finishes(events, f, Some(m)));
    }
    law_run_completes(run, i);
}

/// The count of running nodes is the number of nodes that run.
pub proof fn law_running_are_counted(running: Seq<bool>)
    ensures
        count_running(running) == running.filter(|b: bool| b).len(),
    decreases running.len(),
{
    reveal(Seq::filter);
    if running.len() > 0 {
        law_running_are_counted(running.drop_last());
    }
}

/// No ready node waits without need: in a run that no failure has stopped, as long as
/// a node is ready and fewer nodes run than there are jobs, a node can start, and it is
/// a ready one.
pub proof fn law_work_is_conserved(run: Run)
    requires
        sound(run),
        !run.cancelled,
        run.ready.len() > 0,
        run.running.filter(|b: bool| b).len() < run.jobs,
    ensures
        after_event(run, Event::Start) is Some,
        ({
            let r = after_event(run, Event::Start)->0;
            let i = run.ready[run.ready.len() - 1];
            &&& !run.running[i] && r.running == run.running.update(i, true)
            &&& r.ready == run.ready.drop_last()
            &&& r.nodes == run.nodes && r.jobs == run.jobs && r.state == run.state && r.spent == run.spent
            &&& !r.cancelled
        }),
{
    law_running_are_counted(run.running);
    law_start_keeps_sound(run);
}

/// A node can start only where no failure has stopped the run, one is ready, and fewer
/// nodes run than there are jobs.
pub proof fn law_starts_need_leave(run: Run)
    requires
        after_event(run, Event::Start) is Some,
    ensures
        !run.cancelled,
        run.ready.len() > 0,
        run.running.filter(|b: bool| b).len() < run.jobs,
{
    law_running_are_counted(run.running);
}

/// Whether node `d` no longer holds back those that wait for it: it has finished
/// without a failure, or it is skipped.
pub open spec fn out_of_the_way(g: Seq<NodeModel>, run: Run, events: Seq<Event>, d: int) -> bool {
    finishes(events, d, None) || (g[d].when == When::Never && run.state[d] == Some(StateModel::Skipped))
}

/// Nothing is forgotten: in a run that no failure has stopped, a node for which nothing
/// is in the way any more is ready or running or finished, or it is skipped where it is
/// meant to be. No other node is any of these.
pub proof fn law_nothing_is_forgotten(g: Seq<NodeModel>, jobs: nat, events: Seq<Event>, i: int)
    requires
        jobs >= 1,
        played(g, jobs, events) is Some,
        !played(g, jobs, events)->0.cancelled,
        0 <= i < g.len(),
    ensures
        ({
            let run = played(g, jobs, events)->0;
            let free = forall|k: int|
                0 <= k < deps(g, i).len() ==> #[trigger] out_of_the_way(g, run, events, deps(g, i)[k]);
            &&& free && g[i].when != When::Never ==> run.ready.contains(i) || run.running[i] || finishes(events, i, None)
            &&& free && g[i].when == When::Never ==> run.state[i] == Some(StateModel::Skipped)
            &&& run.ready.contains(i) || run.running[i] || run.state[i] is Some ==> free
        }),
{
    law_history_is_sound(g, jobs, events);
    let run = played(g, jobs, events)->0;
    lemma_resolved_range(g, g[i].after);
    let ds = deps(g, i);
    assert forall|k: int| 0 <= k < ds.len() implies out_of_the_way(g, run, events, #[trigger] ds[k]) == settled(
        run.state,
        ds[k],
    ) by {
        law_states_record_results(g, jobs, events, ds[k]);
        assert(node_sound(run, ds[k]));
    }
    assert(node_sound(run, i));
    law_states_record_results(g, jobs, events, i);
    let free = forall|k: int| 0 <= k < ds.len() ==> #[trigger] out_of_the_way(g, run, events, ds[k]);
    if free {
        assert forall|k: int| 0 <= k < ds.len() implies settled(run.state, #[trigger] ds[k]) by {
            assert(out_of_the_way(g, run, events, ds[k]));
        }
        lemma_free_past_waiting(run, i);
        if run.state[i] is Some && run.state[i]->0 is Failed {
            assert(run.cancelled);
        }
    }
    if run.ready.contains(i) || run.running[i] || run.state[i] is Some {
        assert(past_waiting(run, i));
        assert(deps_settled(run, i));
        assert forall|k: int| 0 <= k < ds.len() implies #[trigger] out_of_the_way(g, run, events, ds[k]) by {
            assert(settled(run.state, ds[k]));
        }
    }
}

/// A node that nothing holds back has got past waiting.
proof fn lemma_free_past_waiting(run: Run, i: int)
    requires
        sound(run),
        !run.cancelled,
        0 <= i < run.nodes.len(),
        forall|k: int| 0 <= k < deps(run.nodes, i).len() ==> settled(run.state, #[trigger] deps(run.nodes, i)[k]),
    ensures
        past_waiting(run, i),
{
    lemma_unsettled_zero(run.state, deps(run.nodes, i));
    assert(run.waits[i] == unsettled(run.state, deps(run.nodes, i)) + occurrences(seq![], i));
}

/// Whether event `j` is one by which node `d` finishes after `nanos`.
pub open spec fn takes(events: Seq<Event>, j: int, d: int, nanos: u128) -> bool {
    events[j] matches Event::Finish(i, _, n) && i == d && n == nanos
}

/// A node's recorded time is the time it was reported to have taken, and none where it
/// has not finished.
pub proof fn law_times_are_recorded(g: Seq<NodeModel>, jobs: nat, events: Seq<Event>, d: int)
    requires
        jobs >= 1,
        played(g, jobs, events) is Some,
        0 <= d < g.len(),
    ensures
        forall|j: int, nanos: u128|
            0 <= j < events.len() && #[trigger] takes(events, j, d, nanos) ==> played(g, jobs, events)->0.spent[d] == nanos,
        (forall|j: int, nanos: u128| 0 <= j < events.len() ==> !#[trigger] takes(events, j, d, nanos)) ==> played(
            g,
            jobs,
            events,
        )->0.spent[d] == 0,
    decreases events.len(),
{
    law_history_is_sound(g, jobs, events);
    let r = played(g, jobs, events)->0;
    if events.len() == 0 {
        law_launch_is_sound(g, jobs);
    } else {
        let front = events.drop_last();
        let last = events.len() - 1;
        law_history_is_sound(g, jobs, front);
        law_times_are_recorded(g, jobs, front, d);
        let run = played(g, jobs, front)->0;
        assert forall|j: int, nanos: u128| 0 <= j < last implies takes(front, j, d, nanos) == #[trigger] takes(
            events,
            j,
            d,
            nanos,
        ) by {}
        match events[last] {
            Event::Start => {
                assert(r.spent == run.spent);
            },
            Event::Finish(i, failure, time) => {
                law_finish_keeps_sound(run, i, failure, time);
                assert(r.spent == run.spent.update(i, time));
                if i == d {
                    assert(takes(events, last, d, time));
                    assert forall|j: int, nanos: u128| 0 <= j < last implies !#[trigger] takes(events, j, d, nanos) by {
                        if takes(events, j, d, nanos) {
                            lemma_finished_has_state(g, jobs, front, j, d);
                            assert(node_sound(run, d));
                        }
                    }
                }
            },
        }
        if forall|j: int, nanos: u128| 0 <= j < events.len() ==> !#[trigger] takes(events, j, d, nanos) {
            assert forall|j: int, nanos: u128| 0 <= j < front.len() implies !#[trigger] takes(front, j, d, nanos) by {
                assert(!takes(events, j, d, nanos));
            }
        }
    }
}

/// A node that has finished has a state.
proof fn lemma_finished_has_state(g: Seq<NodeModel>, jobs: nat, events: Seq<Event>, j: int, d: int)
    requires
        jobs >= 1,
        played(g, jobs, events) is Some,
        0 <= d < g.len(),
        0 <= j < events.len(),
        events[j] is Finish,
        events[j]->Finish_0 == d,
    ensures
        played(g, jobs, events)->0.state[d] is Some,
{
    law_states_record_results(g, jobs, events, d);
    match events[j]->Finish_1 {
        None => {
            assert(finishes_at(events, j, d, None));
            assert(finishes(events, d, None));
        },
        Some(m) => {
            assert(finishes_at(events, j, d, Some(m)));
            assert(finishes(events, d, Some(m)));
        },
    }
}

/// Finishing is possible exactly for a node that runs, and starting it is what made it
/// run.
pub proof fn law_only_running_nodes_finish(run: Run, i: int, failure: Option<Seq<char>>, nanos: u128)
    ensures
        after_event(run, Event::Finish(i, failure, nanos)) is Some <==> 0 <= i < run.nodes.len() && run.running[i],
{
}

} // verus!
