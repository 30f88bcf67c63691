//! A run as a state machine: which nodes are ready, running or settled, and what
//! starting and finishing a node does to that.
use vstd::prelude::*;

use crate::graph::{NodeModel, When};
use crate::order::{
    cyclic, deps, drain_order, law_drain_order, law_drains_iff_acyclic, lemma_resolved_range,
    within,
};

verus! {

/// The view of a node's state.
#[verifier::ext_equal]
pub enum StateModel {
    Done,
    Failed(Seq<char>),
    Skipped,
    Cancelled,
}

/// A run in progress.
#[verifier::ext_equal]
pub struct Run {
    /// The graph that is being run.
    pub nodes: Seq<NodeModel>,
    /// How many nodes may run at once.
    pub jobs: nat,
    /// For each node, how many of its edges are still unsatisfied.
    pub waits: Seq<nat>,
    /// Nodes that may start; the last one starts next.
    pub ready: Seq<int>,
    /// What has become of each node so far.
    pub state: Seq<Option<StateModel>>,
    /// Which nodes are running.
    pub running: Seq<bool>,
    /// How long each node ran, in nanoseconds.
    pub spent: Seq<u128>,
    /// Whether a failure has stopped further starts.
    pub cancelled: bool,
}

/// How often `x` occurs in `s`.
pub open spec fn occurrences(s: Seq<int>, x: int) -> nat
    decreases s.len(),
{
    if s.len() == 0 {
        0
    } else {
        occurrences(s.drop_last(), x) + if s.last() == x {
            1nat
        } else {
            0nat
        }
    }
}

/// `x`, `k` times.
pub open spec fn repeated(x: int, k: nat) -> Seq<int> {
    Seq::new(k, |i: int| x)
}

/// Those among the first `n` nodes that wait for `j`, once per edge, in
/// declaration order.
pub open spec fn dependents(g: Seq<NodeModel>, j: int, n: int) -> Seq<int>
    decreases n,
{
    if n <= 0 {
        seq![]
    } else {
        dependents(g, j, n - 1) + repeated(n - 1, occurrences(deps(g, n - 1), j))
    }
}

/// The sum of `s`.
pub open spec fn total(s: Seq<nat>) -> nat
    decreases s.len(),
{
    if s.len() == 0 {
        0
    } else {
        total(s.drop_last()) + s.last()
    }
}

/// Lowering one item lowers the sum.
pub proof fn lemma_total_lowered(s: Seq<nat>, i: int)
    requires
        0 <= i < s.len(),
        s[i] > 0,
    ensures
        total(s.update(i, (s[i] - 1) as nat)) + 1 == total(s),
    decreases s.len(),
{
    let t = s.update(i, (s[i] - 1) as nat);
    if i == s.len() - 1 {
        assert(t.drop_last() =~= s.drop_last());
    } else {
        lemma_total_lowered(s.drop_last(), i);
        assert(t.drop_last() =~= s.drop_last().update(i, (s[i] - 1) as nat));
    }
}

/// The run, the log and the agenda after one edge to the first node on the agenda
/// has been satisfied. A node whose last edge is satisfied becomes ready; or, where
/// it never runs, it is skipped, logged, and its own dependents come next.
pub open spec fn next(run: Run, log: Seq<int>, agenda: Seq<int>) -> (Run, Seq<int>, Seq<int>) {
    let d = agenda[0];
    let rest = agenda.drop_first();
    let waits = run.waits.update(d, (run.waits[d] - 1) as nat);
    if waits[d] > 0 {
        (Run { waits, ..run }, log, rest)
    } else if run.nodes[d].when == When::Never {
        (
            Run { waits, state: run.state.update(d, Some(StateModel::Skipped)), ..run },
            log.push(d),
            dependents(run.nodes, d, run.nodes.len() as int) + rest,
        )
    } else {
        (Run { waits, ready: run.ready.push(d), ..run }, log, rest)
    }
}

/// The run after every edge on the agenda has been satisfied, one after the
/// other, and `log` followed by the nodes that this skipped.
pub open spec fn satisfied(run: Run, log: Seq<int>, agenda: Seq<int>) -> (Run, Seq<int>)
    decreases total(run.waits),
{
    if agenda.len() == 0 || !(0 <= agenda[0] < run.waits.len()) || run.waits[agenda[0]] == 0 {
        (run, log)
    } else {
        let (r, l, a) = next(run, log, agenda);
        proof {
            lemma_total_lowered(run.waits, agenda[0]);
        }
        satisfied(r, l, a)
    }
}

/// The run after a node without unsatisfied edges has been taken in.
pub open spec fn admitted(run: Run, log: Seq<int>, i: int) -> (Run, Seq<int>) {
    if run.nodes[i].when == When::Never {
        satisfied(
            Run { state: run.state.update(i, Some(StateModel::Skipped)), ..run },
            log.push(i),
            dependents(run.nodes, i, run.nodes.len() as int),
        )
    } else {
        (Run { ready: run.ready.push(i), ..run }, log)
    }
}

/// The run before any node has been taken in.
pub open spec fn blank(g: Seq<NodeModel>, jobs: nat) -> Run {
    Run {
        nodes: g,
        jobs,
        waits: Seq::new(g.len(), |i: int| deps(g, i).len()),
        ready: seq![],
        state: Seq::new(g.len(), |i: int| None),
        running: Seq::new(g.len(), |i: int| false),
        spent: Seq::new(g.len(), |i: int| 0),
        cancelled: false,
    }
}

/// The run after those of the first `n` nodes that wait for nothing have been
/// taken in, in declaration order, and the nodes skipped by that.
pub open spec fn seeded(g: Seq<NodeModel>, jobs: nat, n: int) -> (Run, Seq<int>)
    decreases n,
{
    if n <= 0 {
        (blank(g, jobs), seq![])
    } else {
        let (run, log) = seeded(g, jobs, n - 1);
        if deps(g, n - 1).len() == 0 {
            admitted(run, log, n - 1)
        } else {
            (run, log)
        }
    }
}

/// A run at its start, and the nodes skipped by that.
pub open spec fn launched(g: Seq<NodeModel>, jobs: nat) -> (Run, Seq<int>) {
    seeded(g, jobs, g.len() as int)
}

/// How many nodes are running.
pub open spec fn count_running(running: Seq<bool>) -> nat
    decreases running.len(),
{
    if running.len() == 0 {
        0
    } else {
        count_running(running.drop_last()) + if running.last() {
            1nat
        } else {
            0nat
        }
    }
}

/// Whether a node may start now.
pub open spec fn may_start(run: Run) -> bool {
    !run.cancelled && count_running(run.running) < run.jobs && run.ready.len() > 0
}

/// The run after the next ready node has started.
pub open spec fn started(run: Run) -> Run {
    Run { ready: run.ready.drop_last(), running: run.running.update(run.ready.last(), true), ..run }
}

/// The run in which node `i` has got the state `s` and stopped, and nothing else
/// has changed.
pub open spec fn stopped(run: Run, i: int, s: StateModel, nanos: u128) -> Run {
    Run {
        running: run.running.update(i, false),
        spent: run.spent.update(i, nanos),
        state: run.state.update(i, Some(s)),
        ..run
    }
}

/// The run after node `i` has finished, without (`None`) or with a failure
/// message, after `nanos`, and the nodes skipped by that.
pub open spec fn finished(run: Run, i: int, failure: Option<Seq<char>>, nanos: u128) -> (Run, Seq<int>) {
    let state = match failure {
        None => StateModel::Done,
        Some(message) => StateModel::Failed(message),
    };
    let mid = stopped(run, i, state, nanos);
    match failure {
        Some(_) => (Run { cancelled: true, ready: seq![], ..mid }, seq![]),
        None => if run.cancelled {
            (mid, seq![])
        } else {
            satisfied(mid, seq![], dependents(run.nodes, i, run.nodes.len() as int))
        },
    }
}

/// What a node's state is once nothing runs any more: nodes that never started
/// are cancelled.
pub open spec fn final_state(run: Run, i: int) -> StateModel {
    match run.state[i] {
        Some(s) => s,
        None => StateModel::Cancelled,
    }
}

/// Whether a node satisfies those that wait for it.
pub open spec fn settled(state: Seq<Option<StateModel>>, j: int) -> bool {
    state[j] == Some(StateModel::Done) || state[j] == Some(StateModel::Skipped)
}

/// How many of the nodes in `ds` are not settled.
pub open spec fn unsettled(state: Seq<Option<StateModel>>, ds: Seq<int>) -> nat
    decreases ds.len(),
{
    if ds.len() == 0 {
        0
    } else {
        unsettled(state, ds.drop_last()) + if settled(state, ds.last()) {
            0nat
        } else {
            1nat
        }
    }
}

/// Whether everything that node `i` waits for is settled.
pub open spec fn deps_settled(run: Run, i: int) -> bool {
    forall|k: int| 0 <= k < deps(run.nodes, i).len() ==> settled(run.state, #[trigger] deps(run.nodes, i)[k])
}

/// Whether node `i` has got past waiting: it is ready, running or has a state.
pub open spec fn past_waiting(run: Run, i: int) -> bool {
    run.ready.contains(i) || run.running[i] || run.state[i] is Some
}

/// What holds of every node in every state of a run.
pub open spec fn node_sound(run: Run, i: int) -> bool {
    &&& run.state[i] != Some(StateModel::Cancelled)
    // Only a node that never runs is skipped, and it is never ready or running.
    &&& run.state[i] == Some(StateModel::Skipped) ==> run.nodes[i].when == When::Never
    &&& (run.ready.contains(i) || run.running[i] || (run.state[i] is Some && run.state[i]
        != Some(StateModel::Skipped))) ==> run.nodes[i].when != When::Never
    // Nothing gets past waiting before all that it waits for is settled.
    &&& past_waiting(run, i) ==> deps_settled(run, i)
    // Ready, running and settled exclude each other.
    &&& !(run.ready.contains(i) && run.running[i])
    &&& (run.ready.contains(i) || run.running[i]) ==> run.state[i] is None
}

/// What holds in every state of a run, while `agenda` is being satisfied.
pub open spec fn sound_during(run: Run, agenda: Seq<int>) -> bool {
    let n = run.nodes.len();
    &&& run.waits.len() == n
    &&& run.state.len() == n
    &&& run.running.len() == n
    &&& run.spent.len() == n
    &&& forall|k: int| 0 <= k < run.ready.len() ==> 0 <= #[trigger] run.ready[k] < n
    &&& run.ready.no_duplicates()
    &&& forall|i: int| 0 <= i < n ==> #[trigger] node_sound(run, i)
    &&& !run.cancelled ==> forall|i: int|
        0 <= i < n ==> #[trigger] run.waits[i] == unsettled(run.state, deps(run.nodes, i)) + occurrences(agenda, i)
    &&& !run.cancelled ==> forall|i: int| 0 <= i < n && #[trigger] past_waiting(run, i) ==> run.waits[i] == 0
    &&& run.cancelled ==> run.ready.len() == 0
    &&& run.cancelled <==> exists|i: int| 0 <= i < n && #[trigger] run.state[i] is Some && run.state[i]->0 is Failed
    &&& count_running(run.running) <= run.jobs
}

/// Whether every node without unsatisfied edges has got past waiting, apart from
/// those from place `n` on that wait for nothing at all.
pub open spec fn caught_up(run: Run, n: int) -> bool {
    !run.cancelled ==> forall|i: int|
        0 <= i < run.nodes.len() && #[trigger] run.waits[i] == 0 && (i < n || deps(run.nodes, i).len() > 0)
            ==> past_waiting(run, i)
}

/// What holds in every state of a run.
pub open spec fn sound(run: Run) -> bool {
    &&& sound_during(run, seq![])
    &&& caught_up(run, run.nodes.len() as int)
    &&& run.jobs >= 1
}

proof fn lemma_occurrences_first(s: Seq<int>, x: int)
    requires
        s.len() > 0,
    ensures
        occurrences(s, x) == occurrences(s.drop_first(), x) + if s[0] == x {
            1nat
        } else {
            0nat
        },
    decreases s.len(),
{
    if s.len() > 1 {
        lemma_occurrences_first(s.drop_last(), x);
        assert(s.drop_last().drop_first() =~= s.drop_first().drop_last());
    } else {
        assert(s.drop_last() =~= Seq::<int>::empty());
        assert(s.drop_first() =~= Seq::<int>::empty());
    }
}

proof fn lemma_occurrences_add(s: Seq<int>, t: Seq<int>, x: int)
    ensures
        occurrences(s + t, x) == occurrences(s, x) + occurrences(t, x),
    decreases t.len(),
{
    if t.len() == 0 {
        assert(s + t =~= s);
    } else {
        lemma_occurrences_add(s, t.drop_last(), x);
        assert((s + t).drop_last() =~= s + t.drop_last());
    }
}

proof fn lemma_occurrences_repeated(y: int, k: nat, x: int)
    ensures
        occurrences(repeated(y, k), x) == if x == y {
            k
        } else {
            0
        },
    decreases k,
{
    if k > 0 {
        lemma_occurrences_repeated(y, (k - 1) as nat, x);
        assert(repeated(y, k).drop_last() =~= repeated(y, (k - 1) as nat));
    }
}

/// A node occurs among the dependents of `j` once per edge to `j`.
pub proof fn lemma_dependents(g: Seq<NodeModel>, j: int, n: int, d: int)
    ensures
        occurrences(dependents(g, j, n), d) == if 0 <= d < n {
            occurrences(deps(g, d), j)
        } else {
            0
        },
        forall|k: int| 0 <= k < dependents(g, j, n).len() ==> 0 <= #[trigger] dependents(g, j, n)[k] < n,
    decreases n,
{
    if n > 0 {
        lemma_dependents(g, j, n - 1, d);
        let more = repeated(n - 1, occurrences(deps(g, n - 1), j));
        lemma_occurrences_add(dependents(g, j, n - 1), more, d);
        lemma_occurrences_repeated(n - 1, occurrences(deps(g, n - 1), j), d);
    }
}

/// Nothing is unsettled exactly when everything is settled.
pub proof fn lemma_unsettled_zero(state: Seq<Option<StateModel>>, ds: Seq<int>)
    ensures
        unsettled(state, ds) == 0 <==> forall|k: int| 0 <= k < ds.len() ==> settled(state, #[trigger] ds[k]),
    decreases ds.len(),
{
    if ds.len() > 0 {
        let t = ds.drop_last();
        lemma_unsettled_zero(state, t);
        if unsettled(state, ds) == 0 {
            assert forall|k: int| 0 <= k < ds.len() implies settled(state, #[trigger] ds[k]) by {
                if k < t.len() {
                    assert(settled(state, t[k]));
                }
            }
        }
        if forall|k: int| 0 <= k < ds.len() ==> settled(state, #[trigger] ds[k]) {
            assert forall|k: int| 0 <= k < t.len() implies settled(state, #[trigger] t[k]) by {
                assert(settled(state, ds[k]));
            }
            assert(settled(state, ds[ds.len() - 1]));
        }
    }
}

/// Settling one node takes its edges off the count.
proof fn lemma_unsettled_drops(
    state: Seq<Option<StateModel>>,
    j: int,
    s: StateModel,
    ds: Seq<int>,
)
    requires
        0 <= j < state.len(),
        state[j] is None,
        forall|k: int| 0 <= k < ds.len() ==> 0 <= #[trigger] ds[k] < state.len(),
    ensures
        s == StateModel::Done || s == StateModel::Skipped ==> unsettled(state.update(j, Some(s)), ds) + occurrences(
            ds,
            j,
        ) == unsettled(state, ds),
        s != StateModel::Done && s != StateModel::Skipped ==> unsettled(state.update(j, Some(s)), ds) == unsettled(
            state,
            ds,
        ),
    decreases ds.len(),
{
    if ds.len() > 0 {
        let t = ds.drop_last();
        assert forall|k: int| 0 <= k < t.len() implies 0 <= #[trigger] t[k] < state.len() by {
            assert(t[k] == ds[k]);
        }
        lemma_unsettled_drops(state, j, s, t);
        assert(0 <= ds[ds.len() - 1] < state.len());
    }
}

/// Giving a node a state unsettles no other one.
proof fn lemma_settled_grows(state: Seq<Option<StateModel>>, j: int, s: StateModel)
    requires
        0 <= j < state.len(),
        state[j] is None,
    ensures
        forall|i: int| 0 <= i < state.len() && #[trigger] settled(state, i) ==> settled(state.update(j, Some(s)), i),
{
}

/// What is settled stays settled, whatever else changes.
proof fn lemma_deps_stay_settled(run: Run, after: Run, i: int)
    requires
        after.nodes == run.nodes,
        run.state.len() == run.nodes.len(),
        0 <= i < run.nodes.len(),
        deps_settled(run, i),
        forall|j: int| 0 <= j < run.state.len() && #[trigger] settled(run.state, j) ==> settled(after.state, j),
    ensures
        deps_settled(after, i),
{
    lemma_resolved_range(run.nodes, run.nodes[i].after);
    assert forall|k: int| 0 <= k < deps(after.nodes, i).len() implies settled(
        after.state,
        #[trigger] deps(after.nodes, i)[k],
    ) by {
        assert(settled(run.state, deps(run.nodes, i)[k]));
    }
}

/// Satisfying one edge that is not a node's last one.
proof fn lemma_step_waits(run: Run, agenda: Seq<int>, n: int)
    requires
        sound_during(run, agenda),
        caught_up(run, n),
        !run.cancelled,
        agenda.len() > 0,
        0 <= agenda[0] < run.nodes.len(),
        run.waits[agenda[0]] > 1,
    ensures
        sound_during(
            Run { waits: run.waits.update(agenda[0], (run.waits[agenda[0]] - 1) as nat), ..run },
            agenda.drop_first(),
        ),
        caught_up(Run { waits: run.waits.update(agenda[0], (run.waits[agenda[0]] - 1) as nat), ..run }, n),
{
    let d = agenda[0];
    let r = Run { waits: run.waits.update(d, (run.waits[d] - 1) as nat), ..run };
    let rest = agenda.drop_first();
    assert forall|i: int| 0 <= i < r.nodes.len() implies #[trigger] node_sound(r, i) by {
        assert(node_sound(run, i));
        assert(past_waiting(r, i) == past_waiting(run, i));
        if past_waiting(run, i) {
            assert(deps_settled(run, i));
            lemma_deps_stay_settled(run, r, i);
        }
    }
    assert forall|i: int| 0 <= i < r.nodes.len() implies #[trigger] r.waits[i] == unsettled(
        r.state,
        deps(r.nodes, i),
    ) + occurrences(rest, i) by {
        lemma_occurrences_first(agenda, i);
        assert(run.waits[i] == unsettled(run.state, deps(run.nodes, i)) + occurrences(agenda, i));
    }
    assert forall|i: int| 0 <= i < r.nodes.len() && #[trigger] past_waiting(r, i) implies r.waits[i] == 0 by {
        assert(past_waiting(run, i));
    }
    assert forall|i: int|
        0 <= i < r.nodes.len() && #[trigger] r.waits[i] == 0 && (i < n || deps(r.nodes, i).len() > 0) implies past_waiting(
        r,
        i,
    ) by {
        assert(run.waits[i] == 0);
        assert(past_waiting(run, i));
    }
}

/// A node whose only unsatisfied edge is next on the agenda waits for settled
/// nodes only, and has not got past waiting.
proof fn lemma_last_edge(run: Run, agenda: Seq<int>)
    requires
        sound_during(run, agenda),
        !run.cancelled,
        agenda.len() > 0,
        0 <= agenda[0] < run.nodes.len(),
        run.waits[agenda[0]] == 1,
    ensures
        !past_waiting(run, agenda[0]),
        deps_settled(run, agenda[0]),
        occurrences(agenda.drop_first(), agenda[0]) == 0,
        unsettled(run.state, deps(run.nodes, agenda[0])) == 0,
{
    let d = agenda[0];
    lemma_occurrences_first(agenda, d);
    assert(run.waits[d] == unsettled(run.state, deps(run.nodes, d)) + occurrences(agenda, d));
    lemma_unsettled_zero(run.state, deps(run.nodes, d));
    assert(node_sound(run, d));
    if past_waiting(run, d) {
        assert(run.waits[d] == 0);
    }
}

/// Satisfying the last edge of a node that runs.
proof fn lemma_step_ready(run: Run, agenda: Seq<int>, n: int)
    requires
        sound_during(run, agenda),
        caught_up(run, n),
        !run.cancelled,
        agenda.len() > 0,
        0 <= agenda[0] < run.nodes.len(),
        run.waits[agenda[0]] == 1,
        run.nodes[agenda[0]].when != When::Never,
    ensures
        sound_during(
            Run { waits: run.waits.update(agenda[0], 0), ready: run.ready.push(agenda[0]), ..run },
            agenda.drop_first(),
        ),
        caught_up(Run { waits: run.waits.update(agenda[0], 0), ready: run.ready.push(agenda[0]), ..run }, n),
{
    let d = agenda[0];
    let r = Run { waits: run.waits.update(d, 0), ready: run.ready.push(d), ..run };
    let rest = agenda.drop_first();
    lemma_last_edge(run, agenda);
    lemma_ready_push(run.ready, d);
    assert forall|i: int| 0 <= i < r.nodes.len() implies #[trigger] node_sound(r, i) by {
        assert(node_sound(run, i));
        if i == d {
            lemma_deps_stay_settled(run, r, i);
        } else if past_waiting(run, i) {
            lemma_deps_stay_settled(run, r, i);
        }
    }
    assert forall|i: int| 0 <= i < r.nodes.len() implies #[trigger] r.waits[i] == unsettled(
        r.state,
        deps(r.nodes, i),
    ) + occurrences(rest, i) by {
        lemma_occurrences_first(agenda, i);
        assert(run.waits[i] == unsettled(run.state, deps(run.nodes, i)) + occurrences(agenda, i));
    }
    assert forall|i: int| 0 <= i < r.nodes.len() && #[trigger] past_waiting(r, i) implies r.waits[i] == 0 by {
        if i != d {
            assert(past_waiting(run, i));
        }
    }
    assert forall|i: int|
        0 <= i < r.nodes.len() && #[trigger] r.waits[i] == 0 && (i < n || deps(r.nodes, i).len() > 0) implies past_waiting(
        r,
        i,
    ) by {
        if i != d {
            assert(run.waits[i] == 0);
            assert(past_waiting(run, i));
        }
    }
}

/// Membership in a list after one more has been appended.
proof fn lemma_ready_push(s: Seq<int>, d: int)
    ensures
        forall|i: int| s.push(d).contains(i) <==> i == d || s.contains(i),
        s.no_duplicates() && !s.contains(d) ==> s.push(d).no_duplicates(),
{
    let t = s.push(d);
    assert forall|i: int| t.contains(i) <==> i == d || s.contains(i) by {
        if s.contains(i) {
            assert(t[s.index_of(i)] == i);
        }
        if i == d {
            assert(t[s.len() as int] == d);
        }
    }
}

/// Giving the state Skipped to a node that never runs, whose edges are all
/// satisfied, and putting its dependents on the agenda.
proof fn lemma_step_skipped(run: Run, waits: Seq<nat>, agenda: Seq<int>, rest: Seq<int>, d: int, n: int, m: int)
    requires
        sound_during(run, agenda),
        caught_up(run, n),
        !run.cancelled,
        0 <= d < run.nodes.len(),
        run.nodes[d].when == When::Never,
        !past_waiting(run, d),
        deps_settled(run, d),
        unsettled(run.state, deps(run.nodes, d)) == 0,
        waits.len() == run.waits.len(),
        waits[d] == 0,
        occurrences(rest, d) == 0,
        forall|i: int| 0 <= i < waits.len() && i != d ==> #[trigger] waits[i] == run.waits[i],
        forall|i: int| i != d ==> #[trigger] occurrences(rest, i) == occurrences(agenda, i),
        m == n || m == d + 1 == n + 1,
    ensures
        sound_during(
            Run { waits, state: run.state.update(d, Some(StateModel::Skipped)), ..run },
            dependents(run.nodes, d, run.nodes.len() as int) + rest,
        ),
        caught_up(Run { waits, state: run.state.update(d, Some(StateModel::Skipped)), ..run }, m),
{
    let len = run.nodes.len() as int;
    let r = Run { waits, state: run.state.update(d, Some(StateModel::Skipped)), ..run };
    let more = dependents(run.nodes, d, len);
    assert(run.state[d] is None);
    lemma_settled_grows(run.state, d, StateModel::Skipped);
    assert forall|i: int| 0 <= i < r.nodes.len() implies #[trigger] node_sound(r, i) by {
        assert(node_sound(run, i));
        if i == d || past_waiting(run, i) {
            lemma_deps_stay_settled(run, r, i);
        }
    }
    assert forall|i: int| 0 <= i < r.nodes.len() implies #[trigger] r.waits[i] == unsettled(
        r.state,
        deps(r.nodes, i),
    ) + occurrences(more + rest, i) by {
        lemma_resolved_range(run.nodes, run.nodes[i].after);
        lemma_unsettled_drops(run.state, d, StateModel::Skipped, deps(run.nodes, i));
        lemma_dependents(run.nodes, d, len, i);
        lemma_occurrences_add(more, rest, i);
        assert(run.waits[i] == unsettled(run.state, deps(run.nodes, i)) + occurrences(agenda, i));
        if i != d {
            assert(waits[i] == run.waits[i]);
            assert(occurrences(rest, i) == occurrences(agenda, i));
        } else {
            assert(unsettled(r.state, deps(r.nodes, i)) + occurrences(deps(r.nodes, i), d) == 0);
        }
    }
    assert forall|i: int| 0 <= i < r.nodes.len() && #[trigger] past_waiting(r, i) implies r.waits[i] == 0 by {
        if i != d {
            assert(past_waiting(run, i));
            assert(waits[i] == run.waits[i]);
        }
    }
    assert forall|i: int|
        0 <= i < r.nodes.len() && #[trigger] r.waits[i] == 0 && (i < m || deps(r.nodes, i).len() > 0) implies past_waiting(
        r,
        i,
    ) by {
        if i != d {
            assert(waits[i] == run.waits[i]);
            assert(run.waits[i] == 0);
            assert(past_waiting(run, i));
        }
    }
    if exists|i: int| 0 <= i < r.nodes.len() && #[trigger] r.state[i] is Some && r.state[i]->0 is Failed {
        let i = choose|i: int| 0 <= i < r.nodes.len() && #[trigger] r.state[i] is Some && r.state[i]->0 is Failed;
        assert(run.state[i] is Some && run.state[i]->0 is Failed);
    }
}

/// What satisfying edges leaves alone, and what `more` reports of it: the nodes
/// that it skipped, each once.
pub open spec fn only_skips(run: Run, after: Run, more: Seq<int>) -> bool {
    &&& after.nodes == run.nodes
    &&& after.jobs == run.jobs
    &&& after.running == run.running
    &&& after.spent == run.spent
    &&& after.cancelled == run.cancelled
    &&& after.state.len() == run.state.len()
    &&& more.no_duplicates()
    &&& forall|k: int| 0 <= k < more.len() ==> 0 <= #[trigger] more[k] < run.state.len()
    &&& forall|i: int|
        0 <= i < run.state.len() ==> #[trigger] after.state[i] == (if more.contains(i) {
            Some(StateModel::Skipped)
        } else {
            run.state[i]
        })
    &&& forall|i: int| 0 <= i < run.state.len() && more.contains(i) ==> #[trigger] run.state[i] is None
}

proof fn lemma_only_skips_push(run: Run, mid: Run, more: Seq<int>, d: int, waits: Seq<nat>)
    requires
        only_skips(run, mid, more),
        0 <= d < run.state.len(),
        mid.state[d] is None,
    ensures
        only_skips(run, Run { waits, state: mid.state.update(d, Some(StateModel::Skipped)), ..mid }, more.push(d)),
{
    let r = Run { waits, state: mid.state.update(d, Some(StateModel::Skipped)), ..mid };
    lemma_ready_push(more, d);
    assert(mid.state[d] is None);
    assert forall|i: int| 0 <= i < run.state.len() implies #[trigger] r.state[i] == (if more.push(d).contains(i) {
        Some(StateModel::Skipped)
    } else {
        run.state[i]
    }) by {
        assert(mid.state[i] == (if more.contains(i) {
            Some(StateModel::Skipped)
        } else {
            run.state[i]
        }));
    }
    assert forall|i: int| 0 <= i < run.state.len() && more.push(d).contains(i) implies #[trigger] run.state[i] is None by {
        if i == d {
            assert(mid.state[i] == (if more.contains(i) {
                Some(StateModel::Skipped)
            } else {
                run.state[i]
            }));
        }
    }
}

/// Satisfying the whole agenda keeps a run sound, and the log reports exactly
/// the nodes that were skipped on the way.
pub proof fn lemma_satisfied(origin: Run, run: Run, log: Seq<int>, agenda: Seq<int>, n: int)
    requires
        sound_during(run, agenda),
        caught_up(run, n),
        !run.cancelled,
        forall|k: int| 0 <= k < agenda.len() ==> 0 <= #[trigger] agenda[k] < run.nodes.len(),
        only_skips(origin, run, log),
    ensures
        sound_during(satisfied(run, log, agenda).0, seq![]),
        caught_up(satisfied(run, log, agenda).0, n),
        only_skips(origin, satisfied(run, log, agenda).0, satisfied(run, log, agenda).1),
    decreases total(run.waits),
{
    if agenda.len() == 0 {
        assert(agenda =~= Seq::<int>::empty());
    } else {
        let d = agenda[0];
        lemma_next(run, log, agenda, n);
        let (r, l, a) = next(run, log, agenda);
        if run.waits[d] == 1 && run.nodes[d].when == When::Never {
            lemma_last_edge(run, agenda);
            lemma_only_skips_push(origin, run, log, d, r.waits);
        }
        lemma_satisfied(origin, r, l, a, n);
    }
}

/// Satisfying one edge keeps what holds of the run, and leads to the same end.
pub proof fn lemma_next(run: Run, log: Seq<int>, agenda: Seq<int>, n: int)
    requires
        sound_during(run, agenda),
        caught_up(run, n),
        !run.cancelled,
        agenda.len() > 0,
        forall|k: int| 0 <= k < agenda.len() ==> 0 <= #[trigger] agenda[k] < run.nodes.len(),
    ensures
        run.waits[agenda[0]] > 0,
        ({
            let (r, l, a) = next(run, log, agenda);
            &&& sound_during(r, a)
            &&& caught_up(r, n)
            &&& forall|k: int| 0 <= k < a.len() ==> 0 <= #[trigger] a[k] < run.nodes.len()
            &&& satisfied(run, log, agenda) == satisfied(r, l, a)
            &&& total(r.waits) < total(run.waits)
        }),
{
    let d = agenda[0];
    let rest = agenda.drop_first();
    assert(0 <= agenda[0] < run.nodes.len());
    lemma_occurrences_first(agenda, d);
    assert(run.waits[d] == unsettled(run.state, deps(run.nodes, d)) + occurrences(agenda, d));
    let waits = run.waits.update(d, (run.waits[d] - 1) as nat);
    lemma_total_lowered(run.waits, d);
    assert forall|k: int| 0 <= k < rest.len() implies 0 <= #[trigger] rest[k] < run.nodes.len() by {
        assert(rest[k] == agenda[k + 1]);
    }
    if waits[d] > 0 {
        lemma_step_waits(run, agenda, n);
    } else if run.nodes[d].when == When::Never {
        lemma_last_edge(run, agenda);
        assert forall|i: int| i != d implies #[trigger] occurrences(rest, i) == occurrences(agenda, i) by {
            lemma_occurrences_first(agenda, i);
        }
        lemma_step_skipped(run, waits, agenda, rest, d, n, n);
        let more = dependents(run.nodes, d, run.nodes.len() as int);
        lemma_dependents(run.nodes, d, run.nodes.len() as int, d);
        assert forall|k: int| 0 <= k < (more + rest).len() implies 0 <= #[trigger] (more + rest)[k]
            < run.nodes.len() by {
            if k < more.len() {
                assert(0 <= more[k] < run.nodes.len());
            } else {
                assert(0 <= rest[k - more.len()] < run.nodes.len());
            }
        }
    } else {
        lemma_step_ready(run, agenda, n);
        assert(waits =~= run.waits.update(d, 0));
    }
}

pub proof fn lemma_count_none(running: Seq<bool>)
    ensures
        (forall|i: int| 0 <= i < running.len() ==> !(#[trigger] running[i])) <==> count_running(running) == 0,
    decreases running.len(),
{
    if running.len() > 0 {
        let t = running.drop_last();
        lemma_count_none(t);
        if forall|i: int| 0 <= i < running.len() ==> !(#[trigger] running[i]) {
            assert forall|i: int| 0 <= i < t.len() implies !(#[trigger] t[i]) by {
                assert(!running[i]);
            }
            assert(!running[running.len() - 1]);
        }
        if count_running(running) == 0 {
            assert forall|i: int| 0 <= i < running.len() implies !(#[trigger] running[i]) by {
                if i < t.len() {
                    assert(!t[i]);
                }
            }
        }
    }
}

pub proof fn lemma_count_set(running: Seq<bool>, i: int, on: bool)
    requires
        0 <= i < running.len(),
        running[i] != on,
    ensures
        on ==> count_running(running.update(i, on)) == count_running(running) + 1,
        !on ==> count_running(running.update(i, on)) + 1 == count_running(running),
    decreases running.len(),
{
    let t = running.update(i, on);
    if i == running.len() - 1 {
        assert(t.drop_last() =~= running.drop_last());
    } else {
        lemma_count_set(running.drop_last(), i, on);
        assert(t.drop_last() =~= running.drop_last().update(i, on));
    }
}

/// The run is sound before any node has been taken in.
proof fn lemma_blank(g: Seq<NodeModel>, jobs: nat)
    ensures
        sound_during(blank(g, jobs), seq![]),
        caught_up(blank(g, jobs), 0),
{
    let run = blank(g, jobs);
    lemma_count_none(run.running);
    assert forall|i: int| 0 <= i < g.len() implies #[trigger] run.waits[i] == unsettled(run.state, deps(g, i))
        + occurrences(seq![], i) by {
        lemma_resolved_range(g, g[i].after);
        lemma_all_unsettled(run.state, deps(g, i));
    }
    assert forall|i: int| 0 <= i < g.len() implies #[trigger] node_sound(run, i) by {}
}

proof fn lemma_all_unsettled(state: Seq<Option<StateModel>>, ds: Seq<int>)
    requires
        forall|k: int| 0 <= k < ds.len() ==> 0 <= #[trigger] ds[k] < state.len() && state[ds[k]] is None,
    ensures
        unsettled(state, ds) == ds.len(),
    decreases ds.len(),
{
    if ds.len() > 0 {
        let t = ds.drop_last();
        assert forall|k: int| 0 <= k < t.len() implies 0 <= #[trigger] t[k] < state.len() && state[t[k]] is None by {
            assert(t[k] == ds[k]);
        }
        lemma_all_unsettled(state, t);
        assert(state[ds[ds.len() - 1]] is None);
    }
}

/// Skipping a root puts its dependents on the agenda of a sound run.
pub proof fn lemma_root_skipped(g: Seq<NodeModel>, jobs: nat, d: int)
    requires
        0 <= d < g.len(),
        deps(g, d).len() == 0,
        g[d].when == When::Never,
    ensures
        ({
            let run = seeded(g, jobs, d).0;
            let next = Run { state: run.state.update(d, Some(StateModel::Skipped)), ..run };
            &&& sound_during(next, dependents(g, d, g.len() as int))
            &&& caught_up(next, d + 1)
        }),
    decreases d, 1int,
{
    lemma_seeded(g, jobs, d);
    let (run, log) = seeded(g, jobs, d);
    assert(!past_waiting(run, d));
    assert(run.waits[d] == unsettled(run.state, deps(g, d)) + occurrences(seq![], d));
    let none = Seq::<int>::empty();
    lemma_step_skipped(run, run.waits, none, none, d, d, d + 1);
    let more = dependents(g, d, g.len() as int);
    assert(more + none =~= more);
}

/// Taking in the nodes that wait for nothing keeps a run sound.
pub proof fn lemma_seeded(g: Seq<NodeModel>, jobs: nat, n: int)
    requires
        0 <= n <= g.len(),
    ensures
        sound_during(seeded(g, jobs, n).0, seq![]),
        caught_up(seeded(g, jobs, n).0, n),
        only_skips(blank(g, jobs), seeded(g, jobs, n).0, seeded(g, jobs, n).1),
        forall|i: int| n <= i < g.len() && #[trigger] deps(g, i).len() == 0 ==> !past_waiting(seeded(g, jobs, n).0, i),
    decreases n, 0int,
{
    if n <= 0 {
        lemma_blank(g, jobs);
    } else {
        lemma_seeded(g, jobs, n - 1);
        let (run, log) = seeded(g, jobs, n - 1);
        let d = n - 1;
        if deps(g, d).len() == 0 {
            assert(!past_waiting(run, d));
            assert(run.waits[d] == unsettled(run.state, deps(g, d)) + occurrences(seq![], d));
            let none = Seq::<int>::empty();
            if g[d].when == When::Never {
                lemma_root_skipped(g, jobs, d);
                let more = dependents(g, d, g.len() as int);
                lemma_dependents(g, d, g.len() as int, d);
                let next = Run { state: run.state.update(d, Some(StateModel::Skipped)), ..run };
                lemma_only_skips_push(blank(g, jobs), run, log, d, run.waits);
                assert forall|i: int| n <= i < g.len() && #[trigger] deps(g, i).len() == 0 implies !past_waiting(next, i)
                    && occurrences(more, i) == 0 by {
                    assert(!past_waiting(run, i));
                    lemma_dependents(g, d, g.len() as int, i);
                }
                lemma_satisfied(blank(g, jobs), next, log.push(d), more, n);
                assert forall|i: int| n <= i < g.len() && #[trigger] deps(g, i).len() == 0 implies !past_waiting(
                    satisfied(next, log.push(d), more).0,
                    i,
                ) by {
                    assert(!past_waiting(next, i));
                    assert(next.waits[i] == unsettled(next.state, deps(g, i)) + occurrences(more, i));
                    lemma_root_untouched(next, log.push(d), more, i);
                }
            } else {
                let r = Run { ready: run.ready.push(d), ..run };
                lemma_ready_push(run.ready, d);
                assert forall|i: int| 0 <= i < r.nodes.len() implies #[trigger] node_sound(r, i) by {
                    assert(node_sound(run, i));
                    if past_waiting(run, i) {
                        lemma_deps_stay_settled(run, r, i);
                    }
                }
                assert forall|i: int| 0 <= i < r.nodes.len() && #[trigger] past_waiting(r, i) implies r.waits[i] == 0 by {
                    if i != d {
                        assert(past_waiting(run, i));
                    }
                }
                assert forall|i: int| 0 <= i < r.nodes.len() implies #[trigger] r.waits[i] == unsettled(
                    r.state,
                    deps(r.nodes, i),
                ) + occurrences(none, i) by {
                    assert(run.waits[i] == unsettled(run.state, deps(run.nodes, i)) + occurrences(none, i));
                }
                assert forall|i: int|
                    0 <= i < r.nodes.len() && #[trigger] r.waits[i] == 0 && (i < n || deps(r.nodes, i).len()
                        > 0) implies past_waiting(r, i) by {
                    if i != d {
                        assert(run.waits[i] == 0);
                        assert(past_waiting(run, i));
                    }
                }
                assert forall|i: int| n <= i < g.len() && #[trigger] deps(g, i).len() == 0 implies !past_waiting(r, i) by {
                    assert(!past_waiting(run, i));
                }
            }
        }
    }
}

/// A node that waits for nothing is never on an agenda, so satisfying edges
/// does not take it in.
proof fn lemma_root_untouched(run: Run, log: Seq<int>, agenda: Seq<int>, i: int)
    requires
        0 <= i < run.nodes.len(),
        run.waits.len() == run.nodes.len(),
        run.state.len() == run.nodes.len(),
        run.waits[i] == 0,
        !past_waiting(run, i),
    ensures
        !past_waiting(satisfied(run, log, agenda).0, i),
    decreases total(run.waits),
{
    if agenda.len() == 0 || !(0 <= agenda[0] < run.waits.len()) || run.waits[agenda[0]] == 0 {
    } else {
        let d = agenda[0];
        let rest = agenda.drop_first();
        let waits = run.waits.update(d, (run.waits[d] - 1) as nat);
        lemma_total_lowered(run.waits, d);
        if waits[d] > 0 {
            lemma_root_untouched(Run { waits, ..run }, log, rest, i);
        } else if run.nodes[d].when == When::Never {
            lemma_root_untouched(
                Run { waits, state: run.state.update(d, Some(StateModel::Skipped)), ..run },
                log.push(d),
                dependents(run.nodes, d, run.nodes.len() as int) + rest,
                i,
            );
        } else {
            lemma_ready_push(run.ready, d);
            lemma_root_untouched(Run { waits, ready: run.ready.push(d), ..run }, log, rest, i);
        }
    }
}

/// A run is sound from its start, and the log of the launch holds exactly the
/// nodes that it skipped.
pub proof fn law_launch_is_sound(g: Seq<NodeModel>, jobs: nat)
    requires
        jobs >= 1,
    ensures
        sound(launched(g, jobs).0),
        only_skips(blank(g, jobs), launched(g, jobs).0, launched(g, jobs).1),
{
    lemma_seeded(g, jobs, g.len() as int);
}

/// Starting a node keeps a run sound. The node that starts was waiting for
/// settled nodes only, is meant to run, and has not run before.
pub proof fn law_start_keeps_sound(run: Run)
    requires
        sound(run),
        may_start(run),
    ensures
        sound(started(run)),
        0 <= run.ready.last() < run.nodes.len(),
        deps_settled(run, run.ready.last()),
        run.nodes[run.ready.last()].when != When::Never,
        run.state[run.ready.last()] is None,
        !run.running[run.ready.last()],
{
    let i0 = run.ready.last();
    let r = started(run);
    assert(run.ready[run.ready.len() - 1] == i0);
    assert(run.ready.contains(i0));
    assert(node_sound(run, i0));
    lemma_count_set(run.running, i0, true);
    lemma_ready_push(r.ready, i0);
    assert(r.ready.push(i0) =~= run.ready);
    assert forall|k: int| 0 <= k < r.ready.len() implies 0 <= #[trigger] r.ready[k] < r.nodes.len() by {
        assert(r.ready[k] == run.ready[k]);
    }
    assert(!r.ready.contains(i0)) by {
        if r.ready.contains(i0) {
            let k = r.ready.index_of(i0);
            assert(run.ready[k] == run.ready[run.ready.len() - 1]);
        }
    }
    assert forall|i: int| 0 <= i < r.nodes.len() implies past_waiting(r, i) == #[trigger] past_waiting(run, i) by {}
    assert forall|i: int| 0 <= i < r.nodes.len() implies #[trigger] node_sound(r, i) by {
        assert(node_sound(run, i));
        assert(past_waiting(r, i) == past_waiting(run, i));
        if past_waiting(run, i) {
            lemma_deps_stay_settled(run, r, i);
        }
    }
    assert forall|i: int| 0 <= i < r.nodes.len() && #[trigger] past_waiting(r, i) implies r.waits[i] == 0 by {
        assert(past_waiting(run, i));
    }
    assert forall|i: int| 0 <= i < r.nodes.len() implies #[trigger] r.waits[i] == unsettled(
        r.state,
        deps(r.nodes, i),
    ) + occurrences(seq![], i) by {
        assert(run.waits[i] == unsettled(run.state, deps(run.nodes, i)) + occurrences(seq![], i));
    }
    assert forall|i: int|
        0 <= i < r.nodes.len() && #[trigger] r.waits[i] == 0 && (i < r.nodes.len() || deps(r.nodes, i).len()
            > 0) implies past_waiting(r, i) by {
        assert(run.waits[i] == 0);
        assert(past_waiting(run, i));
    }
}

proof fn lemma_stopped(run: Run, i: int, s: StateModel, nanos: u128)
    requires
        sound(run),
        0 <= i < run.nodes.len(),
        run.running[i],
        s is Done || s is Failed,
    ensures
        run.state[i] is None,
        count_running(stopped(run, i, s, nanos).running) + 1 == count_running(run.running),
        forall|j: int|
            0 <= j < run.nodes.len() ==> past_waiting(stopped(run, i, s, nanos), j) == #[trigger] past_waiting(run, j),
        forall|j: int| 0 <= j < run.nodes.len() ==> #[trigger] node_sound(stopped(run, i, s, nanos), j),
{
    let n = run.nodes.len() as int;
    let mid = stopped(run, i, s, nanos);
    assert(node_sound(run, i));
    assert(past_waiting(run, i));
    lemma_count_set(run.running, i, false);
    lemma_settled_grows(run.state, i, s);
    assert forall|j: int| 0 <= j < n implies past_waiting(mid, j) == #[trigger] past_waiting(run, j) by {}
    assert forall|j: int| 0 <= j < n implies #[trigger] node_sound(mid, j) by {
        assert(node_sound(run, j));
        assert(past_waiting(mid, j) == past_waiting(run, j));
        if past_waiting(run, j) {
            lemma_deps_stay_settled(run, mid, j);
        }
    }
}

/// A node that is done puts its dependents on the agenda of a sound run.
pub proof fn lemma_done(run: Run, i: int, nanos: u128)
    requires
        sound(run),
        !run.cancelled,
        0 <= i < run.nodes.len(),
        run.running[i],
    ensures
        sound_during(
            stopped(run, i, StateModel::Done, nanos),
            dependents(run.nodes, i, run.nodes.len() as int),
        ),
        caught_up(stopped(run, i, StateModel::Done, nanos), run.nodes.len() as int),
{
    let n = run.nodes.len() as int;
    let mid = stopped(run, i, StateModel::Done, nanos);
    lemma_stopped(run, i, StateModel::Done, nanos);
    let agenda = dependents(run.nodes, i, n);
    assert forall|j: int| 0 <= j < n implies #[trigger] mid.waits[j] == unsettled(
        mid.state,
        deps(mid.nodes, j),
    ) + occurrences(agenda, j) by {
        lemma_resolved_range(run.nodes, run.nodes[j].after);
        lemma_unsettled_drops(run.state, i, StateModel::Done, deps(run.nodes, j));
        lemma_dependents(run.nodes, i, n, j);
        assert(run.waits[j] == unsettled(run.state, deps(run.nodes, j)) + occurrences(seq![], j));
    }
    assert forall|j: int| 0 <= j < n && #[trigger] past_waiting(mid, j) implies mid.waits[j] == 0 by {
        assert(past_waiting(run, j));
    }
    assert forall|j: int|
        0 <= j < n && #[trigger] mid.waits[j] == 0 && (j < n || deps(mid.nodes, j).len() > 0) implies past_waiting(
        mid,
        j,
    ) by {
        assert(run.waits[j] == 0);
        assert(past_waiting(run, j));
    }
    if exists|f: int| 0 <= f < n && #[trigger] mid.state[f] is Some && mid.state[f]->0 is Failed {
        let f = choose|f: int| 0 <= f < n && #[trigger] mid.state[f] is Some && mid.state[f]->0 is Failed;
        assert(run.state[f] is Some && run.state[f]->0 is Failed);
    }
}

/// Finishing a running node keeps a run sound, leaves the other nodes running,
/// changes the state of no settled node, and reports exactly the nodes that it
/// skipped.
pub proof fn law_finish_keeps_sound(run: Run, i: int, failure: Option<Seq<char>>, nanos: u128)
    requires
        sound(run),
        0 <= i < run.nodes.len(),
        run.running[i],
    ensures
        sound(finished(run, i, failure, nanos).0),
        finished(run, i, failure, nanos).0.nodes == run.nodes,
        finished(run, i, failure, nanos).0.jobs == run.jobs,
        finished(run, i, failure, nanos).0.running == run.running.update(i, false),
        finished(run, i, failure, nanos).0.spent == run.spent.update(i, nanos),
        forall|j: int|
            0 <= j < run.nodes.len() && j != i && #[trigger] run.state[j] is Some ==> finished(run, i, failure, nanos).0.state[j]
                == run.state[j],
        forall|j: int|
            0 <= j < run.nodes.len() && j != i && run.state[j] is None ==> #[trigger] finished(
                run,
                i,
                failure,
                nanos,
            ).0.state[j] == (if finished(run, i, failure, nanos).1.contains(j) {
                Some(StateModel::Skipped)
            } else {
                None
            }),
        finished(run, i, failure, nanos).0.state[i] == Some(
            match failure {
                None => StateModel::Done,
                Some(message) => StateModel::Failed(message),
            },
        ),
        failure is Some || run.cancelled ==> finished(run, i, failure, nanos).1 == Seq::<int>::empty(),
{
    let n = run.nodes.len() as int;
    let s = match failure {
        None => StateModel::Done,
        Some(message) => StateModel::Failed(message),
    };
    let mid = stopped(run, i, s, nanos);
    lemma_stopped(run, i, s, nanos);
    match failure {
        Some(message) => {
            let r = Run { cancelled: true, ready: seq![], ..mid };
            assert forall|j: int| 0 <= j < n implies #[trigger] node_sound(r, j) by {
                assert(node_sound(mid, j));
                if past_waiting(r, j) {
                    assert(past_waiting(mid, j));
                    lemma_deps_stay_settled(mid, r, j);
                }
            }
            assert(r.state[i] is Some && r.state[i]->0 is Failed);
            assert(r == finished(run, i, failure, nanos).0);
        },
        None => {
            if run.cancelled {
                let f = choose|f: int| 0 <= f < n && #[trigger] run.state[f] is Some && run.state[f]->0 is Failed;
                assert(mid.state[f] is Some && mid.state[f]->0 is Failed);
                assert(sound(mid));
            } else {
                let agenda = dependents(run.nodes, i, n);
                lemma_dependents(run.nodes, i, n, i);
                lemma_done(run, i, nanos);
                lemma_satisfied(mid, mid, seq![], agenda, n);
                let r = satisfied(mid, seq![], agenda).0;
                let log = satisfied(mid, seq![], agenda).1;
                assert forall|j: int| 0 <= j < n implies r.state[j] == (if log.contains(j) {
                    Some(StateModel::Skipped)
                } else {
                    #[trigger] mid.state[j]
                }) by {
                    assert(r.state[j] == (if log.contains(j) {
                        Some(StateModel::Skipped)
                    } else {
                        mid.state[j]
                    }));
                }
                assert(mid.state[i] is Some);
            }
        },
    }
}

/// Whether a run is over: nothing runs and nothing may start.
pub open spec fn over(run: Run) -> bool {
    count_running(run.running) == 0 && !may_start(run)
}

/// A run that is over without a failure has done or skipped every node, unless
/// the graph has a dependency cycle.
pub proof fn law_run_completes(run: Run, i: int)
    requires
        sound(run),
        over(run),
        !run.cancelled,
        !cyclic(run.nodes),
        0 <= i < run.nodes.len(),
    ensures
        final_state(run, i) == (if run.nodes[i].when == When::Never {
            StateModel::Skipped
        } else {
            StateModel::Done
        }),
{
    let g = run.nodes;
    let q = drain_order(g);
    law_drain_order(g);
    law_drains_iff_acyclic(g);
    crate::order::lemma_distinct_places(q, g.len() as int);
    assert(q.contains(i));
    lemma_completes_in_order(run, q.index_of(i));
    assert(node_sound(run, i));
}

/// In the drain order, node after node is settled.
proof fn lemma_completes_in_order(run: Run, m: int)
    requires
        sound(run),
        over(run),
        !run.cancelled,
        0 <= m < drain_order(run.nodes).len(),
    ensures
        settled(run.state, drain_order(run.nodes)[m]),
    decreases m,
{
    let g = run.nodes;
    let q = drain_order(g);
    law_drain_order(g);
    let i = q[m];
    let ds = deps(g, i);
    assert(within(ds, q.take(m)));
    assert forall|k: int| 0 <= k < ds.len() implies settled(run.state, #[trigger] ds[k]) by {
        assert(q.take(m).contains(ds[k]));
        let f = choose|f: int| 0 <= f < q.take(m).len() && q.take(m)[f] == ds[k];
        assert(q[f] == ds[k]);
        lemma_completes_in_order(run, f);
    }
    lemma_unsettled_zero(run.state, ds);
    assert(run.waits[i] == unsettled(run.state, deps(g, i)) + occurrences(seq![], i));
    assert(past_waiting(run, i));
    lemma_count_none(run.running);
    assert(run.ready.len() == 0);
    assert(!run.running[i]);
    assert(run.state[i] is Some);
    assert(node_sound(run, i));
    if run.state[i]->0 is Failed {
        assert(run.cancelled);
    }
}

/// A failure stops everything behind it: where something that a node waits for
/// has failed or was cancelled, the node ends up cancelled.
pub proof fn law_failure_cancels_downstream(run: Run, i: int, k: int)
    requires
        sound(run),
        over(run),
        0 <= i < run.nodes.len(),
        0 <= k < deps(run.nodes, i).len(),
        final_state(run, deps(run.nodes, i)[k]) is Failed || final_state(run, deps(run.nodes, i)[k]) is Cancelled,
    ensures
        final_state(run, i) is Cancelled,
{
    assert(node_sound(run, i));
    lemma_resolved_range(run.nodes, run.nodes[i].after);
    let d = deps(run.nodes, i)[k];
    assert(node_sound(run, d));
    if past_waiting(run, i) {
        assert(settled(run.state, d));
    }
}

/// A node is done, failed or skipped only where everything that it waits for is
/// done or skipped; a skipped node is one that never runs, and such a node is
/// never done or failed.
pub proof fn law_outcomes_respect_edges(run: Run, i: int)
    requires
        sound(run),
        0 <= i < run.nodes.len(),
        !(final_state(run, i) is Cancelled),
    ensures
        forall|k: int|
            0 <= k < deps(run.nodes, i).len() ==> final_state(run, #[trigger] deps(run.nodes, i)[k]) is Done || final_state(
                run,
                deps(run.nodes, i)[k],
            ) is Skipped,
        final_state(run, i) is Skipped <==> run.nodes[i].when == When::Never,
{
    assert(node_sound(run, i));
    assert(past_waiting(run, i));
    assert forall|k: int| 0 <= k < deps(run.nodes, i).len() implies final_state(run, #[trigger] deps(run.nodes, i)[k]) is Done
        || final_state(run, deps(run.nodes, i)[k]) is Skipped by {
        assert(settled(run.state, deps(run.nodes, i)[k]));
    }
}

/// No more nodes run at once than there are jobs, and after a failure nothing
/// starts.
pub proof fn law_job_limit(run: Run)
    requires
        sound(run),
    ensures
        count_running(run.running) <= run.jobs,
        run.cancelled ==> !may_start(run),
        run.cancelled <==> exists|i: int|
            0 <= i < run.nodes.len() && #[trigger] final_state(run, i) is Failed,
{
    if run.cancelled {
        let i = choose|i: int| 0 <= i < run.nodes.len() && #[trigger] run.state[i] is Some && run.state[i]->0 is Failed;
        assert(final_state(run, i) is Failed);
    }
    if exists|i: int| 0 <= i < run.nodes.len() && #[trigger] final_state(run, i) is Failed {
        let i = choose|i: int| 0 <= i < run.nodes.len() && #[trigger] final_state(run, i) is Failed;
        assert(run.state[i] is Some && run.state[i]->0 is Failed);
    }
}

/// A failure stops further starts for good. Nodes that are running are left to
/// finish and their results are recorded; nothing else changes any more.
pub proof fn law_failure_stops_starts(run: Run, i: int, failure: Option<Seq<char>>, nanos: u128)
    requires
        sound(run),
        0 <= i < run.nodes.len(),
        run.running[i],
        run.cancelled || failure is Some,
    ensures
        finished(run, i, failure, nanos).0.cancelled,
        !may_start(finished(run, i, failure, nanos).0),
        finished(run, i, failure, nanos).0.running == run.running.update(i, false),
        finished(run, i, failure, nanos).0.state == run.state.update(
            i,
            Some(
                match failure {
                    None => StateModel::Done,
                    Some(message) => StateModel::Failed(message),
                },
            ),
        ),
{
}

/// How many nodes have no state yet.
pub open spec fn stateless(state: Seq<Option<StateModel>>) -> nat
    decreases state.len(),
{
    if state.len() == 0 {
        0
    } else {
        stateless(state.drop_last()) + if state.last() is None {
            1nat
        } else {
            0nat
        }
    }
}

/// How many starts and finishes a run has ahead of it at most.
pub open spec fn steps_ahead(run: Run) -> int {
    2 * stateless(run.state) - count_running(run.running)
}

proof fn lemma_running_is_stateless(running: Seq<bool>, state: Seq<Option<StateModel>>)
    requires
        running.len() == state.len(),
        forall|i: int| 0 <= i < running.len() && #[trigger] running[i] ==> state[i] is None,
    ensures
        count_running(running) <= stateless(state),
    decreases running.len(),
{
    if running.len() > 0 {
        let r = running.drop_last();
        let s = state.drop_last();
        assert forall|i: int| 0 <= i < r.len() && #[trigger] r[i] implies s[i] is None by {
            assert(running[i]);
        }
        lemma_running_is_stateless(r, s);
        assert(running[running.len() - 1] ==> state[running.len() - 1] is None);
    }
}

proof fn lemma_stateless_falls(before: Seq<Option<StateModel>>, after: Seq<Option<StateModel>>)
    requires
        before.len() == after.len(),
        forall|i: int| 0 <= i < before.len() && #[trigger] after[i] is None ==> before[i] is None,
    ensures
        stateless(after) <= stateless(before),
        (exists|i: int| 0 <= i < before.len() && before[i] is None && #[trigger] after[i] is Some) ==> stateless(after)
            < stateless(before),
    decreases before.len(),
{
    if before.len() > 0 {
        let b = before.drop_last();
        let a = after.drop_last();
        assert forall|i: int| 0 <= i < b.len() && #[trigger] a[i] is None implies b[i] is None by {
            assert(after[i] is None);
        }
        lemma_stateless_falls(b, a);
        let n = before.len() - 1;
        assert(after[n] is None ==> before[n] is None);
        if exists|i: int| 0 <= i < before.len() && before[i] is None && #[trigger] after[i] is Some {
            let i = choose|i: int| 0 <= i < before.len() && before[i] is None && #[trigger] after[i] is Some;
            if i < n {
                assert(a[i] is Some);
            }
        }
    }
}

/// Every run ends: each start and each finish leaves fewer steps ahead, and there
/// are never fewer than none.
pub proof fn law_run_ends(run: Run)
    requires
        sound(run),
    ensures
        steps_ahead(run) >= 0,
        may_start(run) ==> steps_ahead(started(run)) < steps_ahead(run),
        forall|i: int, failure: Option<Seq<char>>, nanos: u128|
            0 <= i < run.nodes.len() && run.running[i] ==> steps_ahead(
                (#[trigger] finished(run, i, failure, nanos)).0,
            ) < steps_ahead(run),
{
    assert forall|i: int| 0 <= i < run.running.len() && #[trigger] run.running[i] implies run.state[i] is None by {
        assert(node_sound(run, i));
    }
    lemma_running_is_stateless(run.running, run.state);
    if may_start(run) {
        law_start_keeps_sound(run);
        lemma_count_set(run.running, run.ready.last(), true);
    }
    assert forall|i: int, failure: Option<Seq<char>>, nanos: u128|
        0 <= i < run.nodes.len() && run.running[i] implies steps_ahead((#[trigger] finished(run, i, failure, nanos)).0)
        < steps_ahead(run) by {
        let r = finished(run, i, failure, nanos).0;
        law_finish_keeps_sound(run, i, failure, nanos);
        lemma_count_set(run.running, i, false);
        assert forall|j: int| 0 <= j < run.state.len() && #[trigger] r.state[j] is None implies run.state[j] is None by {
            if run.state[j] is Some && j != i {
                assert(r.state[j] == run.state[j]);
            }
        }
        assert(run.state[i] is None);
        assert(r.state[i] is Some);
        lemma_stateless_falls(run.state, r.state);
    }
}

} // verus!
