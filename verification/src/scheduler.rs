//! The bounded ready-queue scheduler.
//!
//! A node is ready when everything that it waits for is done or skipped. Ready
//! nodes start while fewer than `jobs` are running. The first failure stops
//! further starts; what is running is left to finish. The scheduler decides and
//! records; whoever drives it runs the nodes and reports back.
use vstd::prelude::*;

use crate::graph::{node_models, Graph};
use crate::order::{deps, ints};
use crate::run::{
    blank, caught_up, count_running, dependents, final_state, finished, launched,
    law_finish_keeps_sound, law_launch_is_sound, law_start_keeps_sound, lemma_count_none,
    lemma_count_set, lemma_dependents, lemma_done, lemma_next, lemma_root_skipped, lemma_seeded,
    may_start, next, occurrences, only_skips, repeated, satisfied, seeded, sound, sound_during, started,
    stopped, total, Run, StateModel,
};
use crate::text::same_text;

verus! {

/// What has become of a node.
#[derive(Debug, PartialEq, Eq)]
pub enum NodeState {
    Done,
    /// The node ran and failed, with this message.
    Failed(String),
    /// The node never runs.
    Skipped,
    /// The node did not start, because of an earlier failure.
    Cancelled,
}

impl View for NodeState {
    type V = StateModel;

    open spec fn view(&self) -> StateModel {
        match *self {
            NodeState::Done => StateModel::Done,
            NodeState::Failed(message) => StateModel::Failed(message@),
            NodeState::Skipped => StateModel::Skipped,
            NodeState::Cancelled => StateModel::Cancelled,
        }
    }
}

impl Clone for NodeState {
    fn clone(&self) -> (r: NodeState)
        ensures
            r@ == self@,
    {
        match self {
            NodeState::Done => NodeState::Done,
            NodeState::Failed(message) => NodeState::Failed(message.clone()),
            NodeState::Skipped => NodeState::Skipped,
            NodeState::Cancelled => NodeState::Cancelled,
        }
    }
}

/// The result of one node.
#[derive(Debug, Clone)]
pub struct NodeOutcome {
    pub id: String,
    pub state: NodeState,
    /// How long the node ran, in nanoseconds.
    pub duration: u128,
}

/// The view of a [`NodeOutcome`].
#[verifier::ext_equal]
pub struct OutcomeModel {
    pub id: Seq<char>,
    pub state: StateModel,
    pub duration: u128,
}

impl View for NodeOutcome {
    type V = OutcomeModel;

    open spec fn view(&self) -> OutcomeModel {
        OutcomeModel { id: self.id@, state: self.state@, duration: self.duration }
    }
}

/// The result of a run: one outcome per node, in declaration order.
#[derive(Debug, Clone)]
pub struct RunReport {
    pub outcomes: Vec<NodeOutcome>,
    pub failed: bool,
    /// How long the whole run took, in nanoseconds.
    pub wall: u128,
}

/// The view of a [`RunReport`].
#[verifier::ext_equal]
pub struct ReportModel {
    pub outcomes: Seq<OutcomeModel>,
    pub failed: bool,
    pub wall: u128,
}

impl View for RunReport {
    type V = ReportModel;

    open spec fn view(&self) -> ReportModel {
        ReportModel {
            outcomes: outcome_models(self.outcomes@),
            failed: self.failed,
            wall: self.wall,
        }
    }
}

/// The views of a list of outcomes.
pub open spec fn outcome_models(s: Seq<NodeOutcome>) -> Seq<OutcomeModel> {
    s.map_values(|o: NodeOutcome| o@)
}

impl RunReport {
    /// The first outcome with the id.
    pub fn get(&self, id: &str) -> (r: Option<&NodeOutcome>)
        ensures
            match r {
                Some(o) => exists|i: int|
                    {
                        &&& 0 <= i < self@.outcomes.len()
                        &&& #[trigger] self@.outcomes[i] == o@
                        &&& o@.id == id@
                        &&& forall|j: int| 0 <= j < i ==> (#[trigger] self@.outcomes[j]).id != id@
                    },
                None => forall|j: int|
                    0 <= j < self@.outcomes.len() ==> (#[trigger] self@.outcomes[j]).id != id@,
            },
    {
        for i in 0..self.outcomes.len()
            invariant
                forall|j: int| 0 <= j < i ==> (#[trigger] self@.outcomes[j]).id != id@,
        {
            if same_text(self.outcomes[i].id.as_str(), id) {
                assert(self@.outcomes[i as int] == self.outcomes@[i as int]@);
                return Some(&self.outcomes[i]);
            }
        }
        None
    }
}

/// A sink for progress. Every method does nothing unless it is overridden.
pub trait Observer: Send + Sync {
    fn on_start(&self, _id: &str) {
    }

    fn on_finish(&self, _id: &str, _state: &NodeState, _nanos: u128) {
    }

    fn on_skip(&self, _id: &str) {
    }
}

/// An observer that ignores everything.
pub struct SilentObserver;

impl Observer for SilentObserver {

}

/// The report of a run that is over.
pub open spec fn report_of(run: Run, wall: u128) -> ReportModel {
    ReportModel {
        outcomes: Seq::new(
            run.nodes.len(),
            |i: int|
                OutcomeModel {
                    id: run.nodes[i].id,
                    state: final_state(run, i),
                    duration: run.spent[i],
                },
        ),
        failed: exists|i: int| 0 <= i < run.nodes.len() && #[trigger] final_state(run, i) is Failed,
        wall,
    }
}

/// Those among the first `n` nodes that have no state, in declaration order.
pub open spec fn without_state(run: Run, n: int) -> Seq<int>
    decreases n,
{
    if n <= 0 {
        seq![]
    } else if run.state[n - 1] is None {
        without_state(run, n - 1).push(n - 1)
    } else {
        without_state(run, n - 1)
    }
}

/// The view of an optional state.
pub open spec fn state_model(s: Option<NodeState>) -> Option<StateModel> {
    match s {
        Some(s) => Some(s@),
        None => None,
    }
}

/// How many nodes may run at once where so many are asked for.
pub open spec fn usable_jobs(jobs: usize) -> nat {
    if jobs == 0 {
        1
    } else {
        jobs as nat
    }
}

/// As many nodes may run at once as are asked for, and at least one.
pub proof fn law_jobs_are_granted(jobs: usize)
    ensures
        jobs >= 1 ==> usable_jobs(jobs) == jobs,
        jobs == 0 ==> usable_jobs(jobs) == 1,
{
}

/// Machine counts as natural numbers.
pub open spec fn nats(v: Seq<usize>) -> Seq<nat> {
    v.map_values(|x: usize| x as nat)
}

/// For each node the nodes that wait for it, once per edge.
fn dependent_lists(graph: &Graph, lists: &Vec<Vec<usize>>) -> (r: Vec<Vec<usize>>)
    requires
        lists@.len() == graph@.len(),
        forall|i: int| 0 <= i < lists@.len() ==> ints((#[trigger] lists@[i])@) == deps(graph@, i),
        forall|i: int, k: int|
            0 <= i < lists@.len() && 0 <= k < lists@[i]@.len() ==> (#[trigger] lists@[i]@[k]) < graph@.len(),
    ensures
        r@.len() == graph@.len(),
        forall|j: int|
            0 <= j < r@.len() ==> ints((#[trigger] r@[j])@) == dependents(graph@, j, graph@.len() as int),
{
    let ghost g = graph@;
    let n = lists.len();
    let mut r: Vec<Vec<usize>> = Vec::new();
    for j in 0..n
        invariant
            r@.len() == j,
            forall|m: int| 0 <= m < j ==> ints((#[trigger] r@[m])@) == dependents(g, m, 0),
    {
        let empty: Vec<usize> = Vec::new();
        assert(ints(empty@) =~= dependents(g, j as int, 0));
        r.push(empty);
    }
    for i in 0..n
        invariant
            n == g.len(),
            lists@.len() == n,
            r@.len() == n,
            forall|m: int| 0 <= m < n ==> ints((#[trigger] lists@[m])@) == deps(g, m),
            forall|m: int, k: int|
                0 <= m < n && 0 <= k < lists@[m]@.len() ==> (#[trigger] lists@[m]@[k]) < n,
            forall|m: int| 0 <= m < n ==> ints((#[trigger] r@[m])@) == dependents(g, m, i as int),
    {
        let list = &lists[i];
        let ghost ds = ints(list@);
        assert forall|m: int| 0 <= m < n implies ints((#[trigger] r@[m])@) == dependents(g, m, i as int) + repeated(
            i as int,
            occurrences(ds.take(0), m),
        ) by {
            assert(ints(r@[m]@) =~= dependents(g, m, i as int) + repeated(i as int, 0));
        }
        for k in 0..list.len()
            invariant
                n == g.len(),
                i < n,
                r@.len() == n,
                ds == ints(list@),
                forall|m: int| 0 <= m < list@.len() ==> (#[trigger] list@[m]) < n,
                forall|m: int|
                    0 <= m < n ==> ints((#[trigger] r@[m])@) == dependents(g, m, i as int) + repeated(
                        i as int,
                        occurrences(ds.take(k as int), m),
                    ),
        {
            let d = list[k];
            let ghost before = r@;
            r[d].push(i);
            proof {
                assert(ds.take(k + 1).drop_last() =~= ds.take(k as int));
                assert(ds.take(k + 1).last() == d);
                assert forall|m: int| 0 <= m < n implies ints((#[trigger] r@[m])@) == dependents(g, m, i as int)
                    + repeated(i as int, occurrences(ds.take(k + 1), m)) by {
                    assert(ints(before[m]@) == dependents(g, m, i as int) + repeated(
                        i as int,
                        occurrences(ds.take(k as int), m),
                    ));
                    if m == d {
                        assert(ints(r@[m]@) =~= ints(before[m]@).push(i as int));
                        assert(ints(r@[m]@) =~= dependents(g, m, i as int) + repeated(
                            i as int,
                            occurrences(ds.take(k + 1), m),
                        ));
                    } else {
                        assert(r@[m] == before[m]);
                    }
                }
            }
        }
        proof {
            assert(ds.take(list@.len() as int) =~= ds);
            assert(ds == deps(g, i as int));
        }
    }
    r
}

/// A run in progress.
pub struct Scheduler<'a> {
    graph: &'a Graph,
    jobs: usize,
    dependents: Vec<Vec<usize>>,
    waits: Vec<usize>,
    ready: Vec<usize>,
    state: Vec<Option<NodeState>>,
    running: Vec<bool>,
    in_flight: usize,
    spent: Vec<u128>,
    cancelled: bool,
}

impl<'a> View for Scheduler<'a> {
    type V = Run;

    closed spec fn view(&self) -> Run {
        Run {
            nodes: self.graph@,
            jobs: self.jobs as nat,
            waits: nats(self.waits@),
            ready: ints(self.ready@),
            state: self.state@.map_values(|s: Option<NodeState>| state_model(s)),
            running: self.running@,
            spent: self.spent@,
            cancelled: self.cancelled,
        }
    }
}

impl<'a> Scheduler<'a> {
    /// Whether the fields have the lengths and tables that belong to the graph.
    closed spec fn shaped(&self) -> bool {
        let n = self.graph@.len();
        &&& self.dependents@.len() == n
        &&& forall|j: int|
            0 <= j < n ==> ints((#[trigger] self.dependents@[j])@) == dependents(self.graph@, j, n as int)
        &&& self.waits@.len() == n
        &&& self.state@.len() == n
        &&& self.running@.len() == n
        &&& self.spent@.len() == n
        &&& self.in_flight == count_running(self.running@)
    }

    /// What holds of a scheduler between calls.
    pub closed spec fn wf(&self) -> bool {
        self.shaped() && sound(self@)
    }

    /// Satisfies the edges to everything that waits for `i`, and adds to `log`
    /// what is skipped on the way.
    fn satisfy_dependents(&mut self, i: usize, log: &mut Vec<usize>, Ghost(n): Ghost<int>)
        requires
            old(self).shaped(),
            i < old(self)@.nodes.len(),
            !old(self)@.cancelled,
            sound_during(old(self)@, dependents(old(self)@.nodes, i as int, old(self)@.nodes.len() as int)),
            caught_up(old(self)@, n),
        ensures
            final(self).shaped(),
            final(self).graph == old(self).graph,
            (final(self)@, ints(final(log)@)) == satisfied(
                old(self)@,
                ints(old(log)@),
                dependents(old(self)@.nodes, i as int, old(self)@.nodes.len() as int),
            ),
    {
        let ghost g = self.graph@;
        let ghost len = g.len() as int;
        let ghost first = dependents(g, i as int, len);
        let ghost goal = satisfied(self@, ints(log@), first);
        let mut todo: Vec<usize> = Vec::new();
        self.push_reversed(i, &mut todo);
        proof {
            lemma_dependents(g, i as int, len, 0);
            assert(ints(todo@).reverse() =~= first);
        }
        let ghost graph = self.graph;
        while todo.len() > 0
            invariant
                self.shaped(),
                self.graph == graph,
                graph@ == g,
                self@.nodes == g,
                len == g.len(),
                !self@.cancelled,
                sound_during(self@, ints(todo@).reverse()),
                caught_up(self@, n),
                forall|k: int|
                    0 <= k < ints(todo@).reverse().len() ==> 0 <= #[trigger] ints(todo@).reverse()[k] < len,
                satisfied(self@, ints(log@), ints(todo@).reverse()) == goal,
            decreases total(self@.waits),
        {
            let ghost run = self@;
            let ghost said = ints(log@);
            let ghost agenda = ints(todo@).reverse();
            proof {
                lemma_next(run, said, agenda, n);
            }
            let d = todo[todo.len() - 1];
            let ghost before = todo@;
            todo.pop();
            proof {
                assert(ints(before).reverse()[0] == d);
                assert(ints(todo@).reverse() =~= agenda.drop_first());
                assert(run.waits[d as int] == self.waits@[d as int]);
            }
            let left = self.waits[d] - 1;
            self.waits.set(d, left);
            proof {
                assert(nats(self.waits@) =~= run.waits.update(d as int, left as nat));
                assert(self@ == (Run { waits: nats(self.waits@), ..run }));
            }
            if left == 0 {
                let nodes = self.graph.nodes();
                assert(node_models(nodes@)[d as int] == g[d as int]);
                if nodes[d].is_skipped() {
                    let ghost mid = self@;
                    self.state.set(d, Some(NodeState::Skipped));
                    proof {
                        assert(self@.state =~= mid.state.update(d as int, Some(StateModel::Skipped)));
                    }
                    log.push(d);
                    assert(ints(log@) =~= said.push(d as int));
                    let ghost rest = ints(todo@).reverse();
                    self.push_reversed(d, &mut todo);
                    assert(ints(todo@).reverse() =~= dependents(g, d as int, len) + rest);
                } else {
                    let ghost mid = self@;
                    self.ready.push(d);
                    assert(self@.ready =~= mid.ready.push(d as int));
                }
            }
            proof {
                let (r, l, a) = next(run, said, agenda);
                assert(self@ == r);
                assert(ints(log@) == l);
                assert(ints(todo@).reverse() =~= a);
            }
        }
        proof {
            assert(ints(todo@).reverse() =~= Seq::<int>::empty());
        }
    }

    /// Appends to `todo` what waits for `i`, the first one last.
    fn push_reversed(&self, i: usize, todo: &mut Vec<usize>)
        requires
            self.shaped(),
            i < self.graph@.len(),
        ensures
            ints(final(todo)@) == ints(old(todo)@) + dependents(
                self.graph@,
                i as int,
                self.graph@.len() as int,
            ).reverse(),
    {
        let list = &self.dependents[i];
        let ghost ds = dependents(self.graph@, i as int, self.graph@.len() as int);
        let ghost base = ints(todo@);
        assert(ints(list@) == ds);
        let mut k: usize = list.len();
        assert(ints(todo@) =~= base + ds.skip(k as int).reverse());
        while k > 0
            invariant
                k <= list.len(),
                ints(list@) == ds,
                ints(todo@) == base + ds.skip(k as int).reverse(),
            decreases k,
        {
            k -= 1;
            let ghost before = ints(todo@);
            todo.push(list[k]);
            proof {
                assert(ints(todo@) =~= before.push(ds[k as int]));
                assert(base + ds.skip(k as int).reverse() =~= before.push(ds[k as int]));
            }
        }
        assert(ds.skip(0) =~= ds);
    }

    /// Prepares a run of `graph` with at most `jobs` nodes at once, and at least
    /// one. The second part lists the nodes that are skipped right away, in the
    /// order in which that was found.
    pub fn new(graph: &'a Graph, jobs: usize) -> (r: (Scheduler<'a>, Vec<usize>))
        ensures
            r.0.wf(),
            r.0@.nodes == graph@,
            (r.0@, ints(r.1@)) == launched(
                graph@,
                if jobs == 0 {
                    1
                } else {
                    jobs as nat
                },
            ),
            r.0@.jobs == usable_jobs(jobs),
            !r.0@.cancelled,
            count_running(r.0@.running) == 0,
    {
        let jobs = if jobs == 0 {
            1
        } else {
            jobs
        };
        let lists = graph.dep_lists();
        let ghost g = graph@;
        let n = lists.len();
        let dependents = dependent_lists(graph, &lists);
        let mut waits: Vec<usize> = Vec::new();
        let mut state: Vec<Option<NodeState>> = Vec::new();
        let mut running: Vec<bool> = Vec::new();
        let mut spent: Vec<u128> = Vec::new();
        for i in 0..n
            invariant
                n == g.len(),
                lists@.len() == n,
                forall|m: int| 0 <= m < n ==> ints((#[trigger] lists@[m])@) == deps(g, m),
                waits@.len() == i,
                state@.len() == i,
                running@.len() == i,
                spent@.len() == i,
                forall|m: int| 0 <= m < i ==> (#[trigger] waits@[m]) as nat == deps(g, m).len(),
                forall|m: int| 0 <= m < i ==> (#[trigger] state@[m]) is None,
                forall|m: int| 0 <= m < i ==> !(#[trigger] running@[m]),
                forall|m: int| 0 <= m < i ==> (#[trigger] spent@[m]) == 0,
        {
            assert(ints(lists@[i as int]@).len() == deps(g, i as int).len());
            waits.push(lists[i].len());
            state.push(None);
            running.push(false);
            spent.push(0);
        }
        let mut s = Scheduler {
            graph,
            jobs,
            dependents,
            waits,
            ready: Vec::new(),
            state,
            running,
            in_flight: 0,
            spent,
            cancelled: false,
        };
        let mut skipped: Vec<usize> = Vec::new();
        let ghost k = jobs as nat;
        proof {
            lemma_count_none(s.running@);
            let b = blank(g, k);
            assert(s@.waits =~= b.waits);
            assert(s@.state =~= b.state);
            assert(s@.running =~= b.running);
            assert(s@.spent =~= b.spent);
            assert(s@.ready =~= b.ready);
            assert(ints(skipped@) =~= Seq::<int>::empty());
        }
        for i in 0..n
            invariant
                n == g.len(),
                lists@.len() == n,
                forall|m: int| 0 <= m < n ==> ints((#[trigger] lists@[m])@) == deps(g, m),
                s.shaped(),
                s.graph == graph,
                graph@ == g,
                s@.nodes == g,
                (s@, ints(skipped@)) == seeded(g, k, i as int),
        {
            assert(ints(lists@[i as int]@).len() == deps(g, i as int).len());
            if lists[i].len() == 0 {
                let nodes = s.graph.nodes();
                assert(node_models(nodes@)[i as int] == g[i as int]);
                let ghost run = s@;
                let ghost log = ints(skipped@);
                proof {
                    lemma_seeded(g, k, i as int);
                }
                if nodes[i].is_skipped() {
                    proof {
                        lemma_root_skipped(g, k, i as int);
                    }
                    s.state.set(i, Some(NodeState::Skipped));
                    assert(s@.state =~= run.state.update(i as int, Some(StateModel::Skipped)));
                    skipped.push(i);
                    assert(ints(skipped@) =~= log.push(i as int));
                    s.satisfy_dependents(i, &mut skipped, Ghost(i as int + 1));
                } else {
                    s.ready.push(i);
                    assert(s@.ready =~= run.ready.push(i as int));
                }
            }
        }
        proof {
            law_launch_is_sound(g, k);
            let b = blank(g, k);
            assert(only_skips(b, s@, ints(skipped@)));
            lemma_count_none(b.running);
        }
        (s, skipped)
    }

    /// How many nodes are running.
    pub fn in_flight(&self) -> (r: usize)
        requires
            self.wf(),
        ensures
            r as nat == count_running(self@.running),
    {
        self.in_flight
    }

    /// Whether the node at place `i` is running.
    pub fn is_running(&self, i: usize) -> (r: bool)
        requires
            self.wf(),
        ensures
            r == (i < self@.nodes.len() && self@.running[i as int]),
    {
        i < self.running.len() && self.running[i]
    }

    /// Starts the next ready node, if one may start, and gives its place.
    pub fn start_next(&mut self) -> (r: Option<usize>)
        requires
            old(self).wf(),
        ensures
            final(self).wf(),
            match r {
                Some(i) => may_start(old(self)@) && i == old(self)@.ready.last() && final(self)@ == started(old(self)@)
                    && i < final(self)@.nodes.len(),
                None => !may_start(old(self)@) && *final(self) == *old(self),
            },
            r is Some <==> !old(self)@.cancelled && old(self)@.ready.len() > 0 && count_running(old(self)@.running)
                < old(self)@.jobs,
            r matches Some(i) ==> {
                &&& old(self)@.ready.contains(i as int)
                &&& !old(self)@.running[i as int]
                &&& final(self)@.running == old(self)@.running.update(i as int, true)
                &&& final(self)@.ready == old(self)@.ready.drop_last()
                &&& final(self)@.state == old(self)@.state
            },
    {
        let ghost run = self@;
        if self.cancelled || self.in_flight >= self.jobs || self.ready.len() == 0 {
            return None;
        }
        let ghost before = self.ready@;
        let i = self.ready[self.ready.len() - 1];
        self.ready.pop();
        proof {
            assert(ints(before).last() == i);
            law_start_keeps_sound(run);
            lemma_count_set(run.running, i as int, true);
        }
        self.running.set(i, true);
        self.in_flight += 1;
        proof {
            assert(self@.ready =~= started(run).ready);
            assert(self@ =~= started(run));
            assert(run.ready[run.ready.len() - 1] == i);
        }
        Some(i)
    }

    /// Records that the node at place `i` has finished, after `nanos` nanoseconds.
    /// The result lists the nodes that are skipped because of that.
    pub fn finish(&mut self, i: usize, result: Result<(), String>, nanos: u128) -> (r: Vec<usize>)
        requires
            old(self).wf(),
            i < old(self)@.nodes.len(),
            old(self)@.running[i as int],
        ensures
            final(self).wf(),
            (final(self)@, ints(r@)) == finished(
                old(self)@,
                i as int,
                match result {
                    Ok(_) => None,
                    Err(message) => Some(message@),
                },
                nanos,
            ),
    {
        let ghost run = self@;
        proof {
            lemma_count_set(run.running, i as int, false);
        }
        let mut skipped: Vec<usize> = Vec::new();
        assert(ints(skipped@) =~= Seq::<int>::empty());
        self.running.set(i, false);
        self.in_flight -= 1;
        self.spent.set(i, nanos);
        match result {
            Ok(_) => {
                self.state.set(i, Some(NodeState::Done));
                proof {
                    law_finish_keeps_sound(run, i as int, None, nanos);
                    assert(self@.state =~= run.state.update(i as int, Some(StateModel::Done)));
                    assert(self@ =~= stopped(run, i as int, StateModel::Done, nanos));
                }
                if !self.cancelled {
                    proof {
                        lemma_done(run, i as int, nanos);
                    }
                    self.satisfy_dependents(i, &mut skipped, Ghost(run.nodes.len() as int));
                }
            },
            Err(message) => {
                let ghost m = message@;
                self.state.set(i, Some(NodeState::Failed(message)));
                self.cancelled = true;
                self.ready = Vec::new();
                proof {
                    law_finish_keeps_sound(run, i as int, Some(m), nanos);
                    assert(self@.state =~= run.state.update(i as int, Some(StateModel::Failed(m))));
                    assert(self@.ready =~= Seq::<int>::empty());
                    assert(self@ =~= finished(run, i as int, Some(m), nanos).0);
                }
            },
        }
        skipped
    }

    /// Ends the run once nothing is running. Nodes that never started are reported
    /// as cancelled; the second part lists them, in declaration order.
    pub fn into_report(self, wall: u128) -> (r: (RunReport, Vec<usize>))
        requires
            self.wf(),
            count_running(self@.running) == 0,
        ensures
            r.0@ == report_of(self@, wall),
            r.0@.failed == self@.cancelled,
            ints(r.1@) == without_state(self@, self@.nodes.len() as int),
    {
        let ghost run = self@;
        let nodes = self.graph.nodes();
        let mut outcomes: Vec<NodeOutcome> = Vec::new();
        let mut cancelled: Vec<usize> = Vec::new();
        let mut failed = false;
        assert(ints(cancelled@) =~= without_state(run, 0));
        for i in 0..nodes.len()
            invariant
                self.shaped(),
                run == self@,
                run.nodes == node_models(nodes@),
                outcomes@.len() == i,
                forall|m: int|
                    0 <= m < i ==> (#[trigger] outcomes@[m])@ == (OutcomeModel {
                        id: run.nodes[m].id,
                        state: final_state(run, m),
                        duration: run.spent[m],
                    }),
                failed == exists|m: int| 0 <= m < i && #[trigger] final_state(run, m) is Failed,
                ints(cancelled@) == without_state(run, i as int),
        {
            assert(run.nodes[i as int] == nodes@[i as int]@);
            assert(run.state[i as int] == state_model(self.state@[i as int]));
            let state = match &self.state[i] {
                Some(s) => {
                    if let NodeState::Failed(_) = s {
                        failed = true;
                    }
                    s.clone()
                },
                None => {
                    let ghost before = ints(cancelled@);
                    cancelled.push(i);
                    assert(ints(cancelled@) =~= before.push(i as int));
                    NodeState::Cancelled
                },
            };
            assert(state@ == final_state(run, i as int));
            outcomes.push(NodeOutcome { id: nodes[i].id.clone(), state, duration: self.spent[i] });
        }
        let report = RunReport { outcomes, failed, wall };
        proof {
            assert(report@.outcomes =~= report_of(run, wall).outcomes);
            if run.cancelled {
                let f = choose|f: int|
                    0 <= f < run.nodes.len() && #[trigger] run.state[f] is Some && run.state[f]->0 is Failed;
                assert(final_state(run, f) is Failed);
            }
            if failed {
                let f = choose|f: int| 0 <= f < run.nodes.len() && #[trigger] final_state(run, f) is Failed;
                assert(run.state[f] is Some && run.state[f]->0 is Failed);
            }
        }
        (report, cancelled)
    }
}

/// A report has one outcome per node, in declaration order: a node that got a state
/// has that one, any other is cancelled. The run has failed exactly when one of these
/// states is a failure.
pub proof fn law_report_tells_what_happened(run: Run, wall: u128)
    ensures
        report_of(run, wall).outcomes.len() == run.nodes.len(),
        report_of(run, wall).wall == wall,
        forall|i: int|
            0 <= i < run.nodes.len() ==> {
                let o = #[trigger] report_of(run, wall).outcomes[i];
                &&& o.id == run.nodes[i].id
                &&& o.duration == run.spent[i]
                &&& run.state[i] matches Some(s) ==> o.state == s
                &&& run.state[i] is None ==> o.state is Cancelled
            },
        report_of(run, wall).failed <==> exists|i: int|
            0 <= i < run.nodes.len() && (#[trigger] report_of(run, wall).outcomes[i]).state is Failed,
{
    let r = report_of(run, wall);
    assert forall|i: int| 0 <= i < run.nodes.len() implies (#[trigger] r.outcomes[i]).state == final_state(run, i) by {}
    if r.failed {
        let i = choose|i: int| 0 <= i < run.nodes.len() && #[trigger] final_state(run, i) is Failed;
        assert(r.outcomes[i].state is Failed);
    }
    if exists|i: int| 0 <= i < run.nodes.len() && (#[trigger] r.outcomes[i]).state is Failed {
        let i = choose|i: int| 0 <= i < run.nodes.len() && (#[trigger] r.outcomes[i]).state is Failed;
        assert(final_state(run, i) is Failed);
    }
}

/// The list of cancelled nodes holds exactly the nodes without a state, each once, in
/// declaration order.
pub proof fn law_cancelled_are_listed(run: Run, n: int)
    requires
        0 <= n <= run.nodes.len(),
    ensures
        forall|i: int| #[trigger] without_state(run, n).contains(i) <==> 0 <= i < n && run.state[i] is None,
        forall|a: int, b: int|
            0 <= a < b < without_state(run, n).len() ==> without_state(run, n)[a] < without_state(run, n)[b],
    decreases n,
{
    if n > 0 {
        law_cancelled_are_listed(run, n - 1);
        let f = without_state(run, n - 1);
        let all = without_state(run, n);
        assert forall|i: int| #[trigger] all.contains(i) <==> 0 <= i < n && run.state[i] is None by {
            if all.contains(i) {
                let k = all.index_of(i);
                if k < f.len() {
                    assert(f[k] == i);
                    assert(f.contains(i));
                }
            }
            if 0 <= i < n && run.state[i] is None {
                if i < n - 1 {
                    assert(f.contains(i));
                    assert(all[f.index_of(i)] == i);
                } else {
                    assert(all[f.len() as int] == i);
                }
            }
        }
        assert forall|a: int, b: int| 0 <= a < b < all.len() implies all[a] < all[b] by {
            if b == f.len() {
                assert(f.contains(f[a]));
            }
        }
    }
}

/// Every well-formed scheduler stands for a sound run, so that the laws on runs
/// hold of whatever it reports.
pub proof fn law_scheduler_is_sound(s: Scheduler)
    requires
        s.wf(),
    ensures
        sound(s@),
{
}

} // verus!
