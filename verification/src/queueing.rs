//! The order in which nodes come to be ready.
use vstd::prelude::*;

use crate::graph::{NodeModel, When};
use crate::order::deps;
use crate::run::{
    dependents, finished, launched, next, occurrences, repeated, satisfied, seeded, stopped, Run,
    StateModel,
};

verus! {

/// Whether places ascend strictly, which is declaration order.
pub open spec fn in_order(s: Seq<int>) -> bool {
    forall|a: int, b: int| 0 <= a < b < s.len() ==> s[a] < s[b]
}

/// Whether every node of a graph is meant to run.
pub open spec fn all_run(g: Seq<NodeModel>) -> bool {
    forall|i: int| 0 <= i < g.len() ==> (#[trigger] g[i]).when != When::Never
}

/// What is ready stays ready, in its order.
proof fn lemma_ready_stays(run: Run, log: Seq<int>, agenda: Seq<int>)
    ensures
        satisfied(run, log, agenda).0.ready.len() >= run.ready.len(),
        satisfied(run, log, agenda).0.ready.take(run.ready.len() as int) == run.ready,
    decreases crate::run::total(run.waits),
{
    if agenda.len() == 0 || !(0 <= agenda[0] < run.waits.len()) || run.waits[agenda[0]] == 0 {
        assert(run.ready.take(run.ready.len() as int) =~= run.ready);
    } else {
        let (r, l, a) = next(run, log, agenda);
        crate::run::lemma_total_lowered(run.waits, agenda[0]);
        lemma_ready_stays(r, l, a);
        let all = satisfied(r, l, a).0.ready;
        let n = run.ready.len() as int;
        assert(r.ready.take(n) =~= run.ready);
        assert(all.take(n) =~= all.take(r.ready.len() as int).take(n));
    }
}

/// Finishing a node takes no node off the queue, and puts what becomes ready behind
/// what was ready before, so that it starts first.
pub proof fn law_new_work_starts_first(run: Run, i: int, nanos: u128)
    requires
        !run.cancelled,
    ensures
        finished(run, i, None, nanos).0.ready.len() >= run.ready.len(),
        finished(run, i, None, nanos).0.ready.take(run.ready.len() as int) == run.ready,
{
    let mid = stopped(run, i, StateModel::Done, nanos);
    lemma_ready_stays(mid, seq![], dependents(run.nodes, i, run.nodes.len() as int));
}

proof fn lemma_new_in_order(run: Run, log: Seq<int>, agenda: Seq<int>) -> (t: Seq<int>)
    requires
        all_run(run.nodes),
        run.waits.len() == run.nodes.len(),
        forall|a: int, b: int| 0 <= a <= b < agenda.len() ==> agenda[a] <= agenda[b],
    ensures
        satisfied(run, log, agenda).0.ready == run.ready + t,
        in_order(t),
        forall|k: int| 0 <= k < t.len() ==> agenda.len() > 0 && agenda[0] <= #[trigger] t[k] < run.waits.len(),
        forall|k: int| 0 <= k < t.len() ==> run.waits[#[trigger] t[k]] > 0,
    decreases crate::run::total(run.waits),
{
    if agenda.len() == 0 || !(0 <= agenda[0] < run.waits.len()) || run.waits[agenda[0]] == 0 {
        let t = Seq::<int>::empty();
        assert(run.ready + t =~= run.ready);
        t
    } else {
        let d = agenda[0];
        let (r, l, a) = next(run, log, agenda);
        crate::run::lemma_total_lowered(run.waits, d);
        assert(run.nodes[d].when != When::Never);
        assert(a == agenda.drop_first());
        assert forall|x: int, y: int| 0 <= x <= y < a.len() implies a[x] <= a[y] by {
            assert(agenda[x + 1] <= agenda[y + 1]);
        }
        let t = lemma_new_in_order(r, l, a);
        if a.len() > 0 {
            assert(agenda[0] <= agenda[1]);
        }
        if r.waits[d] == 0 {
            let all = seq![d] + t;
            assert(run.ready + all =~= r.ready + t);
            assert forall|x: int, y: int| 0 <= x < y < all.len() implies all[x] < all[y] by {
                assert(all[y] == t[y - 1]);
                if x == 0 {
                    assert(r.waits[t[y - 1]] > 0);
                    assert(t[y - 1] >= a[0]);
                } else {
                    assert(all[x] == t[x - 1]);
                }
            }
            assert forall|k: int| 0 <= k < all.len() implies agenda[0] <= #[trigger] all[k] < run.waits.len()
                && run.waits[all[k]] > 0 by {
                if k > 0 {
                    assert(all[k] == t[k - 1]);
                    assert(r.waits[t[k - 1]] > 0);
                    assert(t[k - 1] >= a[0]);
                }
            }
            all
        } else {
            assert forall|k: int| 0 <= k < t.len() implies agenda[0] <= #[trigger] t[k] < run.waits.len()
                && run.waits[t[k]] > 0 by {
                assert(r.waits[t[k]] > 0);
                assert(t[k] >= a[0]);
            }
            t
        }
    }
}

proof fn lemma_dependents_in_order(g: Seq<NodeModel>, j: int, n: int)
    ensures
        forall|a: int, b: int|
            0 <= a <= b < dependents(g, j, n).len() ==> dependents(g, j, n)[a] <= dependents(g, j, n)[b],
        forall|a: int| 0 <= a < dependents(g, j, n).len() ==> #[trigger] dependents(g, j, n)[a] < n,
    decreases n,
{
    if n > 0 {
        lemma_dependents_in_order(g, j, n - 1);
        let f = dependents(g, j, n - 1);
        let more = repeated(n - 1, occurrences(deps(g, n - 1), j));
        let all = dependents(g, j, n);
        assert forall|a: int, b: int| 0 <= a <= b < all.len() implies all[a] <= all[b] by {
            if b < f.len() {
                assert(all[a] == f[a] && all[b] == f[b]);
            } else {
                assert(all[b] == more[b - f.len()]);
                if a < f.len() {
                    assert(all[a] == f[a]);
                } else {
                    assert(all[a] == more[a - f.len()]);
                }
            }
        }
        assert forall|a: int| 0 <= a < all.len() implies #[trigger] all[a] < n by {
            if a < f.len() {
                assert(all[a] == f[a]);
            } else {
                assert(all[a] == more[a - f.len()]);
            }
        }
    }
}

/// Where every node is meant to run, nodes that become ready together do so in
/// declaration order.
pub proof fn law_new_work_is_in_order(run: Run, i: int, nanos: u128)
    requires
        !run.cancelled,
        all_run(run.nodes),
        run.waits.len() == run.nodes.len(),
    ensures
        in_order(finished(run, i, None, nanos).0.ready.skip(run.ready.len() as int)),
{
    let mid = stopped(run, i, StateModel::Done, nanos);
    let agenda = dependents(run.nodes, i, run.nodes.len() as int);
    lemma_dependents_in_order(run.nodes, i, run.nodes.len() as int);
    let t = lemma_new_in_order(mid, seq![], agenda);
    assert((run.ready + t).skip(run.ready.len() as int) =~= t);
}

proof fn lemma_seeded_in_order(g: Seq<NodeModel>, jobs: nat, n: int)
    requires
        all_run(g),
        0 <= n <= g.len(),
    ensures
        seeded(g, jobs, n).0.nodes == g,
        seeded(g, jobs, n).0.jobs == jobs,
        seeded(g, jobs, n).1.len() == 0,
        in_order(seeded(g, jobs, n).0.ready),
        forall|i: int| #[trigger]
            seeded(g, jobs, n).0.ready.contains(i) <==> 0 <= i < n && deps(g, i).len() == 0,
    decreases n,
{
    if n > 0 {
        lemma_seeded_in_order(g, jobs, n - 1);
        let f = seeded(g, jobs, n - 1).0.ready;
        let r = seeded(g, jobs, n).0.ready;
        assert(g[n - 1].when != When::Never);
        if deps(g, n - 1).len() == 0 {
            assert(r == f.push(n - 1));
            assert forall|i: int| #[trigger] r.contains(i) <==> 0 <= i < n && deps(g, i).len() == 0 by {
                if r.contains(i) {
                    let k = r.index_of(i);
                    if k < f.len() {
                        assert(f[k] == i);
                        assert(f.contains(i));
                    }
                }
                if f.contains(i) {
                    assert(r[f.index_of(i)] == i);
                }
                assert(r[f.len() as int] == n - 1);
            }
            assert forall|a: int, b: int| 0 <= a < b < r.len() implies r[a] < r[b] by {
                if b == f.len() {
                    assert(f.contains(f[a]));
                }
            }
        }
    }
}

/// Where every node is meant to run, a run starts with exactly the nodes that wait for
/// nothing ready, in declaration order, and skips none.
pub proof fn law_launch_is_in_order(g: Seq<NodeModel>, jobs: nat)
    requires
        all_run(g),
    ensures
        in_order(launched(g, jobs).0.ready),
        forall|i: int| #[trigger]
            launched(g, jobs).0.ready.contains(i) <==> 0 <= i < g.len() && deps(g, i).len() == 0,
        launched(g, jobs).1.len() == 0,
        launched(g, jobs).0.jobs == jobs,
{
    lemma_seeded_in_order(g, jobs, g.len() as int);
}

} // verus!
