//! What holds of a graph across its operations: restricting it and marking nodes
//! keep it valid, and neither kinds nor marks decide its order.
use vstd::prelude::*;

use crate::graph::{declares, first_at, last_at, lemma_first_at, lemma_last_at, NodeModel, When};
use crate::order::{
    all_known, cyclic, deps, drain_order, drained, first_ready, graph_error, ids_at, ids_outside,
    is_walk, law_valid_iff, lemma_resolved_contains, order_error, repeated_id, resolved,
    unique_ids, unknown_dep, unknown_name,
};
use crate::reach::{id_needed, known_from, leads, marked, needed, needed_nodes, restricted};
use crate::waves::{above, last_wave, level, wave_members, waves_of};

verus! {

/// Whether two graphs have the same ids and the same edges, in the same order.
pub open spec fn same_shape(g: Seq<NodeModel>, h: Seq<NodeModel>) -> bool {
    &&& g.len() == h.len()
    &&& forall|i: int| 0 <= i < g.len() ==> (#[trigger] g[i]).id == h[i].id && g[i].after == h[i].after
}

proof fn lemma_shape_places(g: Seq<NodeModel>, h: Seq<NodeModel>, id: Seq<char>)
    requires
        same_shape(g, h),
    ensures
        last_at(g, id) == last_at(h, id),
        first_at(g, id) == first_at(h, id),
        declares(g, id) == declares(h, id),
    decreases g.len(),
{
    lemma_last_at(g, id);
    lemma_last_at(h, id);
    if g.len() > 0 {
        assert(g[g.len() - 1].id == h[h.len() - 1].id);
        assert forall|i: int| 0 <= i < g.drop_last().len() implies (#[trigger] g.drop_last()[i]).id
            == h.drop_last()[i].id && g.drop_last()[i].after == h.drop_last()[i].after by {
            assert(g[i].id == h[i].id);
        }
        lemma_shape_places(g.drop_last(), h.drop_last(), id);
    }
}

proof fn lemma_shape_resolved(g: Seq<NodeModel>, h: Seq<NodeModel>, names: Seq<Seq<char>>)
    requires
        same_shape(g, h),
    ensures
        resolved(g, names) == resolved(h, names),
        unknown_name(g, names) == unknown_name(h, names),
    decreases names.len(),
{
    if names.len() > 0 {
        lemma_shape_resolved(g, h, names.drop_last());
        lemma_shape_places(g, h, names.last());
    }
}

proof fn lemma_shape_deps(g: Seq<NodeModel>, h: Seq<NodeModel>)
    requires
        same_shape(g, h),
    ensures
        forall|i: int| 0 <= i < g.len() ==> #[trigger] deps(g, i) == deps(h, i),
{
    assert forall|i: int| 0 <= i < g.len() implies #[trigger] deps(g, i) == deps(h, i) by {
        assert(g[i].id == h[i].id);
        lemma_shape_resolved(g, h, g[i].after);
    }
}

proof fn lemma_shape_faults(g: Seq<NodeModel>, h: Seq<NodeModel>, n: int)
    requires
        same_shape(g, h),
        n <= g.len(),
    ensures
        unknown_dep(g, n) == unknown_dep(h, n),
        repeated_id(g, n) == repeated_id(h, n),
    decreases n,
{
    if n > 0 {
        lemma_shape_faults(g, h, n - 1);
        assert(g[n - 1].id == h[n - 1].id);
        lemma_shape_resolved(g, h, g[n - 1].after);
        lemma_shape_places(g, h, g[n - 1].id);
    }
}

proof fn lemma_shape_ready(g: Seq<NodeModel>, h: Seq<NodeModel>, out: Seq<int>, k: int)
    requires
        same_shape(g, h),
        0 <= k,
    ensures
        first_ready(g, out, k) == first_ready(h, out, k),
    decreases g.len() - k,
{
    if k < g.len() {
        lemma_shape_deps(g, h);
        assert(deps(g, k) == deps(h, k));
        lemma_shape_ready(g, h, out, k + 1);
    }
}

proof fn lemma_shape_drained(g: Seq<NodeModel>, h: Seq<NodeModel>, out: Seq<int>)
    requires
        same_shape(g, h),
    ensures
        drained(g, out) == drained(h, out),
    decreases g.len() - out.len(),
{
    lemma_shape_ready(g, h, out, 0);
    if out.len() < g.len() && first_ready(g, out, 0) >= 0 {
        lemma_shape_drained(g, h, out.push(first_ready(g, out, 0)));
    }
}

proof fn lemma_shape_outside(g: Seq<NodeModel>, h: Seq<NodeModel>, done: Seq<Seq<char>>, n: int)
    requires
        same_shape(g, h),
        n <= g.len(),
    ensures
        ids_outside(g, done, n) == ids_outside(h, done, n),
    decreases n,
{
    if n > 0 {
        lemma_shape_outside(g, h, done, n - 1);
        assert(g[n - 1].id == h[n - 1].id);
    }
}

/// Ids and edges alone decide whether a graph is valid and how it is ordered:
/// what nodes do, and whether they run, plays no part.
pub proof fn law_shape_decides_order(g: Seq<NodeModel>, h: Seq<NodeModel>)
    requires
        same_shape(g, h),
    ensures
        drain_order(g) == drain_order(h),
        order_error(g) == order_error(h),
        graph_error(g) == graph_error(h),
{
    let n = g.len() as int;
    lemma_shape_faults(g, h, n);
    lemma_shape_drained(g, h, seq![]);
    crate::order::law_drain_order(g);
    let q = drain_order(g);
    assert(ids_at(g, q) =~= ids_at(h, q)) by {
        assert forall|m: int| 0 <= m < q.len() implies #[trigger] ids_at(g, q)[m] == ids_at(h, q)[m] by {
            assert(g[q[m]].id == h[q[m]].id);
        }
    }
    lemma_shape_outside(g, h, ids_at(g, q), n);
}

proof fn lemma_shape_level(g: Seq<NodeModel>, h: Seq<NodeModel>, i: int, fuel: nat)
    requires
        same_shape(g, h),
        0 <= i < g.len(),
    ensures
        level(g, i, fuel) == level(h, i, fuel),
    decreases fuel, 0nat,
{
    if fuel > 0 {
        lemma_shape_deps(g, h);
        assert(deps(g, i) == deps(h, i));
        crate::order::lemma_resolved_range(g, g[i].after);
        lemma_shape_above(g, h, deps(g, i), (fuel - 1) as nat);
    }
}

proof fn lemma_shape_above(g: Seq<NodeModel>, h: Seq<NodeModel>, ds: Seq<int>, fuel: nat)
    requires
        same_shape(g, h),
        forall|k: int| 0 <= k < ds.len() ==> 0 <= #[trigger] ds[k] < g.len(),
    ensures
        above(g, ds, fuel) == above(h, ds, fuel),
    decreases fuel, ds.len(),
{
    if ds.len() > 0 {
        assert forall|k: int| 0 <= k < ds.drop_last().len() implies 0 <= #[trigger] ds.drop_last()[k] < g.len() by {
            assert(ds.drop_last()[k] == ds[k]);
        }
        lemma_shape_above(g, h, ds.drop_last(), fuel);
        assert(0 <= ds[ds.len() - 1] < g.len());
        lemma_shape_level(g, h, ds.last(), fuel);
    }
}

proof fn lemma_shape_waves(g: Seq<NodeModel>, h: Seq<NodeModel>, w: int, n: int)
    requires
        same_shape(g, h),
        n <= g.len(),
    ensures
        last_wave(g, n) == last_wave(h, n),
        wave_members(g, w, n) == wave_members(h, w, n),
    decreases n,
{
    if n > 0 {
        lemma_shape_waves(g, h, w, n - 1);
        assert(g[n - 1].id == h[n - 1].id);
        lemma_shape_places(g, h, g[n - 1].id);
        lemma_last_at(g, g[n - 1].id);
        assert(declares(g, g[n - 1].id));
        lemma_shape_level(g, h, last_at(g, g[n - 1].id), g.len());
    }
}

/// Ids and edges alone decide the parallel schedule.
pub proof fn law_shape_decides_waves(g: Seq<NodeModel>, h: Seq<NodeModel>)
    requires
        same_shape(g, h),
    ensures
        waves_of(g) == waves_of(h),
{
    let n = g.len() as int;
    lemma_shape_waves(g, h, 0, n);
    assert forall|w: int| 0 <= w < waves_of(g).len() implies #[trigger] waves_of(g)[w] == waves_of(h)[w] by {
        lemma_shape_waves(g, h, w, n);
    }
    assert(waves_of(g) =~= waves_of(h));
}

/// Marking nodes as skipped keeps a graph as valid as it was, and its order and
/// its schedule.
pub proof fn law_skip_keeps_order(g: Seq<NodeModel>, ids: Seq<Seq<char>>)
    ensures
        graph_error(marked(g, ids)) == graph_error(g),
        drain_order(marked(g, ids)) == drain_order(g),
        waves_of(marked(g, ids)) == waves_of(g),
{
    assert(same_shape(marked(g, ids), g));
    law_shape_decides_order(marked(g, ids), g);
    law_shape_decides_waves(marked(g, ids), g);
}

/// Marking twice is marking once, and an id that is marked is one whose first
/// node never runs.
pub proof fn law_skip_settles(g: Seq<NodeModel>, ids: Seq<Seq<char>>)
    ensures
        marked(marked(g, ids), ids) == marked(g, ids),
        forall|k: int|
            0 <= k < ids.len() && declares(g, #[trigger] ids[k]) ==> marked(g, ids)[first_at(g, ids[k])].when
                == When::Never,
{
    let h = marked(g, ids);
    assert(same_shape(h, g));
    assert forall|i: int| 0 <= i < h.len() implies #[trigger] marked(h, ids)[i] == h[i] by {
        lemma_shape_places(h, g, g[i].id);
    }
    assert(marked(h, ids) =~= h);
    assert forall|k: int| 0 <= k < ids.len() && declares(g, #[trigger] ids[k]) implies h[first_at(g, ids[k])].when
        == When::Never by {
        lemma_first_at(g, ids[k]);
        assert(ids.contains(ids[k]));
    }
}

/// Where every edge is known, restricting never meets an unknown one.
pub proof fn law_known_everywhere(g: Seq<NodeModel>, targets: Seq<Seq<char>>)
    requires
        all_known(g),
    ensures
        known_from(g, targets),
{
}

/// What the restricted graph holds: a node of `g` stands in it exactly when its
/// id is needed, and nothing else does.
proof fn lemma_needed_nodes_hold(g: Seq<NodeModel>, targets: Seq<Seq<char>>, n: int)
    requires
        0 <= n <= g.len(),
    ensures
        forall|i: int|
            0 <= i < n && id_needed(g, targets, (#[trigger] g[i]).id) ==> needed_nodes(g, targets, n).contains(g[i]),
        forall|k: int|
            0 <= k < needed_nodes(g, targets, n).len() ==> stands_in(
                g,
                n,
                #[trigger] needed_nodes(g, targets, n)[k],
            ) && id_needed(g, targets, needed_nodes(g, targets, n)[k].id),
    decreases n,
{
    if n > 0 {
        lemma_needed_nodes_hold(g, targets, n - 1);
        let t = needed_nodes(g, targets, n - 1);
        let r = needed_nodes(g, targets, n);
        assert forall|i: int| 0 <= i < n && id_needed(g, targets, (#[trigger] g[i]).id) implies r.contains(g[i]) by {
            if i < n - 1 {
                assert(r[t.index_of(g[i])] == g[i]);
            } else {
                assert(r[r.len() - 1] == g[i]);
            }
        }
        assert forall|k: int| 0 <= k < r.len() implies stands_in(g, n, #[trigger] r[k]) && id_needed(
            g,
            targets,
            r[k].id,
        ) by {
            if k < t.len() {
                assert(r[k] == t[k]);
                assert(stands_in(g, n - 1, t[k]));
                let i = choose|i: int| 0 <= i < n - 1 && #[trigger] g[i] == t[k];
                assert(g[i] == r[k]);
            } else {
                assert(g[n - 1] == r[k]);
            }
        }
    }
}

/// Whether `x` is among the first `n` nodes.
pub open spec fn stands_in(g: Seq<NodeModel>, n: int, x: NodeModel) -> bool {
    exists|i: int| 0 <= i < n && #[trigger] g[i] == x
}

/// Distinct ids stay distinct.
proof fn lemma_needed_nodes_unique(g: Seq<NodeModel>, targets: Seq<Seq<char>>, n: int)
    requires
        0 <= n <= g.len(),
        unique_ids(g),
    ensures
        unique_ids(needed_nodes(g, targets, n)),
    decreases n,
{
    if n > 0 {
        lemma_needed_nodes_unique(g, targets, n - 1);
        lemma_needed_nodes_hold(g, targets, n - 1);
        let t = needed_nodes(g, targets, n - 1);
        let r = needed_nodes(g, targets, n);
        assert forall|i: int, j: int| 0 <= i < j < r.len() implies (#[trigger] r[i]).id != (#[trigger] r[j]).id by {
            assert(r[i] == t[i]);
            if j < t.len() {
                assert(r[j] == t[j]);
            } else {
                assert(stands_in(g, n - 1, t[i]));
                let m = choose|m: int| 0 <= m < n - 1 && #[trigger] g[m] == t[i];
                assert(g[m].id != g[n - 1].id);
            }
        }
    }
}

/// With distinct ids, the place of a node is where its id leads.
proof fn lemma_unique_place(g: Seq<NodeModel>, i: int)
    requires
        unique_ids(g),
        0 <= i < g.len(),
    ensures
        last_at(g, g[i].id) == i,
        first_at(g, g[i].id) == i,
{
    lemma_last_at(g, g[i].id);
    lemma_first_at(g, g[i].id);
    assert(declares(g, g[i].id));
    let a = last_at(g, g[i].id);
    let b = first_at(g, g[i].id);
    if a != i {
        assert(g[i].id != g[a].id);
    }
    if b != i {
        assert(g[b].id != g[i].id);
    }
}

/// Restricting a valid graph gives a valid graph that holds every target: what
/// a kept node waits for is kept too.
pub proof fn law_restrict_keeps_valid(g: Seq<NodeModel>, targets: Seq<Seq<char>>)
    requires
        graph_error(g) is None,
    ensures
        graph_error(restricted(g, targets)) is None,
        forall|k: int|
            0 <= k < targets.len() && declares(g, #[trigger] targets[k]) ==> declares(
                restricted(g, targets),
                targets[k],
            ),
{
    let n = g.len() as int;
    let h = restricted(g, targets);
    law_valid_iff(g);
    law_valid_iff(h);
    lemma_needed_nodes_unique(g, targets, n);
    lemma_needed_nodes_hold(g, targets, n);
    assert forall|k: int| 0 <= k < targets.len() && declares(g, #[trigger] targets[k]) implies declares(h, targets[k]) by {
        crate::reach::lemma_target_needed(g, targets, k);
        lemma_kept_declares(g, targets, targets[k]);
    }
    assert forall|i: int, k: int| 0 <= i < h.len() && 0 <= k < h[i].after.len() implies declares(
        h,
        #[trigger] h[i].after[k],
    ) by {
        assert(stands_in(g, n, h[i]));
        let m = choose|m: int| 0 <= m < n && #[trigger] g[m] == h[i];
        let dep = h[i].after[k];
        assert(declares(g, g[m].after[k]));
        lemma_unique_place(g, m);
        assert(id_needed(g, targets, h[i].id));
        let d = last_at(g, dep);
        lemma_last_at(g, dep);
        lemma_resolved_contains(g, g[m].after, d);
        crate::reach::lemma_dep_needed(g, targets, m, d);
        lemma_kept_declares(g, targets, dep);
    }
    if cyclic(h) {
        let p = choose|p: Seq<int>| #[trigger] is_walk(h, p) && p.len() >= 2 && p[0] == p[p.len() - 1];
        let q = p.map_values(|j: int| last_at(g, h[j].id));
        assert forall|k: int| 0 <= k < q.len() implies 0 <= #[trigger] q[k] < g.len() && g[q[k]] == h[p[k]] by {
            assert(0 <= p[k] < h.len());
            assert(stands_in(g, n, h[p[k]]));
            let m = choose|m: int| 0 <= m < n && #[trigger] g[m] == h[p[k]];
            lemma_unique_place(g, m);
        }
        assert forall|k: int| 0 <= k < q.len() - 1 implies deps(g, #[trigger] q[k]).contains(q[k + 1]) by {
            let a = p[k];
            let b = p[k + 1];
            assert(deps(h, p[k]).contains(p[k + 1]));
            assert(g[q[k]] == h[a]);
            assert(g[q[k + 1]] == h[b]);
            lemma_resolved_contains(h, h[a].after, b);
            let e = choose|e: int| 0 <= e < h[a].after.len() && last_at(h, #[trigger] h[a].after[e]) == b && b >= 0;
            lemma_last_at(h, h[a].after[e]);
            assert(h[b].id == h[a].after[e]);
            lemma_resolved_contains(g, g[q[k]].after, q[k + 1]);
            assert(last_at(g, g[q[k]].after[e]) == q[k + 1]);
        }
        assert(is_walk(g, q));
        assert(q[0] == q[q.len() - 1]);
        assert(cyclic(g));
    }
}

/// A needed id is declared in the restricted graph.
proof fn lemma_kept_declares(g: Seq<NodeModel>, targets: Seq<Seq<char>>, id: Seq<char>)
    requires
        id_needed(g, targets, id),
    ensures
        declares(restricted(g, targets), id),
{
    let n = g.len() as int;
    let h = restricted(g, targets);
    lemma_needed_nodes_hold(g, targets, n);
    lemma_last_at(g, id);
    let d = last_at(g, id);
    assert(g[d].id == id);
    assert(h.contains(g[d]));
    assert(h[h.index_of(g[d])].id == id);
}

} // verus!
