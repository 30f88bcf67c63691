//! What holds of the order of a graph, of its schedule and of the part of it that a
//! session runs, in terms of ids and edges.
use vstd::prelude::*;

use crate::graph::{
    declares, first_at, last_at, lemma_first_at, lemma_last_at, ErrorModel, KindModel, NodeModel, When,
};
use crate::laws::{law_known_everywhere, law_skip_keeps_order};
use crate::order::{
    all_known, cyclic, deps, drain_order, graph_error, ids_at, ids_outside, is_walk,
    law_drain_order, law_drains_iff_acyclic, law_valid_iff, lemma_distinct_places,
    lemma_repeated_id, lemma_resolved_contains, lemma_resolved_range, lemma_unknown_dep,
    lemma_unknown_name, lemma_walk_outside, order_error, repeated_id, unique_ids, unknown_dep,
    unknown_name, within,
};
use crate::reach::{
    id_needed, lemma_dep_needed, lemma_target_needed, lemma_unknown_at, leads, marked, needed,
    needed_nodes, restricted, unknown_at,
};
use crate::session::{installs, restriction, session_graph, SessionErrorModel};
use crate::text::{ascending, law_ascending_permutes, law_sorted_text_ascends, text_le, text_order};
use crate::waves::{
    law_wave_is_one_behind, law_waves_hold_every_node, law_waves_respect_edges,
    last_wave, shown_in, shows, wave_members, wave_of, waves_of,
};

verus! {

/// A repeated id is reported before anything else: the first node, in declaration
/// order, that has the id of an earlier one.
pub proof fn law_repeated_ids_are_reported(g: Seq<NodeModel>)
    ensures
        graph_error(g) is Some && graph_error(g)->0 is DuplicateId <==> !unique_ids(g),
        unique_ids(g) ==> graph_error(g) == order_error(g),
        graph_error(g) matches Some(ErrorModel::DuplicateId(id)) ==> exists|i: int, j: int|
            {
                &&& 0 <= i < j < g.len()
                &&& #[trigger] g[i].id == id
                &&& #[trigger] g[j].id == id
                &&& forall|a: int, b: int| 0 <= a < b < j ==> (#[trigger] g[a]).id != (#[trigger] g[b]).id
            },
{
    let n = g.len() as int;
    lemma_repeated_id(g, n);
    lemma_repeated_found(g, n);
    lemma_order_error_kind(g);
}

proof fn lemma_order_error_kind(g: Seq<NodeModel>)
    ensures
        order_error(g) matches Some(e) ==> e is UnknownDep || e is Cycle,
{
    lemma_unknown_kind(g, g.len() as int);
}

proof fn lemma_unknown_kind(g: Seq<NodeModel>, n: int)
    ensures
        unknown_dep(g, n) matches Some(e) ==> e is UnknownDep,
    decreases n,
{
    if n > 0 {
        lemma_unknown_kind(g, n - 1);
    }
}

proof fn lemma_repeated_found(g: Seq<NodeModel>, n: int)
    requires
        0 <= n <= g.len(),
    ensures
        repeated_id(g, n) matches Some(e) ==> e is DuplicateId && exists|i: int, j: int|
            {
                &&& 0 <= i < j < n
                &&& #[trigger] g[i].id == e->DuplicateId_0
                &&& #[trigger] g[j].id == e->DuplicateId_0
                &&& forall|a: int, b: int| 0 <= a < b < j ==> (#[trigger] g[a]).id != (#[trigger] g[b]).id
            },
    decreases n,
{
    if n > 0 {
        lemma_repeated_found(g, n - 1);
        lemma_repeated_id(g, n - 1);
        if repeated_id(g, n - 1) is None && repeated_id(g, n) is Some {
            let id = g[n - 1].id;
            lemma_first_at(g, id);
            assert(declares(g, id));
            let i = first_at(g, id);
            assert(g[i].id == id && g[n - 1].id == id);
        }
    }
}

/// The first edge that leads to no node is reported, with the node that has it: no
/// earlier edge of that node, and no edge of an earlier node, leads nowhere.
pub proof fn law_unknown_edges_are_reported(g: Seq<NodeModel>)
    ensures
        order_error(g) is Some && order_error(g)->0 is UnknownDep <==> !all_known(g),
        order_error(g) matches Some(ErrorModel::UnknownDep { node, dep }) ==> exists|i: int, k: int|
            {
                &&& 0 <= i < g.len() && 0 <= k < g[i].after.len()
                &&& g[i].id == node
                &&& #[trigger] g[i].after[k] == dep
                &&& !declares(g, dep)
                &&& forall|b: int| 0 <= b < k ==> declares(g, #[trigger] g[i].after[b])
                &&& forall|a: int, b: int|
                    0 <= a < i && 0 <= b < g[a].after.len() ==> declares(g, #[trigger] g[a].after[b])
            },
{
    let n = g.len() as int;
    lemma_unknown_dep(g, n);
    lemma_unknown_kind(g, n);
    lemma_unknown_found(g, n);
}

proof fn lemma_unknown_found(g: Seq<NodeModel>, n: int)
    requires
        0 <= n <= g.len(),
    ensures
        unknown_dep(g, n) matches Some(ErrorModel::UnknownDep { node, dep }) ==> exists|i: int, k: int|
            {
                &&& 0 <= i < n && 0 <= k < g[i].after.len()
                &&& g[i].id == node
                &&& #[trigger] g[i].after[k] == dep
                &&& !declares(g, dep)
                &&& forall|b: int| 0 <= b < k ==> declares(g, #[trigger] g[i].after[b])
                &&& forall|a: int, b: int|
                    0 <= a < i && 0 <= b < g[a].after.len() ==> declares(g, #[trigger] g[a].after[b])
            },
    decreases n,
{
    if n > 0 {
        lemma_unknown_found(g, n - 1);
        lemma_unknown_dep(g, n - 1);
        if unknown_dep(g, n - 1) is None && unknown_dep(g, n) is Some {
            let names = g[n - 1].after;
            lemma_unknown_name_found(g, names);
            let k = choose|k: int|
                {
                    &&& 0 <= k < names.len()
                    &&& #[trigger] names[k] == unknown_name(g, names)->0
                    &&& !declares(g, names[k])
                    &&& forall|b: int| 0 <= b < k ==> declares(g, #[trigger] names[b])
                };
            assert(g[n - 1].after[k] == unknown_name(g, names)->0);
        }
    }
}

proof fn lemma_unknown_name_found(g: Seq<NodeModel>, names: Seq<Seq<char>>)
    ensures
        unknown_name(g, names) matches Some(dep) ==> exists|k: int|
            {
                &&& 0 <= k < names.len()
                &&& #[trigger] names[k] == dep
                &&& !declares(g, names[k])
                &&& forall|b: int| 0 <= b < k ==> declares(g, #[trigger] names[b])
            },
    decreases names.len(),
{
    if names.len() > 0 {
        let t = names.drop_last();
        lemma_unknown_name_found(g, t);
        lemma_unknown_name(g, t);
        match unknown_name(g, t) {
            Some(dep) => {
                let k = choose|k: int|
                    {
                        &&& 0 <= k < t.len()
                        &&& #[trigger] t[k] == dep
                        &&& !declares(g, t[k])
                        &&& forall|b: int| 0 <= b < k ==> declares(g, #[trigger] t[b])
                    };
                assert(names[k] == dep);
                assert forall|b: int| 0 <= b < k implies declares(g, #[trigger] names[b]) by {
                    assert(declares(g, t[b]));
                }
            },
            None => {
                if unknown_name(g, names) is Some {
                    assert(names[names.len() - 1] == names.last());
                    assert forall|b: int| 0 <= b < names.len() - 1 implies declares(g, #[trigger] names[b]) by {
                        assert(declares(g, t[b]));
                    }
                }
            },
        }
    }
}

/// Whether a walk along edges from node `i` goes on for more steps than there are nodes,
/// so that it meets a node twice.
pub open spec fn endless(g: Seq<NodeModel>, i: int) -> bool {
    exists|p: Seq<int>| #[trigger] is_walk(g, p) && p.len() > g.len() && p[0] == i
}

/// Whether the id is that of a node from which a walk is endless.
pub open spec fn tangled(g: Seq<NodeModel>, id: Seq<char>) -> bool {
    exists|i: int| 0 <= i < g.len() && (#[trigger] g[i]).id == id && endless(g, i)
}

/// Along a walk that starts at a drained node, the place in the drain order falls.
proof fn lemma_walk_falls(g: Seq<NodeModel>, p: Seq<int>, k: int)
    requires
        is_walk(g, p),
        0 <= k < p.len(),
        drain_order(g).contains(p[0]),
    ensures
        drain_order(g).contains(p[k]),
        drain_order(g).index_of(p[k]) + k <= drain_order(g).index_of(p[0]),
    decreases k,
{
    if k > 0 {
        lemma_walk_falls(g, p, k - 1);
        let q = drain_order(g);
        law_drain_order(g);
        let x = p[k - 1];
        let y = p[k];
        let m = q.index_of(x);
        assert(q[m] == x);
        assert(within(deps(g, q[m]), q.take(m)));
        assert(deps(g, x).contains(p[k - 1 + 1]));
        let e = choose|e: int| 0 <= e < deps(g, x).len() && deps(g, x)[e] == y;
        assert(q.take(m).contains(deps(g, x)[e]));
        let f = choose|f: int| 0 <= f < q.take(m).len() && q.take(m)[f] == y;
        assert(q[f] == y);
        let h = q.index_of(y);
        assert(q[h] == y);
        assert(h == f);
    }
}

proof fn lemma_endless_iff_left(g: Seq<NodeModel>, i: int)
    requires
        0 <= i < g.len(),
    ensures
        endless(g, i) <==> !drain_order(g).contains(i),
{
    let q = drain_order(g);
    law_drain_order(g);
    if endless(g, i) && q.contains(i) {
        let p = choose|p: Seq<int>| #[trigger] is_walk(g, p) && p.len() > g.len() && p[0] == i;
        let last = p.len() - 1;
        lemma_walk_falls(g, p, last);
        assert(q.index_of(p[last]) >= 0);
        assert(q.index_of(i) < q.len());
    }
    if !q.contains(i) {
        let p = lemma_walk_outside(g, q, i, g.len());
        assert(is_walk(g, p));
    }
}

/// A cycle is reported exactly where there is one and every edge is known; what is
/// reported are the nodes from which a walk is endless, in declaration order.
pub proof fn law_cycles_are_reported(g: Seq<NodeModel>)
    requires
        unique_ids(g),
    ensures
        order_error(g) is Some && order_error(g)->0 is Cycle <==> all_known(g) && cyclic(g),
        order_error(g) matches Some(ErrorModel::Cycle(ids)) ==> ids == g.map_values(|n: NodeModel| n.id).filter(
            |id: Seq<char>| tangled(g, id),
        ),
{
    let n = g.len() as int;
    lemma_unknown_dep(g, n);
    lemma_unknown_kind(g, n);
    law_drains_iff_acyclic(g);
    let all = g.map_values(|n: NodeModel| n.id);
    lemma_outside_filter(g, n);
    assert(all.take(n) =~= all);
}

proof fn lemma_outside_filter(g: Seq<NodeModel>, n: int)
    requires
        unique_ids(g),
        0 <= n <= g.len(),
    ensures
        ids_outside(g, ids_at(g, drain_order(g)), n) == g.map_values(|n: NodeModel| n.id).take(n).filter(
            |id: Seq<char>| tangled(g, id),
        ),
    decreases n,
{
    reveal(Seq::filter);
    if n > 0 {
        lemma_outside_filter(g, n - 1);
        let all = g.map_values(|n: NodeModel| n.id);
        let i = n - 1;
        let id = g[i].id;
        assert(all.take(n).drop_last() =~= all.take(n - 1));
        assert(all.take(n).last() == id);
        let q = drain_order(g);
        law_drain_order(g);
        lemma_endless_iff_left(g, i);
        let out = ids_at(g, q);
        assert(out.contains(id) <==> q.contains(i)) by {
            if out.contains(id) {
                let m = out.index_of(id);
                assert(g[q[m]].id == id);
                if q[m] != i {
                    assert(g[q[m]].id != g[i].id);
                }
            }
            if q.contains(i) {
                let m = q.index_of(i);
                assert(out[m] == id);
            }
        }
        assert(tangled(g, id) <==> endless(g, i)) by {
            if tangled(g, id) {
                let j = choose|j: int| 0 <= j < g.len() && (#[trigger] g[j]).id == id && endless(g, j);
                if j != i {
                    assert(g[j].id != g[i].id);
                }
            }
            if endless(g, i) {
                assert(g[i].id == id);
            }
        }
    }
}

/// The topological order of a valid graph holds every id once, and each one behind all
/// that it waits for.
pub proof fn law_topo_lists_every_id(g: Seq<NodeModel>, i: int, k: int)
    requires
        graph_error(g) is None,
        0 <= i < g.len(),
    ensures
        ({
            let t = ids_at(g, drain_order(g));
            &&& t.len() == g.len()
            &&& t.no_duplicates()
            &&& t.contains(g[i].id)
            &&& 0 <= k < g[i].after.len() ==> t.contains(g[i].after[k]) && t.index_of(g[i].after[k]) < t.index_of(g[i].id)
        }),
{
    law_valid_iff(g);
    let q = drain_order(g);
    let t = ids_at(g, q);
    law_drain_order(g);
    lemma_distinct_places(q, g.len() as int);
    assert(t.no_duplicates()) by {
        assert forall|a: int, b: int| 0 <= a < t.len() && 0 <= b < t.len() && a != b implies t[a] != t[b] by {
            assert(q[a] != q[b]);
            assert(g[q[a]].id != g[q[b]].id) by {
                if q[a] < q[b] {
                    assert(g[q[a]].id != g[q[b]].id);
                } else {
                    assert(g[q[b]].id != g[q[a]].id);
                }
            }
        }
    }
    assert(q.contains(i));
    let m = q.index_of(i);
    assert(t[m] == g[i].id);
    assert(t.index_of(g[i].id) == m);
    if 0 <= k < g[i].after.len() {
        let dep = g[i].after[k];
        assert(declares(g, dep));
        lemma_last_at(g, dep);
        let d = last_at(g, dep);
        lemma_resolved_contains(g, g[i].after, d);
        let e = deps(g, i).index_of(d);
        assert(within(deps(g, q[m]), q.take(m)));
        assert(q.take(m).contains(deps(g, i)[e]));
        let f = choose|f: int| 0 <= f < q.take(m).len() && q.take(m)[f] == d;
        assert(q[f] == d);
        assert(t[f] == dep);
        assert(t.index_of(dep) == f);
    }
}

/// The schedule of a valid graph: the id of every node is in exactly one wave; what the
/// node waits for is in earlier waves, and unless it is in the first wave something
/// that it waits for is in the wave before; the ids of a wave ascend strictly.
pub proof fn law_schedule_is_tight(g: Seq<NodeModel>, i: int)
    requires
        graph_error(g) is None,
        0 <= i < g.len(),
    ensures
        exists|w: int|
            {
                &&& 0 <= w < waves_of(g).len()
                &&& #[trigger] waves_of(g)[w].contains(g[i].id)
                &&& forall|v: int| 0 <= v < waves_of(g).len() && v != w ==> !(#[trigger] waves_of(g)[v]).contains(g[i].id)
                &&& forall|k: int|
                    0 <= k < g[i].after.len() ==> exists|v: int|
                        0 <= v < w && (#[trigger] waves_of(g)[v]).contains(#[trigger] g[i].after[k])
                &&& w > 0 ==> exists|k: int|
                    0 <= k < g[i].after.len() && waves_of(g)[w - 1].contains(#[trigger] g[i].after[k])
            },
{
    law_valid_iff(g);
    assert(order_error(g) is None);
    let w = shown_in(g, i) as int;
    let waves = waves_of(g);
    law_waves_hold_every_node(g, 0, g[i].id);
    law_waves_hold_every_node(g, w, g[i].id);
    lemma_own_place(g, i);
    assert(shows(g, w, g[i].id, g.len() as int)) by {
        assert(g[i].id == g[i].id && shown_in(g, i) == w);
    }
    assert forall|v: int| 0 <= v < waves.len() && v != w implies !(#[trigger] waves[v]).contains(g[i].id) by {
        law_waves_hold_every_node(g, v, g[i].id);
        if shows(g, v, g[i].id, g.len() as int) {
            let j = choose|j: int| 0 <= j < g.len() && shown_in(g, j) == v && (#[trigger] g[j]).id == g[i].id;
            assert(j == i) by {
                if j < i {
                    assert(g[j].id != g[i].id);
                }
                if i < j {
                    assert(g[i].id != g[j].id);
                }
            }
        }
    }
    assert forall|k: int| 0 <= k < g[i].after.len() implies exists|v: int|
        0 <= v < w && (#[trigger] waves[v]).contains(#[trigger] g[i].after[k]) by {
        law_waves_respect_edges(g, i, k);
        let dep = g[i].after[k];
        let d = last_at(g, dep);
        lemma_last_at(g, dep);
        assert(declares(g, dep));
        let v = shown_in(g, d) as int;
        law_waves_hold_every_node(g, v, dep);
        assert(shows(g, v, dep, g.len() as int)) by {
            assert(g[d].id == dep);
        }
        assert(waves[v].contains(g[i].after[k]));
    }
    if w > 0 {
        law_wave_is_one_behind(g, i);
        let ds = deps(g, i);
        let e = choose|e: int| 0 <= e < ds.len() && wave_of(g, #[trigger] deps(g, i)[e]) + 1 == wave_of(g, i);
        let d = ds[e];
        lemma_resolved_contains(g, g[i].after, d);
        assert(ds.contains(d));
        let k = choose|k: int| 0 <= k < g[i].after.len() && last_at(g, #[trigger] g[i].after[k]) == d && d >= 0;
        let dep = g[i].after[k];
        lemma_last_at(g, dep);
        lemma_own_place(g, d);
        law_waves_hold_every_node(g, w - 1, dep);
        assert(shows(g, w - 1, dep, g.len() as int)) by {
            assert(g[d].id == dep && shown_in(g, d) == w - 1);
        }
        assert(waves[w - 1].contains(g[i].after[k]));
    }
    assert(waves_of(g)[w].contains(g[i].id));
}

proof fn lemma_own_place(g: Seq<NodeModel>, i: int)
    requires
        unique_ids(g),
        0 <= i < g.len(),
    ensures
        last_at(g, g[i].id) == i,
        first_at(g, g[i].id) == i,
        declares(g, g[i].id),
        shown_in(g, i) == wave_of(g, i),
{
    lemma_last_at(g, g[i].id);
    lemma_first_at(g, g[i].id);
    assert(declares(g, g[i].id));
    let a = last_at(g, g[i].id);
    let b = first_at(g, g[i].id);
    if a != i {
        assert(g[i].id != g[a].id);
    }
    if b != i {
        assert(g[b].id != g[i].id);
    }
}

/// Every wave of a graph with nodes and an order has an id, and its ids ascend.
pub proof fn law_waves_are_filled(g: Seq<NodeModel>, w: int)
    requires
        graph_error(g) is None,
        g.len() > 0,
        0 <= w < waves_of(g).len(),
    ensures
        waves_of(g)[w].len() > 0,
        forall|a: int, b: int|
            0 <= a < b < waves_of(g)[w].len() ==> text_le(#[trigger] waves_of(g)[w][a], #[trigger] waves_of(g)[w][b])
                && waves_of(g)[w][a] != waves_of(g)[w][b],
    decreases waves_of(g).len() - w,
{
    broadcast use vstd::seq_lib::group_to_multiset_ensures;

    law_valid_iff(g);
    let waves = waves_of(g);
    let n = g.len() as int;
    let s = wave_members(g, w, n);
    law_sorted_text_ascends(s);
    law_ascending_permutes(s, text_order());
    lemma_members_distinct(g, w, n);
    s.lemma_multiset_has_no_duplicates();
    ascending(s, text_order()).lemma_multiset_has_no_duplicates_conv();
    if w == waves.len() - 1 {
        let i = lemma_last_wave_shown(g, n);
        law_waves_hold_every_node(g, w, g[i].id);
        assert(shows(g, w, g[i].id, n)) by {
            assert(g[i].id == g[i].id && shown_in(g, i) == w);
        }
        assert(waves[w].contains(g[i].id));
    } else {
        law_waves_are_filled(g, w + 1);
        let id = waves[w + 1][0];
        law_waves_hold_every_node(g, w + 1, id);
        assert(waves[w + 1].contains(id));
        let i = choose|i: int| 0 <= i < n && shown_in(g, i) == w + 1 && (#[trigger] g[i]).id == id;
        lemma_own_place(g, i);
        law_wave_is_one_behind(g, i);
        let ds = deps(g, i);
        let e = choose|e: int| 0 <= e < ds.len() && wave_of(g, #[trigger] deps(g, i)[e]) + 1 == wave_of(g, i);
        let d = ds[e];
        lemma_resolved_range(g, g[i].after);
        lemma_own_place(g, d);
        law_waves_hold_every_node(g, w, g[d].id);
        assert(shows(g, w, g[d].id, n)) by {
            assert(g[d].id == g[d].id && shown_in(g, d) == w);
        }
        assert(waves[w].contains(g[d].id));
    }
}

proof fn lemma_last_wave_shown(g: Seq<NodeModel>, n: int) -> (i: int)
    requires
        0 < n <= g.len(),
    ensures
        0 <= i < n,
        shown_in(g, i) == last_wave(g, n),
    decreases n,
{
    if n == 1 || shown_in(g, n - 1) > last_wave(g, n - 1) {
        reveal_with_fuel(last_wave, 2);
        n - 1
    } else {
        lemma_last_wave_shown(g, n - 1)
    }
}

proof fn lemma_members_distinct(g: Seq<NodeModel>, w: int, n: int)
    requires
        unique_ids(g),
        0 <= n <= g.len(),
    ensures
        wave_members(g, w, n).no_duplicates(),
        forall|k: int|
            0 <= k < wave_members(g, w, n).len() ==> exists|i: int|
                0 <= i < n && (#[trigger] g[i]).id == #[trigger] wave_members(g, w, n)[k],
    decreases n,
{
    if n > 0 {
        lemma_members_distinct(g, w, n - 1);
        let f = wave_members(g, w, n - 1);
        let r = wave_members(g, w, n);
        assert forall|k: int| 0 <= k < r.len() implies exists|i: int|
            0 <= i < n && (#[trigger] g[i]).id == #[trigger] r[k] by {
            if k < f.len() {
                let i = choose|i: int| 0 <= i < n - 1 && (#[trigger] g[i]).id == f[k];
                assert(g[i].id == r[k]);
            } else {
                assert(g[n - 1].id == r[k]);
            }
        }
        assert forall|a: int, b: int| 0 <= a < r.len() && 0 <= b < r.len() && a != b implies r[a] != r[b] by {
            let lo = if a < b { a } else { b };
            let hi = if a < b { b } else { a };
            assert(r[lo] == f[lo]);
            if hi == f.len() {
                let i = choose|i: int| 0 <= i < n - 1 && (#[trigger] g[i]).id == f[lo];
                assert(g[i].id != g[n - 1].id);
            } else {
                assert(r[hi] == f[hi]);
            }
        }
    }
}

/// What is needed for some targets is the least set of ids that holds the targets and
/// whatever one of its own waits for.
pub proof fn law_needed_is_least(
    g: Seq<NodeModel>,
    targets: Seq<Seq<char>>,
    keep: spec_fn(Seq<char>) -> bool,
    id: Seq<char>,
)
    requires
        graph_error(g) is None,
    ensures
        forall|k: int| 0 <= k < targets.len() && declares(g, #[trigger] targets[k]) ==> id_needed(g, targets, targets[k]),
        forall|i: int, k: int|
            0 <= i < g.len() && id_needed(g, targets, g[i].id) && 0 <= k < g[i].after.len() ==> id_needed(
                g,
                targets,
                #[trigger] g[i].after[k],
            ),
        id_needed(g, targets, id) && (forall|k: int| 0 <= k < targets.len() ==> keep(#[trigger] targets[k])) && (forall|
            i: int,
            k: int,
        |
            0 <= i < g.len() && keep(g[i].id) && 0 <= k < g[i].after.len() ==> keep(#[trigger] g[i].after[k])) ==> keep(id),
{
    law_valid_iff(g);
    assert forall|k: int| 0 <= k < targets.len() && declares(g, #[trigger] targets[k]) implies id_needed(
        g,
        targets,
        targets[k],
    ) by {
        lemma_target_needed(g, targets, k);
    }
    assert forall|i: int, k: int| 0 <= i < g.len() && id_needed(g, targets, g[i].id) && 0 <= k
        < g[i].after.len() implies id_needed(g, targets, #[trigger] g[i].after[k]) by {
        lemma_own_place(g, i);
        let dep = g[i].after[k];
        assert(declares(g, dep));
        lemma_last_at(g, dep);
        lemma_resolved_contains(g, g[i].after, last_at(g, dep));
        lemma_dep_needed(g, targets, i, last_at(g, dep));
    }
    if id_needed(g, targets, id) && (forall|k: int| 0 <= k < targets.len() ==> keep(#[trigger] targets[k])) && (forall|
        i: int,
        k: int,
    | 0 <= i < g.len() && keep(g[i].id) && 0 <= k < g[i].after.len() ==> keep(#[trigger] g[i].after[k])) {
        let j = last_at(g, id);
        lemma_last_at(g, id);
        let p = choose|p: Seq<int>| #[trigger] is_walk(g, p) && leads(g, targets, p, j);
        lemma_walk_kept(g, targets, keep, p, p.len() - 1);
    }
}

proof fn lemma_walk_kept(
    g: Seq<NodeModel>,
    targets: Seq<Seq<char>>,
    keep: spec_fn(Seq<char>) -> bool,
    p: Seq<int>,
    m: int,
)
    requires
        is_walk(g, p),
        0 <= m < p.len(),
        targets.contains(g[p[0]].id),
        forall|k: int| 0 <= k < targets.len() ==> keep(#[trigger] targets[k]),
        forall|i: int, k: int|
            0 <= i < g.len() && keep(g[i].id) && 0 <= k < g[i].after.len() ==> keep(#[trigger] g[i].after[k]),
    ensures
        keep(g[p[m]].id),
    decreases m,
{
    if m == 0 {
        let k = targets.index_of(g[p[0]].id);
        assert(keep(targets[k]));
    } else {
        lemma_walk_kept(g, targets, keep, p, m - 1);
        let i = p[m - 1];
        assert(0 <= p[m - 1] < g.len());
        assert(deps(g, p[m - 1]).contains(p[m - 1 + 1]));
        let d = p[m];
        lemma_resolved_contains(g, g[i].after, d);
        let k = choose|k: int| 0 <= k < g[i].after.len() && last_at(g, #[trigger] g[i].after[k]) == d && d >= 0;
        lemma_last_at(g, g[i].after[k]);
        assert(keep(g[i].after[k]));
    }
}

/// Restricting a graph keeps exactly the nodes whose id is needed, unchanged and in
/// declaration order.
pub proof fn law_restricting_filters(g: Seq<NodeModel>, targets: Seq<Seq<char>>)
    ensures
        restricted(g, targets) == g.filter(|n: NodeModel| id_needed(g, targets, n.id)),
{
    lemma_needed_filter(g, targets, g.len() as int);
    assert(g.take(g.len() as int) =~= g);
}

proof fn lemma_needed_filter(g: Seq<NodeModel>, targets: Seq<Seq<char>>, n: int)
    requires
        0 <= n <= g.len(),
    ensures
        needed_nodes(g, targets, n) == g.take(n).filter(|n: NodeModel| id_needed(g, targets, n.id)),
    decreases n,
{
    reveal(Seq::filter);
    if n > 0 {
        lemma_needed_filter(g, targets, n - 1);
        assert(g.take(n).drop_last() =~= g.take(n - 1));
        assert(g.take(n).last() == g[n - 1]);
    }
}

/// Skipping marks exactly the named nodes as never running, and changes nothing else of
/// any node.
pub proof fn law_skipping_only_marks(g: Seq<NodeModel>, ids: Seq<Seq<char>>, i: int)
    requires
        unique_ids(g),
        0 <= i < g.len(),
    ensures
        marked(g, ids).len() == g.len(),
        marked(g, ids)[i].id == g[i].id,
        marked(g, ids)[i].after == g[i].after,
        marked(g, ids)[i].kind == g[i].kind,
        ids.contains(g[i].id) ==> marked(g, ids)[i].when == When::Never,
        !ids.contains(g[i].id) ==> marked(g, ids)[i].when == g[i].when,
{
    lemma_own_place(g, i);
}

/// Which nodes a session is restricted to: a named node takes precedence over a list,
/// and an empty list restricts nothing.
pub proof fn law_restriction_precedence(node: Option<Seq<char>>, only: Seq<Seq<char>>)
    ensures
        node matches Some(id) ==> restriction(node, only) == Some(seq![id]),
        node is None && only.len() > 0 ==> restriction(node, only) == Some(only),
        node is None && only.len() == 0 ==> restriction(node, only) is None,
{
}

/// Whether `k` is the place of the first name that no node of the graph has.
pub open spec fn first_unknown(g: Seq<NodeModel>, names: Seq<Seq<char>>, k: int) -> bool {
    &&& 0 <= k < names.len()
    &&& !declares(g, names[k])
    &&& forall|j: int| 0 <= j < k ==> declares(g, #[trigger] names[j])
}

/// Whether `h` is the graph `g` with exactly the named nodes skipped.
pub open spec fn skips_exactly(g: Seq<NodeModel>, skip: Seq<Seq<char>>, h: Seq<NodeModel>) -> bool {
    &&& h.len() == g.len()
    &&& forall|i: int|
        0 <= i < g.len() ==> {
            &&& (#[trigger] h[i]).id == g[i].id && h[i].after == g[i].after && h[i].kind == g[i].kind
            &&& skip.contains(g[i].id) ==> h[i].when == When::Never
            &&& !skip.contains(g[i].id) ==> h[i].when == g[i].when
        }
}

/// A session on a valid graph: an unknown target is refused, the first one; then an
/// unknown node to skip, the first one; otherwise it runs what the targets need, or
/// everything where there are none, with exactly the named nodes skipped.
pub proof fn law_session_is_what_was_asked(
    g: Seq<NodeModel>,
    targets: Option<Seq<Seq<char>>>,
    skip: Seq<Seq<char>>,
    k: int,
)
    requires
        graph_error(g) is None,
    ensures
        ({
            let s = session_graph(g, targets, skip);
            let base = match targets {
                Some(names) => g.filter(|n: NodeModel| id_needed(g, names, n.id)),
                None => g,
            };
            let known = targets matches Some(names) ==> forall|j: int|
                0 <= j < names.len() ==> declares(g, #[trigger] names[j]);
            &&& targets matches Some(names) ==> first_unknown(g, names, k) ==> s == Err::<
                Seq<NodeModel>,
                SessionErrorModel,
            >(SessionErrorModel::Target(ErrorModel::UnknownNode(names[k])))
            &&& known && first_unknown(base, skip, k) ==> s == Err::<Seq<NodeModel>, SessionErrorModel>(
                SessionErrorModel::Skip(ErrorModel::UnknownNode(skip[k])),
            )
            &&& known && (forall|j: int| 0 <= j < skip.len() ==> declares(base, #[trigger] skip[j])) ==> s is Ok
                && skips_exactly(base, skip, s->Ok_0)
        }),
{
    law_valid_iff(g);
    match targets {
        Some(names) => {
            lemma_unknown_at(g, names);
            law_restricting_filters(g, names);
            law_known_everywhere(g, names);
            crate::laws::law_restrict_keeps_valid(g, names);
            if first_unknown(g, names, k) {
                lemma_unknown_place(g, names, k);
            }
            let known = forall|j: int| 0 <= j < names.len() ==> declares(g, #[trigger] names[j]);
            if known {
                assert(unknown_at(g, names) == names.len()) by {
                    if unknown_at(g, names) < names.len() {
                        assert(declares(g, names[unknown_at(g, names)]));
                    }
                }
                lemma_skipping(restricted(g, names), skip, k);
            }
        },
        None => {
            lemma_skipping(g, skip, k);
        },
    }
}

proof fn lemma_unknown_place(g: Seq<NodeModel>, names: Seq<Seq<char>>, k: int)
    requires
        first_unknown(g, names, k),
    ensures
        unknown_at(g, names) == k,
{
    lemma_unknown_at(g, names);
    let u = unknown_at(g, names);
    if u < k {
        assert(declares(g, names[u]));
    }
    if k < u {
        assert(declares(g, names[k]));
    }
}

proof fn lemma_skipping(g: Seq<NodeModel>, skip: Seq<Seq<char>>, k: int)
    requires
        graph_error(g) is None,
    ensures
        ({
            let s = crate::session::skipping(g, skip);
            &&& first_unknown(g, skip, k) ==> s == Err::<Seq<NodeModel>, SessionErrorModel>(
                SessionErrorModel::Skip(ErrorModel::UnknownNode(skip[k])),
            )
            &&& (forall|j: int| 0 <= j < skip.len() ==> declares(g, #[trigger] skip[j])) ==> s is Ok && skips_exactly(
                g,
                skip,
                s->Ok_0,
            )
        }),
{
    law_valid_iff(g);
    lemma_unknown_at(g, skip);
    law_skip_keeps_order(g, skip);
    if first_unknown(g, skip, k) {
        lemma_unknown_place(g, skip, k);
    }
    if forall|j: int| 0 <= j < skip.len() ==> declares(g, #[trigger] skip[j]) {
        assert(unknown_at(g, skip) == skip.len()) by {
            if unknown_at(g, skip) < skip.len() {
                assert(declares(g, skip[unknown_at(g, skip)]));
            }
        }
        let h = marked(g, skip);
        assert forall|i: int| 0 <= i < g.len() implies {
            &&& (#[trigger] h[i]).id == g[i].id && h[i].after == g[i].after && h[i].kind == g[i].kind
            &&& skip.contains(g[i].id) ==> h[i].when == When::Never
            &&& !skip.contains(g[i].id) ==> h[i].when == g[i].when
        } by {
            law_skipping_only_marks(g, skip, i);
        }
    }
}

/// A session whose ids are all known is refused exactly where what is left of the graph
/// is not valid, for that reason; marks play no part in that.
pub proof fn law_sessions_are_judged(g: Seq<NodeModel>, targets: Option<Seq<Seq<char>>>, skip: Seq<Seq<char>>)
    ensures
        ({
            let s = session_graph(g, targets, skip);
            let base = match targets {
                Some(names) => g.filter(|n: NodeModel| id_needed(g, names, n.id)),
                None => g,
            };
            let known = (targets matches Some(names) ==> forall|j: int|
                0 <= j < names.len() ==> declares(g, #[trigger] names[j])) && forall|j: int|
                0 <= j < skip.len() ==> declares(base, #[trigger] skip[j]);
            &&& known ==> (graph_error(base) matches Some(e) ==> s == Err::<Seq<NodeModel>, SessionErrorModel>(
                SessionErrorModel::Invalid(e),
            ))
            &&& known && graph_error(base) is None ==> s is Ok
            &&& !known ==> s is Err && !(s->Err_0 is Invalid)
        }),
{
    let base = match targets {
        Some(names) => g.filter(|n: NodeModel| id_needed(g, names, n.id)),
        None => g,
    };
    lemma_unknown_at(base, skip);
    law_skip_keeps_order(base, skip);
    if forall|j: int| 0 <= j < skip.len() ==> declares(base, #[trigger] skip[j]) {
        if unknown_at(base, skip) < skip.len() {
            assert(declares(base, skip[unknown_at(base, skip)]));
        }
    }
    match targets {
        Some(names) => {
            law_restricting_filters(g, names);
            lemma_unknown_at(g, names);
            if forall|j: int| 0 <= j < names.len() ==> declares(g, #[trigger] names[j]) {
                if unknown_at(g, names) < names.len() {
                    assert(declares(g, names[unknown_at(g, names)]));
                }
            }
        },
        None => {},
    }
}

/// Where an id occurs more than once, skipping it marks its first node alone.
pub proof fn law_skipping_marks_the_first(g: Seq<NodeModel>, ids: Seq<Seq<char>>, i: int)
    requires
        0 <= i < g.len(),
    ensures
        ({
            let first = forall|j: int| 0 <= j < i ==> (#[trigger] g[j]).id != g[i].id;
            let r = marked(g, ids)[i];
            &&& r.id == g[i].id && r.after == g[i].after && r.kind == g[i].kind
            &&& first && ids.contains(g[i].id) ==> r.when == When::Never
            &&& !(first && ids.contains(g[i].id)) ==> r == g[i]
        }),
{
    lemma_first_at(g, g[i].id);
    assert(declares(g, g[i].id));
    if forall|j: int| 0 <= j < i ==> (#[trigger] g[j]).id != g[i].id {
        crate::graph::lemma_first_at_is(g, g[i].id, i);
    } else {
        let j = choose|j: int| 0 <= j < i && (#[trigger] g[j]).id == g[i].id;
        if first_at(g, g[i].id) == i {
            assert(g[j].id != g[i].id);
        }
    }
}

/// What is kept of a list of ids is a filter of the graph by id.
pub proof fn law_retaining_filters(g: Seq<NodeModel>, ids: Seq<Seq<char>>, n: int)
    requires
        0 <= n <= g.len(),
    ensures
        crate::graph::nodes_among(g, ids, n) == g.take(n).filter(|x: NodeModel| ids.contains(x.id)),
    decreases n,
{
    reveal(Seq::filter);
    if n > 0 {
        law_retaining_filters(g, ids, n - 1);
        assert(g.take(n).drop_last() =~= g.take(n - 1));
        assert(g.take(n).last() == g[n - 1]);
    }
}

/// A run installs the packages exactly where some installing step of its graph runs.
pub proof fn law_installing_steps_count(g: Seq<NodeModel>)
    ensures
        installs(g) <==> exists|i: int|
            0 <= i < g.len() && (#[trigger] g[i]).when == When::Always && (g[i].kind matches KindModel::Native(step)
                && step is ComposerInstall),
{
    if installs(g) {
        let i = choose|i: int|
            0 <= i < g.len() && (#[trigger] g[i]).when != When::Never && g[i].kind is Native && g[i].kind->Native_0
                is ComposerInstall;
        assert(g[i].when == When::Always);
    }
}

} // verus!
