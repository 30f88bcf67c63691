//! Ordering a graph: its edges, the order in which nodes can be drained,
//! dependency cycles, and validation.
use vstd::prelude::*;
use vstd::set_lib::*;

use crate::graph::{
    declares, first_at, last_at, lemma_first_at, lemma_last_at, node_models, ErrorModel, Graph,
    GraphError, NodeModel,
};
use crate::text::{contains_text, same_text, texts};

verus! {

/// Machine indices as integers.
pub open spec fn ints(v: Seq<usize>) -> Seq<int> {
    v.map_values(|x: usize| x as int)
}

/// The places that the known names among `names` lead to.
pub open spec fn resolved(g: Seq<NodeModel>, names: Seq<Seq<char>>) -> Seq<int>
    decreases names.len(),
{
    if names.len() == 0 {
        seq![]
    } else {
        let r = resolved(g, names.drop_last());
        let k = last_at(g, names.last());
        if k >= 0 {
            r.push(k)
        } else {
            r
        }
    }
}

/// The nodes that node `i` waits for, once per edge.
pub open spec fn deps(g: Seq<NodeModel>, i: int) -> Seq<int> {
    resolved(g, g[i].after)
}

/// Whether every item of `s` occurs in `done`.
pub open spec fn within(s: Seq<int>, done: Seq<int>) -> bool {
    forall|k: int| 0 <= k < s.len() ==> done.contains(#[trigger] s[k])
}

/// Whether every edge of the graph leads to a declared node.
pub open spec fn all_known(g: Seq<NodeModel>) -> bool {
    forall|i: int, k: int|
        0 <= i < g.len() && 0 <= k < g[i].after.len() ==> declares(g, #[trigger] g[i].after[k])
}

/// Whether no id occurs twice.
pub open spec fn unique_ids(g: Seq<NodeModel>) -> bool {
    forall|i: int, j: int| 0 <= i < j < g.len() ==> (#[trigger] g[i]).id != (#[trigger] g[j]).id
}

/// Whether node `i` is ready where the nodes in `out` have been drained: it is not
/// out itself, and everything that it waits for is.
pub open spec fn is_ready(g: Seq<NodeModel>, out: Seq<int>, i: int) -> bool {
    !out.contains(i) && within(deps(g, i), out)
}

/// The first declared node from place `k` on that is ready, or -1.
pub open spec fn first_ready(g: Seq<NodeModel>, out: Seq<int>, k: int) -> int
    decreases g.len() - k,
{
    if k >= g.len() {
        -1
    } else if is_ready(g, out, k) {
        k
    } else {
        first_ready(g, out, k + 1)
    }
}

/// `out` after everything that can be drained behind it has been, each time the
/// first declared of the ready nodes.
pub open spec fn drained(g: Seq<NodeModel>, out: Seq<int>) -> Seq<int>
    decreases g.len() - out.len(),
{
    if out.len() >= g.len() || first_ready(g, out, 0) < 0 {
        out
    } else {
        drained(g, out.push(first_ready(g, out, 0)))
    }
}

/// The nodes that can be drained, in the order in which they are: ready nodes are
/// always drained in declaration order.
pub open spec fn drain_order(g: Seq<NodeModel>) -> Seq<int> {
    drained(g, seq![])
}

/// The ids of the nodes at the given places.
pub open spec fn ids_at(g: Seq<NodeModel>, places: Seq<int>) -> Seq<Seq<char>> {
    places.map_values(|i: int| g[i].id)
}

/// The first of `names` that no node has.
pub open spec fn unknown_name(g: Seq<NodeModel>, names: Seq<Seq<char>>) -> Option<Seq<char>>
    decreases names.len(),
{
    if names.len() == 0 {
        None
    } else {
        match unknown_name(g, names.drop_last()) {
            Some(d) => Some(d),
            None => if declares(g, names.last()) {
                None
            } else {
                Some(names.last())
            },
        }
    }
}

/// The first edge to an unknown node among the first `n` nodes.
pub open spec fn unknown_dep(g: Seq<NodeModel>, n: int) -> Option<ErrorModel>
    decreases n,
{
    if n <= 0 {
        None
    } else {
        match unknown_dep(g, n - 1) {
            Some(e) => Some(e),
            None => match unknown_name(g, g[n - 1].after) {
                Some(dep) => Some(ErrorModel::UnknownDep { node: g[n - 1].id, dep }),
                None => None,
            },
        }
    }
}

/// The ids among the first `n` nodes that are not in `done`.
pub open spec fn ids_outside(g: Seq<NodeModel>, done: Seq<Seq<char>>, n: int) -> Seq<Seq<char>>
    decreases n,
{
    if n <= 0 {
        seq![]
    } else if done.contains(g[n - 1].id) {
        ids_outside(g, done, n - 1)
    } else {
        ids_outside(g, done, n - 1).push(g[n - 1].id)
    }
}

/// Why the graph has no order, if it has none.
pub open spec fn order_error(g: Seq<NodeModel>) -> Option<ErrorModel> {
    match unknown_dep(g, g.len() as int) {
        Some(e) => Some(e),
        None => if drain_order(g).len() == g.len() {
            None
        } else {
            Some(ErrorModel::Cycle(ids_outside(g, ids_at(g, drain_order(g)), g.len() as int)))
        },
    }
}

/// The first id among the first `n` nodes that an earlier node has too.
pub open spec fn repeated_id(g: Seq<NodeModel>, n: int) -> Option<ErrorModel>
    decreases n,
{
    if n <= 0 {
        None
    } else {
        match repeated_id(g, n - 1) {
            Some(e) => Some(e),
            None => if first_at(g, g[n - 1].id) < n - 1 {
                Some(ErrorModel::DuplicateId(g[n - 1].id))
            } else {
                None
            },
        }
    }
}

/// Why the graph is invalid, if it is.
pub open spec fn graph_error(g: Seq<NodeModel>) -> Option<ErrorModel> {
    match repeated_id(g, g.len() as int) {
        Some(e) => Some(e),
        None => order_error(g),
    }
}

/// A walk along edges: each node waits for the next one.
pub open spec fn is_walk(g: Seq<NodeModel>, p: Seq<int>) -> bool {
    &&& forall|k: int| 0 <= k < p.len() ==> 0 <= #[trigger] p[k] < g.len()
    &&& forall|k: int| 0 <= k < p.len() - 1 ==> deps(g, #[trigger] p[k]).contains(p[k + 1])
}

/// Whether some walk comes back to where it started.
pub open spec fn cyclic(g: Seq<NodeModel>) -> bool {
    exists|p: Seq<int>| #[trigger] is_walk(g, p) && p.len() >= 2 && p[0] == p[p.len() - 1]
}

/// Resolved places are places of the graph.
pub proof fn lemma_resolved_range(g: Seq<NodeModel>, names: Seq<Seq<char>>)
    ensures
        resolved(g, names).len() <= names.len(),
        forall|k: int| 0 <= k < resolved(g, names).len() ==> 0 <= #[trigger] resolved(g, names)[k] < g.len(),
    decreases names.len(),
{
    if names.len() > 0 {
        lemma_resolved_range(g, names.drop_last());
        lemma_last_at(g, names.last());
    }
}

/// A known name is among the resolved places, and each of these comes from one.
pub proof fn lemma_resolved_contains(g: Seq<NodeModel>, names: Seq<Seq<char>>, d: int)
    ensures
        resolved(g, names).contains(d) <==> exists|k: int|
            0 <= k < names.len() && last_at(g, #[trigger] names[k]) == d && d >= 0,
    decreases names.len(),
{
    if names.len() > 0 {
        let t = names.drop_last();
        let r = resolved(g, t);
        let all = resolved(g, names);
        lemma_resolved_contains(g, t, d);
        let last = last_at(g, names.last());
        if all.contains(d) {
            let k = choose|k: int| 0 <= k < all.len() && all[k] == d;
            if k < r.len() {
                assert(r[k] == d);
                let m = choose|m: int| 0 <= m < t.len() && last_at(g, #[trigger] t[m]) == d && d >= 0;
                assert(last_at(g, names[m]) == d);
            } else {
                assert(last_at(g, names[names.len() - 1]) == d);
            }
        }
        if exists|k: int| 0 <= k < names.len() && last_at(g, #[trigger] names[k]) == d && d >= 0 {
            let k = choose|k: int| 0 <= k < names.len() && last_at(g, #[trigger] names[k]) == d && d >= 0;
            if k < t.len() {
                assert(last_at(g, t[k]) == d);
                let m = choose|m: int| 0 <= m < r.len() && r[m] == d;
                assert(all[m] == d);
            } else {
                assert(all[all.len() - 1] == d);
            }
        }
    }
}

/// `unknown_name` reports nothing exactly when every name is known.
pub proof fn lemma_unknown_name(g: Seq<NodeModel>, names: Seq<Seq<char>>)
    ensures
        unknown_name(g, names) is None <==> forall|k: int|
            0 <= k < names.len() ==> declares(g, #[trigger] names[k]),
    decreases names.len(),
{
    if names.len() > 0 {
        let t = names.drop_last();
        lemma_unknown_name(g, t);
        if forall|k: int| 0 <= k < names.len() ==> declares(g, #[trigger] names[k]) {
            assert(declares(g, names[names.len() - 1]));
            assert forall|k: int| 0 <= k < t.len() implies declares(g, #[trigger] t[k]) by {
                assert(declares(g, names[k]));
            }
        }
        if unknown_name(g, names) is None {
            assert forall|k: int| 0 <= k < names.len() implies declares(g, #[trigger] names[k]) by {
                if k < t.len() {
                    assert(declares(g, t[k]));
                }
            }
        }
    }
}

/// `unknown_dep` reports nothing exactly when the edges of the first `n` nodes
/// are known.
pub proof fn lemma_unknown_dep(g: Seq<NodeModel>, n: int)
    requires
        n <= g.len(),
    ensures
        unknown_dep(g, n) is None <==> forall|i: int, k: int|
            0 <= i < n && 0 <= k < g[i].after.len() ==> declares(g, #[trigger] g[i].after[k]),
    decreases n,
{
    if n > 0 {
        lemma_unknown_dep(g, n - 1);
        lemma_unknown_name(g, g[n - 1].after);
    }
}

/// `repeated_id` reports nothing exactly when the first `n` ids are distinct.
pub proof fn lemma_repeated_id(g: Seq<NodeModel>, n: int)
    requires
        n <= g.len(),
    ensures
        repeated_id(g, n) is None <==> forall|i: int, j: int|
            0 <= i < j < n ==> (#[trigger] g[i]).id != (#[trigger] g[j]).id,
    decreases n,
{
    if n > 0 {
        lemma_repeated_id(g, n - 1);
        let id = g[n - 1].id;
        lemma_first_at(g, id);
        assert(declares(g, id));
        if repeated_id(g, n) is None {
            assert forall|i: int, j: int| 0 <= i < j < n implies (#[trigger] g[i]).id != (#[trigger] g[j]).id by {
                if j == n - 1 {
                    assert(g[i].id != id);
                }
            }
        } else if repeated_id(g, n - 1) is None {
            let f = first_at(g, id);
            assert(g[f].id == g[n - 1].id);
        }
    }
}

/// Whether each node of `out` was the first declared ready one when it was drained.
pub open spec fn in_declaration_order(g: Seq<NodeModel>, out: Seq<int>) -> bool {
    forall|k: int|
        0 <= k < out.len() ==> {
            &&& 0 <= #[trigger] out[k] < g.len()
            &&& is_ready(g, out.take(k), out[k])
            &&& forall|i: int| 0 <= i < out[k] ==> !#[trigger] is_ready(g, out.take(k), i)
        }
}

/// Distinct places number at most as many as the graph has nodes.
pub proof fn lemma_distinct_places(q: Seq<int>, n: int)
    requires
        n >= 0,
        q.no_duplicates(),
        forall|m: int| 0 <= m < q.len() ==> 0 <= #[trigger] q[m] < n,
    ensures
        q.len() <= n,
        q.len() == n ==> forall|j: int| 0 <= j < n ==> q.contains(j),
{
    q.unique_seq_to_set();
    lemma_int_range(0, n);
    let all = set_int_range(0, n);
    assert(q.to_set().subset_of(all)) by {
        assert forall|x: int| q.to_set().contains(x) implies all.contains(x) by {
            let m = choose|m: int| 0 <= m < q.len() && q[m] == x;
            assert(0 <= q[m] < n);
        }
    }
    lemma_len_subset(q.to_set(), all);
    if q.len() == n {
        lemma_subset_equality(q.to_set(), all);
        assert forall|j: int| 0 <= j < n implies q.contains(j) by {
            assert(all.contains(j));
            assert(q.to_set().contains(j));
        }
    }
}

/// What [`first_ready`] finds.
pub proof fn lemma_first_ready(g: Seq<NodeModel>, out: Seq<int>, k: int)
    requires
        0 <= k,
    ensures
        first_ready(g, out, k) < 0 ==> forall|i: int| k <= i < g.len() ==> !#[trigger] is_ready(g, out, i),
        first_ready(g, out, k) >= 0 ==> {
            &&& k <= first_ready(g, out, k) < g.len()
            &&& is_ready(g, out, first_ready(g, out, k))
            &&& forall|i: int| k <= i < first_ready(g, out, k) ==> !#[trigger] is_ready(g, out, i)
        },
    decreases g.len() - k,
{
    if k < g.len() && !is_ready(g, out, k) {
        lemma_first_ready(g, out, k + 1);
    }
}

/// Places that were drained in declaration order are distinct.
pub proof fn lemma_drained_distinct(g: Seq<NodeModel>, out: Seq<int>)
    requires
        in_declaration_order(g, out),
    ensures
        out.no_duplicates(),
        out.len() <= g.len(),
        out.len() == g.len() ==> forall|j: int| 0 <= j < g.len() ==> out.contains(j),
{
    assert forall|a: int, b: int| 0 <= a < out.len() && 0 <= b < out.len() && a != b implies out[a] != out[b] by {
        let lo = if a < b { a } else { b };
        let hi = if a < b { b } else { a };
        assert(out.take(hi)[lo] == out[lo]);
        assert(is_ready(g, out.take(hi), out[hi]));
    }
    lemma_distinct_places(out, g.len() as int);
}

/// Draining the first declared ready node keeps the declaration order.
pub proof fn lemma_drain_one(g: Seq<NodeModel>, out: Seq<int>)
    requires
        in_declaration_order(g, out),
        first_ready(g, out, 0) >= 0,
    ensures
        in_declaration_order(g, out.push(first_ready(g, out, 0))),
        out.len() < g.len(),
{
    let i = first_ready(g, out, 0);
    let r = out.push(i);
    lemma_first_ready(g, out, 0);
    assert forall|k: int| 0 <= k < r.len() implies {
        &&& 0 <= #[trigger] r[k] < g.len()
        &&& is_ready(g, r.take(k), r[k])
        &&& forall|j: int| 0 <= j < r[k] ==> !#[trigger] is_ready(g, r.take(k), j)
    } by {
        assert(r.take(k) =~= out.take(k));
        if k < out.len() {
            assert(r[k] == out[k]);
        } else {
            assert(out.take(k) =~= out);
        }
    }
    lemma_drained_distinct(g, out);
}

/// Draining goes on until nothing is ready any more.
pub proof fn lemma_drained(g: Seq<NodeModel>, out: Seq<int>)
    requires
        in_declaration_order(g, out),
    ensures
        in_declaration_order(g, drained(g, out)),
        forall|j: int| 0 <= j < g.len() ==> !#[trigger] is_ready(g, drained(g, out), j),
    decreases g.len() - out.len(),
{
    lemma_first_ready(g, out, 0);
    lemma_drained_distinct(g, out);
    if out.len() < g.len() && first_ready(g, out, 0) >= 0 {
        lemma_drain_one(g, out);
        lemma_drained(g, out.push(first_ready(g, out, 0)));
    }
}

/// Ready nodes are always drained in declaration order: at each step the drained
/// node is the first declared one that is not out and for which everything that it
/// waits for is out. Draining ends when no node is ready.
pub proof fn law_ready_in_declaration_order(g: Seq<NodeModel>)
    ensures
        in_declaration_order(g, drain_order(g)),
        forall|j: int| 0 <= j < g.len() ==> !#[trigger] is_ready(g, drain_order(g), j),
{
    lemma_drained(g, seq![]);
}

/// The drain order holds each node at most once, and every node behind all that
/// it waits for; a node is missing only where something it waits for is missing.
pub proof fn law_drain_order(g: Seq<NodeModel>)
    ensures
        drain_order(g).no_duplicates(),
        drain_order(g).len() <= g.len(),
        forall|m: int| 0 <= m < drain_order(g).len() ==> 0 <= #[trigger] drain_order(g)[m] < g.len(),
        forall|m: int|
            0 <= m < drain_order(g).len() ==> within(deps(g, #[trigger] drain_order(g)[m]), drain_order(g).take(m)),
        forall|j: int|
            0 <= j < g.len() && within(#[trigger] deps(g, j), drain_order(g)) ==> drain_order(g).contains(j),
{
    let q = drain_order(g);
    law_ready_in_declaration_order(g);
    lemma_drained_distinct(g, q);
    assert forall|m: int| 0 <= m < q.len() implies within(deps(g, #[trigger] q[m]), q.take(m)) by {
        assert(is_ready(g, q.take(m), q[m]));
    }
    assert forall|j: int| 0 <= j < g.len() && within(#[trigger] deps(g, j), q) implies q.contains(j) by {
        assert(!is_ready(g, q, j));
    }
}

/// A walk that stays outside a set, as long as wanted, where every node outside
/// waits for another one outside.
pub proof fn lemma_walk_outside(g: Seq<NodeModel>, q: Seq<int>, start: int, len: nat) -> (p: Seq<int>)
    requires
        0 <= start < g.len(),
        !q.contains(start),
        forall|j: int| 0 <= j < g.len() && within(#[trigger] deps(g, j), q) ==> q.contains(j),
    ensures
        p.len() == len + 1,
        p[0] == start,
        is_walk(g, p),
        forall|k: int| 0 <= k < p.len() ==> !q.contains(#[trigger] p[k]),
    decreases len,
{
    if len == 0 {
        seq![start]
    } else {
        let p = lemma_walk_outside(g, q, start, (len - 1) as nat);
        let j = p[p.len() - 1];
        assert(!q.contains(j));
        let e = choose|e: int| 0 <= e < deps(g, j).len() && !q.contains(#[trigger] deps(g, j)[e]);
        let x = deps(g, j)[e];
        lemma_resolved_range(g, g[j].after);
        let r = p.push(x);
        assert forall|k: int| 0 <= k < r.len() - 1 implies deps(g, #[trigger] r[k]).contains(r[k + 1]) by {
            if k < p.len() - 1 {
                assert(r[k] == p[k]);
                assert(deps(g, p[k]).contains(p[k + 1]));
            } else {
                assert(deps(g, j)[e] == x);
            }
        }
        r
    }
}

/// Everything can be drained exactly when no walk along edges comes back to
/// where it started.
pub proof fn law_drains_iff_acyclic(g: Seq<NodeModel>)
    ensures
        drain_order(g).len() == g.len() <==> !cyclic(g),
{
    let q = drain_order(g);
    let n = g.len() as int;
    law_drain_order(g);
    if q.len() == n && cyclic(g) {
        lemma_distinct_places(q, n);
        let p = choose|p: Seq<int>| #[trigger] is_walk(g, p) && p.len() >= 2 && p[0] == p[p.len() - 1];
        lemma_walk_descends(g, p, p.len() - 1);
        assert(false);
    }
    if q.len() != n && !cyclic(g) {
        if forall|j: int| 0 <= j < n ==> q.contains(j) {
            let all = set_int_range(0, n);
            lemma_int_range(0, n);
            q.unique_seq_to_set();
            assert(all.subset_of(q.to_set()));
            lemma_len_subset(all, q.to_set());
        }
        let start = choose|j: int| 0 <= j < n && !q.contains(j);
        let p = lemma_walk_outside(g, q, start, g.len());
        if p.no_duplicates() {
            lemma_distinct_places(p, n);
        }
        let (a, b) = choose|a: int, b: int| 0 <= a < p.len() && 0 <= b < p.len() && a != b && p[a] == p[b];
        let lo = if a < b { a } else { b };
        let hi = if a < b { b } else { a };
        let c = p.subrange(lo, hi + 1);
        assert forall|k: int| 0 <= k < c.len() - 1 implies deps(g, #[trigger] c[k]).contains(c[k + 1]) by {
            assert(c[k] == p[lo + k]);
            assert(deps(g, p[lo + k]).contains(p[lo + k + 1]));
        }
        assert forall|k: int| 0 <= k < c.len() implies 0 <= #[trigger] c[k] < g.len() by {
            assert(c[k] == p[lo + k]);
        }
        assert(is_walk(g, c));
        assert(c[0] == c[c.len() - 1]);
        assert(false);
    }
}

/// Along a walk, the place in a complete drain order strictly falls.
pub proof fn lemma_walk_descends(g: Seq<NodeModel>, p: Seq<int>, k: int)
    requires
        is_walk(g, p),
        0 <= k < p.len(),
        forall|j: int| 0 <= j < g.len() ==> drain_order(g).contains(j),
    ensures
        k > 0 ==> drain_order(g).index_of(p[k]) < drain_order(g).index_of(p[0]),
        k == 0 ==> drain_order(g).index_of(p[k]) == drain_order(g).index_of(p[0]),
    decreases k,
{
    if k > 0 {
        lemma_walk_descends(g, p, k - 1);
        let q = drain_order(g);
        law_drain_order(g);
        let x = p[k - 1];
        let y = p[k];
        assert(q.contains(x));
        assert(q.contains(y));
        let m = q.index_of(x);
        assert(q[m] == x);
        assert(within(deps(g, q[m]), q.take(m)));
        assert(deps(g, x).contains(p[k - 1 + 1]));
        let e = choose|e: int| 0 <= e < deps(g, x).len() && deps(g, x)[e] == y;
        assert(q.take(m).contains(deps(g, x)[e]));
        let f = choose|f: int| 0 <= f < q.take(m).len() && q.take(m)[f] == y;
        assert(q[f] == y);
        let h = q.index_of(y);
        assert(q[h] == y);
        assert(h == f);
    }
}

/// A graph is valid exactly when no id occurs twice, every edge leads to a
/// declared node, and no walk along edges comes back to where it started.
pub proof fn law_valid_iff(g: Seq<NodeModel>)
    ensures
        graph_error(g) is None <==> unique_ids(g) && all_known(g) && !cyclic(g),
{
    lemma_repeated_id(g, g.len() as int);
    lemma_unknown_dep(g, g.len() as int);
    law_drains_iff_acyclic(g);
}

/// Whether every place in `v` is marked.
fn all_marked(v: &Vec<usize>, marked: &Vec<bool>, Ghost(done): Ghost<Seq<int>>) -> (r: bool)
    requires
        forall|k: int| 0 <= k < v@.len() ==> (#[trigger] v@[k]) < marked@.len(),
        forall|j: int| 0 <= j < marked@.len() ==> (#[trigger] marked@[j] <==> done.contains(j)),
    ensures
        r == within(ints(v@), done),
{
    for i in 0..v.len()
        invariant
            forall|k: int| 0 <= k < v@.len() ==> (#[trigger] v@[k]) < marked@.len(),
            forall|j: int| 0 <= j < marked@.len() ==> (#[trigger] marked@[j] <==> done.contains(j)),
            forall|k: int| 0 <= k < i ==> done.contains(#[trigger] ints(v@)[k]),
    {
        if !marked[v[i]] {
            assert(!done.contains(ints(v@)[i as int]));
            return false;
        }
    }
    true
}

impl Graph {
    /// For each node the places that it waits for, once per known edge.
    pub(crate) fn dep_lists(&self) -> (r: Vec<Vec<usize>>)
        ensures
            r@.len() == self@.len(),
            forall|i: int| 0 <= i < r@.len() ==> ints((#[trigger] r@[i])@) == deps(self@, i),
            forall|i: int, k: int|
                0 <= i < r@.len() && 0 <= k < r@[i]@.len() ==> (#[trigger] r@[i]@[k]) < self@.len(),
    {
        let nodes = self.nodes();
        let ghost g = self@;
        let mut lists: Vec<Vec<usize>> = Vec::new();
        for i in 0..nodes.len()
            invariant
                g == self@,
                node_models(nodes@) == g,
                lists@.len() == i,
                forall|j: int| 0 <= j < i ==> ints((#[trigger] lists@[j])@) == deps(g, j),
                forall|j: int, k: int|
                    0 <= j < i && 0 <= k < lists@[j]@.len() ==> (#[trigger] lists@[j]@[k]) < g.len(),
        {
            let after = &nodes[i].after;
            let ghost names = g[i as int].after;
            let mut list: Vec<usize> = Vec::new();
            for k in 0..after.len()
                invariant
                    g == self@,
                    names == texts(after@),
                    ints(list@) == resolved(g, names.take(k as int)),
                    forall|m: int| 0 <= m < list@.len() ==> (#[trigger] list@[m]) < g.len(),
            {
                proof {
                    assert(names.take(k + 1).drop_last() == names.take(k as int));
                    assert(names.take(k + 1).last() == after@[k as int]@);
                }
                let ghost before = ints(list@);
                if let Some(d) = self.target(after[k].as_str()) {
                    list.push(d);
                    assert(ints(list@) =~= before.push(d as int));
                }
            }
            proof {
                assert(names.take(after@.len() as int) == names);
            }
            lists.push(list);
        }
        lists
    }

    /// Refuses the first edge that leads to no node.
    fn check_edges(&self) -> (r: Result<(), GraphError>)
        ensures
            match r {
                Ok(_) => unknown_dep(self@, self@.len() as int) is None,
                Err(e) => unknown_dep(self@, self@.len() as int) == Some(e@),
            },
    {
        let nodes = self.nodes();
        let ghost g = self@;
        for i in 0..nodes.len()
            invariant
                g == self@,
                node_models(nodes@) == g,
                unknown_dep(g, i as int) is None,
        {
            let after = &nodes[i].after;
            let ghost names = g[i as int].after;
            for k in 0..after.len()
                invariant
                    g == self@,
                    names == texts(after@),
                    unknown_name(g, names.take(k as int)) is None,
                    node_models(nodes@) == g,
                    i < nodes.len(),
                    after@ == nodes@[i as int].after@,
                    names == g[i as int].after,
                    unknown_dep(g, i as int) is None,
            {
                proof {
                    assert(names.take(k + 1).drop_last() == names.take(k as int));
                    assert(names.take(k + 1).last() == after@[k as int]@);
                    lemma_last_at(g, after@[k as int]@);
                }
                if self.target(after[k].as_str()).is_none() {
                    proof {
                        lemma_unknown_name_stays(g, names, k + 1);
                        lemma_unknown_dep_stays(g, i + 1);
                    }
                    return Err(
                        GraphError::UnknownDep { node: nodes[i].id.clone(), dep: after[k].clone() },
                    );
                }
            }
            proof {
                assert(names.take(after@.len() as int) == names);
            }
        }
        Ok(())
    }

    /// The places of the nodes in a deterministic topological order.
    pub(crate) fn places_in_order(&self) -> (r: Result<Vec<usize>, GraphError>)
        ensures
            match r {
                Ok(order) => order_error(self@) is None && ints(order@) == drain_order(self@),
                Err(e) => order_error(self@) == Some(e@),
            },
    {
        match self.check_edges() {
            Ok(_) => {},
            Err(e) => {
                return Err(e);
            },
        }
        let nodes = self.nodes();
        let n = nodes.len();
        let ghost g = self@;
        let lists = self.dep_lists();
        let mut done: Vec<bool> = Vec::new();
        for i in 0..n
            invariant
                done@.len() == i,
                forall|j: int| 0 <= j < i ==> !(#[trigger] done@[j]),
        {
            done.push(false);
        }
        let mut order: Vec<usize> = Vec::new();
        let mut i: usize = 0;
        assert(ints(order@) =~= Seq::<int>::empty());
        while i < n
            invariant
                g == self@,
                n == g.len(),
                i <= n,
                lists@.len() == n,
                forall|j: int| 0 <= j < n ==> ints((#[trigger] lists@[j])@) == deps(g, j),
                forall|j: int, k: int|
                    0 <= j < n && 0 <= k < lists@[j]@.len() ==> (#[trigger] lists@[j]@[k]) < n,
                done@.len() == n,
                forall|j: int| 0 <= j < n ==> (#[trigger] done@[j] <==> ints(order@).contains(j)),
                in_declaration_order(g, ints(order@)),
                first_ready(g, ints(order@), 0) == first_ready(g, ints(order@), i as int),
                drain_order(g) == drained(g, ints(order@)),
            decreases n - order@.len(), n - i,
        {
            let ghost out = ints(order@);
            let list = &lists[i];
            assert(ints(list@) == deps(g, i as int));
            assert forall|k: int| 0 <= k < list@.len() implies (#[trigger] list@[k]) < n by {
                assert(lists@[i as int]@[k] < n);
            }
            if !done[i] && all_marked(list, &done, Ghost(out)) {
                proof {
                    assert(first_ready(g, out, 0) == i);
                    lemma_drain_one(g, out);
                }
                order.push(i);
                done.set(i, true);
                proof {
                    assert(ints(order@) =~= out.push(i as int));
                    assert forall|j: int| 0 <= j < n implies (#[trigger] done@[j] <==> ints(order@).contains(j)) by {
                        if j == i {
                            assert(ints(order@)[out.len() as int] == j);
                        } else {
                            if out.contains(j) {
                                assert(ints(order@)[out.index_of(j)] == j);
                            }
                            if ints(order@).contains(j) {
                                assert(out[ints(order@).index_of(j)] == j);
                            }
                        }
                    }
                    lemma_drained_distinct(g, ints(order@));
                }
                i = 0;
            } else {
                i += 1;
            }
        }
        proof {
            law_drain_order(g);
        }
        if order.len() != n {
            let mut out: Vec<String> = Vec::new();
            for i in 0..order.len()
                invariant
                    node_models(nodes@) == g,
                    n == g.len(),
                    n == nodes@.len(),
                    forall|m: int| 0 <= m < order@.len() ==> 0 <= #[trigger] ints(order@)[m] < n,
                    texts(out@) == ids_at(g, ints(order@)).take(i as int),
            {
                assert(0 <= ints(order@)[i as int] < n);
                let ghost before = texts(out@);
                out.push(nodes[order[i]].id.clone());
                proof {
                    let x = ids_at(g, ints(order@))[i as int];
                    assert(texts(out@) =~= before.push(x));
                    assert(ids_at(g, ints(order@)).take(i + 1) =~= before.push(x));
                }
            }
            proof {
                assert(texts(out@) =~= ids_at(g, ints(order@)));
            }
            let mut tangled: Vec<String> = Vec::new();
            for i in 0..n
                invariant
                    node_models(nodes@) == g,
                    n == g.len(),
                    n == nodes@.len(),
                    texts(tangled@) == ids_outside(g, texts(out@), i as int),
            {
                let ghost before = texts(tangled@);
                if !contains_text(&out, nodes[i].id.as_str()) {
                    tangled.push(nodes[i].id.clone());
                    assert(texts(tangled@) =~= before.push(g[i as int].id));
                }
            }
            return Err(GraphError::Cycle(tangled));
        }
        Ok(order)
    }

    /// A deterministic topological order of the ids. Ready nodes are always drained
    /// in declaration order, so the result is stable.
    pub fn topo(&self) -> (r: Result<Vec<String>, GraphError>)
        ensures
            match r {
                Ok(ids) => order_error(self@) is None && texts(ids@) == ids_at(self@, drain_order(self@)),
                Err(e) => order_error(self@) == Some(e@),
            },
    {
        let ghost g = self@;
        match self.places_in_order() {
            Err(e) => Err(e),
            Ok(order) => {
                let nodes = self.nodes();
                let mut out: Vec<String> = Vec::new();
                proof {
                    law_drain_order(g);
                }
                for i in 0..order.len()
                    invariant
                        node_models(nodes@) == g,
                        nodes@.len() == g.len(),
                        forall|m: int| 0 <= m < order@.len() ==> 0 <= #[trigger] ints(order@)[m] < g.len(),
                        texts(out@) == ids_at(g, ints(order@)).take(i as int),
                {
                    assert(0 <= ints(order@)[i as int] < g.len());
                    let ghost before = texts(out@);
                    out.push(nodes[order[i]].id.clone());
                    proof {
                        let x = ids_at(g, ints(order@))[i as int];
                        assert(texts(out@) =~= before.push(x));
                        assert(ids_at(g, ints(order@)).take(i + 1) =~= before.push(x));
                    }
                }
                proof {
                    assert(texts(out@) =~= ids_at(g, ints(order@)));
                }
                Ok(out)
            },
        }
    }

    /// No id occurs twice, every edge leads to a declared node, and the graph is
    /// acyclic.
    pub fn validate(&self) -> (r: Result<(), GraphError>)
        ensures
            match r {
                Ok(_) => graph_error(self@) is None,
                Err(e) => graph_error(self@) == Some(e@),
            },
            r is Ok <==> unique_ids(self@) && all_known(self@) && !cyclic(self@),
    {
        proof {
            law_valid_iff(self@);
        }
        let nodes = self.nodes();
        let ghost g = self@;
        for i in 0..nodes.len()
            invariant
                g == self@,
                node_models(nodes@) == g,
                repeated_id(g, i as int) is None,
        {
            for j in 0..i
                invariant
                    g == self@,
                    i < nodes.len(),
                    node_models(nodes@) == g,
                    repeated_id(g, i as int) is None,
                    forall|k: int| 0 <= k < j ==> (#[trigger] g[k]).id != g[i as int].id,
            {
                if same_text(nodes[j].id.as_str(), nodes[i].id.as_str()) {
                    proof {
                        lemma_first_at(g, g[i as int].id);
                        assert(g[j as int].id == g[i as int].id);
                        assert(declares(g, g[i as int].id));
                        lemma_repeated_id_stays(g, i + 1);
                        law_valid_iff(g);
                    }
                    return Err(GraphError::DuplicateId(nodes[i].id.clone()));
                }
            }
            proof {
                lemma_first_at(g, g[i as int].id);
                assert(declares(g, g[i as int].id));
            }
        }
        match self.places_in_order() {
            Ok(_) => Ok(()),
            Err(e) => Err(e),
        }
    }
}

/// The first unknown name of a prefix is that of the whole list.
proof fn lemma_unknown_name_stays(g: Seq<NodeModel>, names: Seq<Seq<char>>, k: int)
    requires
        0 <= k <= names.len(),
        unknown_name(g, names.take(k)) is Some,
    ensures
        unknown_name(g, names) == unknown_name(g, names.take(k)),
    decreases names.len() - k,
{
    if k < names.len() {
        assert(names.take(k + 1).drop_last() == names.take(k));
        lemma_unknown_name_stays(g, names, k + 1);
    } else {
        assert(names.take(k) == names);
    }
}

/// The first unknown edge of a prefix is that of the whole graph.
proof fn lemma_unknown_dep_stays(g: Seq<NodeModel>, k: int)
    requires
        0 <= k <= g.len(),
        unknown_dep(g, k) is Some,
    ensures
        unknown_dep(g, g.len() as int) == unknown_dep(g, k),
    decreases g.len() - k,
{
    if k < g.len() {
        lemma_unknown_dep_stays(g, k + 1);
    }
}

/// The first repeated id of a prefix is that of the whole graph.
proof fn lemma_repeated_id_stays(g: Seq<NodeModel>, k: int)
    requires
        0 <= k <= g.len(),
        repeated_id(g, k) is Some,
    ensures
        repeated_id(g, g.len() as int) == repeated_id(g, k),
    decreases g.len() - k,
{
    if k < g.len() {
        lemma_repeated_id_stays(g, k + 1);
    }
}

} // verus!
