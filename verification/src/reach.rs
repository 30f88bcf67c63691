//! Choosing part of a graph: the nodes that a set of targets needs, restricting
//! a graph to them, and marking nodes as skipped.
use vstd::prelude::*;
use vstd::seq_lib::*;

use crate::graph::{
    declares, first_at, last_at, lemma_first_at, lemma_last_at, node_models, ErrorModel, Graph,
    GraphError, NodeModel, When,
};
use crate::order::{deps, ints, is_walk, lemma_resolved_contains, lemma_resolved_range};
use crate::text::{
    ascending, law_ascending_permutes, law_sorted_text_ascends, sort_texts, text_le, text_order,
    texts,
};

verus! {

/// The place of the first of `names` that no node has, or their number.
pub open spec fn unknown_at(g: Seq<NodeModel>, names: Seq<Seq<char>>) -> int
    decreases names.len(),
{
    if names.len() == 0 {
        0
    } else {
        let k = unknown_at(g, names.drop_last());
        if k < names.len() - 1 {
            k
        } else if declares(g, names.last()) {
            names.len() as int
        } else {
            names.len() - 1
        }
    }
}

/// Whether a walk along edges leads from one of the targets to node `j`.
pub open spec fn needed(g: Seq<NodeModel>, targets: Seq<Seq<char>>, j: int) -> bool {
    exists|p: Seq<int>| #[trigger] is_walk(g, p) && leads(g, targets, p, j)
}

/// Whether the walk `p` starts at one of the targets and ends at `j`.
pub open spec fn leads(g: Seq<NodeModel>, targets: Seq<Seq<char>>, p: Seq<int>, j: int) -> bool {
    &&& p.len() > 0
    &&& targets.contains(g[p[0]].id)
    &&& p[0] == last_at(g, g[p[0]].id)
    &&& p[p.len() - 1] == j
}

/// Whether the node that the id leads to is needed for the targets.
pub open spec fn id_needed(g: Seq<NodeModel>, targets: Seq<Seq<char>>, id: Seq<char>) -> bool {
    declares(g, id) && needed(g, targets, last_at(g, id))
}

/// Whether everything that is needed for the targets waits for known nodes only.
pub open spec fn known_from(g: Seq<NodeModel>, targets: Seq<Seq<char>>) -> bool {
    forall|j: int, k: int|
        0 <= j < g.len() && needed(g, targets, j) && 0 <= k < g[j].after.len() ==> declares(
            g,
            #[trigger] g[j].after[k],
        )
}

/// Whether the texts of `s` are strictly ascending.
pub open spec fn strictly_ascending(s: Seq<Seq<char>>) -> bool {
    forall|i: int, j: int|
        #![trigger s[i], s[j]]
        0 <= i < j < s.len() ==> text_le(s[i], s[j]) && s[i] != s[j]
}

/// The first `n` nodes of `g` that are needed for the targets.
pub open spec fn needed_nodes(g: Seq<NodeModel>, targets: Seq<Seq<char>>, n: int) -> Seq<NodeModel>
    decreases n,
{
    if n <= 0 {
        seq![]
    } else if id_needed(g, targets, g[n - 1].id) {
        needed_nodes(g, targets, n - 1).push(g[n - 1])
    } else {
        needed_nodes(g, targets, n - 1)
    }
}

/// `g` restricted to the targets and everything they wait for.
pub open spec fn restricted(g: Seq<NodeModel>, targets: Seq<Seq<char>>) -> Seq<NodeModel> {
    needed_nodes(g, targets, g.len() as int)
}

/// `g` with the first node of each of the ids marked as never running.
pub open spec fn marked(g: Seq<NodeModel>, ids: Seq<Seq<char>>) -> Seq<NodeModel> {
    Seq::new(
        g.len(),
        |i: int|
            if ids.contains(g[i].id) && first_at(g, g[i].id) == i {
                NodeModel { when: When::Never, ..g[i] }
            } else {
                g[i]
            },
    )
}

/// What [`unknown_at`] finds.
pub proof fn lemma_unknown_at(g: Seq<NodeModel>, names: Seq<Seq<char>>)
    ensures
        0 <= unknown_at(g, names) <= names.len(),
        unknown_at(g, names) < names.len() ==> !declares(g, names[unknown_at(g, names)]),
        forall|k: int| 0 <= k < unknown_at(g, names) ==> declares(g, #[trigger] names[k]),
    decreases names.len(),
{
    if names.len() > 0 {
        let t = names.drop_last();
        lemma_unknown_at(g, t);
        assert forall|k: int| 0 <= k < unknown_at(g, names) implies declares(g, #[trigger] names[k]) by {
            if k < t.len() {
                assert(declares(g, t[k]));
            }
        }
    }
}

/// The first unknown place is the only one with known names before it.
proof fn lemma_unknown_at_is(g: Seq<NodeModel>, names: Seq<Seq<char>>, k: int)
    requires
        0 <= k <= names.len(),
        k < names.len() ==> !declares(g, names[k]),
        forall|m: int| 0 <= m < k ==> declares(g, #[trigger] names[m]),
    ensures
        unknown_at(g, names) == k,
{
    lemma_unknown_at(g, names);
    let u = unknown_at(g, names);
    if u < k {
        assert(declares(g, names[u]));
    }
    if k < u {
        assert(declares(g, names[k]));
    }
}

/// A target is needed.
pub proof fn lemma_target_needed(g: Seq<NodeModel>, targets: Seq<Seq<char>>, k: int)
    requires
        0 <= k < targets.len(),
        declares(g, targets[k]),
    ensures
        needed(g, targets, last_at(g, targets[k])),
        0 <= last_at(g, targets[k]) < g.len(),
        g[last_at(g, targets[k])].id == targets[k],
{
    let j = last_at(g, targets[k]);
    lemma_last_at(g, targets[k]);
    let p = seq![j];
    assert(is_walk(g, p));
    assert(targets.contains(g[p[0]].id));
    assert(leads(g, targets, p, j));
}

/// What a needed node waits for is needed.
pub proof fn lemma_dep_needed(g: Seq<NodeModel>, targets: Seq<Seq<char>>, j: int, d: int)
    requires
        0 <= j < g.len(),
        needed(g, targets, j),
        deps(g, j).contains(d),
    ensures
        needed(g, targets, d),
        0 <= d < g.len(),
        last_at(g, g[d].id) == d,
{
    let p = choose|p: Seq<int>| #[trigger] is_walk(g, p) && leads(g, targets, p, j);
    lemma_resolved_range(g, g[j].after);
    let e = deps(g, j).index_of(d);
    assert(deps(g, j)[e] == d);
    let r = p.push(d);
    assert forall|k: int| 0 <= k < r.len() - 1 implies deps(g, #[trigger] r[k]).contains(r[k + 1]) by {
        if k < p.len() - 1 {
            assert(r[k] == p[k]);
            assert(deps(g, p[k]).contains(p[k + 1]));
        }
    }
    assert(is_walk(g, r));
    assert(leads(g, targets, r, d));
    lemma_resolved_contains(g, g[j].after, d);
    let k = choose|k: int| 0 <= k < g[j].after.len() && last_at(g, #[trigger] g[j].after[k]) == d && d >= 0;
    lemma_last_at(g, g[j].after[k]);
}

/// A set of places that holds the targets and is closed under edges holds
/// everything that is needed.
proof fn lemma_closed_holds_needed(g: Seq<NodeModel>, targets: Seq<Seq<char>>, keep: Seq<bool>, p: Seq<int>, m: int)
    requires
        keep.len() == g.len(),
        is_walk(g, p),
        0 <= m < p.len(),
        targets.contains(g[p[0]].id),
        p[0] == last_at(g, g[p[0]].id),
        forall|k: int| 0 <= k < targets.len() ==> keep[last_at(g, #[trigger] targets[k])],
        forall|j: int, d: int|
            0 <= j < g.len() && keep[j] && #[trigger] deps(g, j).contains(d) ==> keep[d],
    ensures
        keep[p[m]],
    decreases m,
{
    if m == 0 {
        let k = targets.index_of(g[p[0]].id);
        assert(keep[last_at(g, targets[k])]);
    } else {
        lemma_closed_holds_needed(g, targets, keep, p, m - 1);
        assert(deps(g, p[m - 1]).contains(p[m - 1 + 1]));
    }
}

/// How many entries are false.
spec fn open_count(keep: Seq<bool>) -> nat
    decreases keep.len(),
{
    if keep.len() == 0 {
        0
    } else {
        open_count(keep.drop_last()) + if keep.last() {
            0nat
        } else {
            1nat
        }
    }
}

/// Setting one entry lowers the count by one.
proof fn lemma_open_count(keep: Seq<bool>, i: int)
    requires
        0 <= i < keep.len(),
        !keep[i],
    ensures
        open_count(keep.update(i, true)) + 1 == open_count(keep),
    decreases keep.len(),
{
    let k = keep.update(i, true);
    if i == keep.len() - 1 {
        assert(k.drop_last() =~= keep.drop_last());
    } else {
        lemma_open_count(keep.drop_last(), i);
        assert(k.drop_last() =~= keep.drop_last().update(i, true));
    }
}

/// The ids at the places that are set, among the first `n`.
spec fn ids_set(g: Seq<NodeModel>, keep: Seq<bool>, n: int) -> Seq<Seq<char>>
    decreases n,
{
    if n <= 0 {
        seq![]
    } else if keep[n - 1] {
        ids_set(g, keep, n - 1).push(g[n - 1].id)
    } else {
        ids_set(g, keep, n - 1)
    }
}

/// The listed ids belong to the places that are set.
proof fn lemma_ids_set(g: Seq<NodeModel>, keep: Seq<bool>, n: int)
    requires
        0 <= n <= g.len(),
        keep.len() == g.len(),
        forall|j: int| 0 <= j < g.len() && #[trigger] keep[j] ==> last_at(g, g[j].id) == j,
    ensures
        ids_set(g, keep, n).no_duplicates(),
        forall|id: Seq<char>|
            #[trigger] ids_set(g, keep, n).contains(id) <==> 0 <= last_at(g, id) < n && keep[last_at(g, id)],
    decreases n,
{
    if n > 0 {
        lemma_ids_set(g, keep, n - 1);
        let t = ids_set(g, keep, n - 1);
        let r = ids_set(g, keep, n);
        assert forall|id: Seq<char>|
            #[trigger] r.contains(id) <==> 0 <= last_at(g, id) < n && keep[last_at(g, id)] by {
            lemma_last_at(g, id);
            if r.contains(id) {
                let k = r.index_of(id);
                if k < t.len() {
                    assert(t[k] == id);
                    assert(t.contains(id));
                }
            }
            if 0 <= last_at(g, id) < n && keep[last_at(g, id)] {
                if last_at(g, id) < n - 1 {
                    assert(t.contains(id));
                    assert(r[t.index_of(id)] == id);
                } else {
                    assert(r[r.len() - 1] == id);
                }
            }
        }
        if keep[n - 1] {
            assert(!t.contains(g[n - 1].id));
            assert forall|a: int, b: int| 0 <= a < r.len() && 0 <= b < r.len() && a != b implies r[a] != r[b] by {
                if a < t.len() && b == t.len() {
                    assert(t.contains(t[a]));
                }
                if b < t.len() && a == t.len() {
                    assert(t.contains(t[b]));
                }
            }
        }
    }
}

/// Sorted distinct ids are strictly ascending and are the same ids.
proof fn lemma_sorted_distinct(s: Seq<Seq<char>>)
    requires
        s.no_duplicates(),
    ensures
        strictly_ascending(ascending(s, text_order())),
        forall|id: Seq<char>| #[trigger] ascending(s, text_order()).contains(id) <==> s.contains(id),
{
    broadcast use group_to_multiset_ensures;

    let r = ascending(s, text_order());
    law_ascending_permutes(s, text_order());
    law_sorted_text_ascends(s);
    s.lemma_multiset_has_no_duplicates();
    r.lemma_multiset_has_no_duplicates_conv();
    assert forall|id: Seq<char>| #[trigger] r.contains(id) <==> s.contains(id) by {
        assert(r.contains(id) <==> r.to_multiset().count(id) > 0);
        assert(s.contains(id) <==> s.to_multiset().count(id) > 0);
    }
}

impl Graph {
    /// The places that the targets need, by walking edges from them.
    fn needed_places(&self, targets: &[String]) -> (r: Result<Vec<bool>, GraphError>)
        ensures
            match r {
                Ok(keep) => {
                    &&& unknown_at(self@, texts(targets@)) == targets@.len()
                    &&& keep@.len() == self@.len()
                    &&& forall|j: int|
                        0 <= j < self@.len() ==> (#[trigger] keep@[j] <==> needed(self@, texts(targets@), j))
                    &&& forall|j: int|
                        0 <= j < self@.len() && #[trigger] keep@[j] ==> last_at(self@, self@[j].id) == j
                },
                Err(e) => {
                    let k = unknown_at(self@, texts(targets@));
                    k < targets@.len() && e@ == ErrorModel::UnknownNode(texts(targets@)[k])
                },
            },
    {
        let ghost g = self@;
        let ghost ts = texts(targets@);
        let n = self.nodes().len();
        let mut stack: Vec<usize> = Vec::new();
        for k in 0..targets.len()
            invariant
                g == self@,
                ts == texts(targets@),
                forall|m: int| 0 <= m < k ==> declares(g, #[trigger] ts[m]),
                stack@.len() == k,
                forall|m: int| 0 <= m < k ==> #[trigger] stack@[m] == last_at(g, ts[m]),
        {
            assert(ts[k as int] == targets@[k as int]@);
            proof {
                lemma_last_at(g, ts[k as int]);
            }
            match self.target(targets[k].as_str()) {
                Some(i) => {
                    stack.push(i);
                },
                None => {
                    proof {
                        lemma_unknown_at_is(g, ts, k as int);
                    }
                    return Err(GraphError::UnknownNode(targets[k].clone()));
                },
            }
        }
        proof {
            lemma_unknown_at_is(g, ts, ts.len() as int);
        }
        let lists = self.dep_lists();
        let mut keep: Vec<bool> = Vec::new();
        for i in 0..n
            invariant
                keep@.len() == i,
                forall|j: int| 0 <= j < i ==> !(#[trigger] keep@[j]),
        {
            keep.push(false);
        }
        proof {
            assert forall|m: int| 0 <= m < stack@.len() implies (#[trigger] stack@[m]) < n && needed(
                g,
                ts,
                stack@[m] as int,
            ) && last_at(g, g[stack@[m] as int].id) == stack@[m] by {
                lemma_target_needed(g, ts, m);
            }
            assert forall|k: int| 0 <= k < ts.len() implies keep@[last_at(g, #[trigger] ts[k])] || ints(
                stack@,
            ).contains(last_at(g, ts[k])) by {
                assert(ints(stack@)[k] == last_at(g, ts[k]));
            }
        }
        while stack.len() > 0
            invariant
                g == self@,
                n == g.len(),
                ts == texts(targets@),
                lists@.len() == n,
                forall|j: int| 0 <= j < n ==> ints((#[trigger] lists@[j])@) == deps(g, j),
                forall|j: int, k: int|
                    0 <= j < n && 0 <= k < lists@[j]@.len() ==> (#[trigger] lists@[j]@[k]) < n,
                keep@.len() == n,
                forall|k: int| 0 <= k < ts.len() ==> declares(g, #[trigger] ts[k]),
                forall|j: int|
                    0 <= j < n && #[trigger] keep@[j] ==> needed(g, ts, j) && last_at(g, g[j].id) == j,
                forall|m: int|
                    0 <= m < stack@.len() ==> (#[trigger] stack@[m]) < n && needed(g, ts, stack@[m] as int)
                        && last_at(g, g[stack@[m] as int].id) == stack@[m],
                forall|k: int|
                    0 <= k < ts.len() ==> keep@[last_at(g, #[trigger] ts[k])] || ints(stack@).contains(
                        last_at(g, ts[k]),
                    ),
                forall|j: int, d: int|
                    0 <= j < n && keep@[j] && #[trigger] deps(g, j).contains(d) ==> keep@[d] || ints(
                        stack@,
                    ).contains(d),
            decreases open_count(keep@), stack@.len(),
        {
            let ghost s0 = ints(stack@);
            let ghost v0 = stack@;
            let ghost k0 = keep@;
            let i = stack[stack.len() - 1];
            stack.pop();
            proof {
                assert(v0[v0.len() - 1] == i);
                assert forall|x: int| s0.contains(x) implies x == i || ints(stack@).contains(x) by {
                    let m = s0.index_of(x);
                    assert(s0[m] == x);
                    if m < stack@.len() {
                        assert(ints(stack@)[m] == x);
                    }
                }
                assert forall|m: int| 0 <= m < stack@.len() implies (#[trigger] stack@[m]) < n && needed(
                    g,
                    ts,
                    stack@[m] as int,
                ) && last_at(g, g[stack@[m] as int].id) == stack@[m] by {
                    assert(stack@[m] == v0[m]);
                }
            }
            if !keep[i] {
                proof {
                    lemma_open_count(keep@, i as int);
                }
                keep.set(i, true);
                let list = &lists[i];
                let ghost base = stack@;
                assert(ints(list@) == deps(g, i as int));
                for k in 0..list.len()
                    invariant
                        n == g.len(),
                        i < n,
                        needed(g, ts, i as int),
                        ints(list@) == deps(g, i as int),
                        stack@.len() == base.len() + k,
                        forall|m: int| 0 <= m < base.len() ==> #[trigger] stack@[m] == base[m],
                        forall|m: int| 0 <= m < k ==> #[trigger] stack@[base.len() + m] == list@[m],
                        forall|m: int|
                            0 <= m < stack@.len() ==> (#[trigger] stack@[m]) < n && needed(g, ts, stack@[m] as int)
                                && last_at(g, g[stack@[m] as int].id) == stack@[m],
                {
                    proof {
                        assert(ints(list@)[k as int] == list@[k as int]);
                        lemma_dep_needed(g, ts, i as int, list@[k as int] as int);
                    }
                    stack.push(list[k]);
                }
                proof {
                    assert forall|x: int| ints(base).contains(x) implies ints(stack@).contains(x) by {
                        let m = ints(base).index_of(x);
                        assert(stack@[m] == base[m]);
                        assert(ints(stack@)[m] == x);
                    }
                    assert forall|d: int| deps(g, i as int).contains(d) implies ints(stack@).contains(d) by {
                        let m = ints(list@).index_of(d);
                        assert(stack@[base.len() + m] == list@[m]);
                        assert(ints(stack@)[base.len() + m] == d);
                    }
                    assert forall|j: int, d: int|
                        0 <= j < n && keep@[j] && #[trigger] deps(g, j).contains(d) implies keep@[d] || ints(
                        stack@,
                    ).contains(d) by {
                        lemma_resolved_range(g, g[j].after);
                        assert(deps(g, j)[deps(g, j).index_of(d)] == d);
                        if j != i {
                            assert(k0[j]);
                            assert(k0[d] || s0.contains(d));
                        }
                    }
                    assert forall|k: int| 0 <= k < ts.len() implies keep@[last_at(g, #[trigger] ts[k])] || ints(
                        stack@,
                    ).contains(last_at(g, ts[k])) by {
                        lemma_last_at(g, ts[k]);
                        assert(declares(g, ts[k]));
                        assert(k0[last_at(g, ts[k])] || s0.contains(last_at(g, ts[k])));
                    }
                }
            }
        }
        proof {
            assert(ints(stack@) =~= Seq::<int>::empty());
            assert forall|k: int| 0 <= k < ts.len() implies keep@[last_at(g, #[trigger] ts[k])] by {
                assert(keep@[last_at(g, ts[k])] || ints(stack@).contains(last_at(g, ts[k])));
            }
            assert forall|j: int, d: int| 0 <= j < n && keep@[j] && #[trigger] deps(g, j).contains(d) implies keep@[d] by {
                assert(keep@[d] || ints(stack@).contains(d));
            }
            assert forall|j: int| 0 <= j < n implies (#[trigger] keep@[j] <==> needed(g, ts, j)) by {
                if needed(g, ts, j) {
                    let p = choose|p: Seq<int>| #[trigger] is_walk(g, p) && leads(g, ts, p, j);
                    lemma_closed_holds_needed(g, ts, keep@, p, p.len() - 1);
                }
            }
        }
        Ok(keep)
    }

    /// The ids of the targets and of everything they transitively wait for, in
    /// strictly ascending order. Refuses the first target that no node has.
    pub fn ancestors_of(&self, targets: &[String]) -> (r: Result<Vec<String>, GraphError>)
        requires
            unknown_at(self@, texts(targets@)) == targets@.len() ==> known_from(self@, texts(targets@)),
        ensures
            match r {
                Ok(ids) => {
                    &&& unknown_at(self@, texts(targets@)) == targets@.len()
                    &&& strictly_ascending(texts(ids@))
                    &&& forall|id: Seq<char>| #[trigger]
                        texts(ids@).contains(id) <==> id_needed(self@, texts(targets@), id)
                },
                Err(e) => {
                    let k = unknown_at(self@, texts(targets@));
                    k < targets@.len() && e@ == ErrorModel::UnknownNode(texts(targets@)[k])
                },
            },
    {
        let ghost g = self@;
        let keep = match self.needed_places(targets) {
            Ok(keep) => keep,
            Err(e) => {
                return Err(e);
            },
        };
        let nodes = self.nodes();
        let mut ids: Vec<String> = Vec::new();
        for i in 0..nodes.len()
            invariant
                node_models(nodes@) == g,
                nodes@.len() == g.len(),
                keep@.len() == g.len(),
                texts(ids@) == ids_set(g, keep@, i as int),
        {
            let ghost before = texts(ids@);
            if keep[i] {
                ids.push(nodes[i].id.clone());
                assert(texts(ids@) =~= before.push(g[i as int].id));
            }
        }
        proof {
            lemma_ids_set(g, keep@, g.len() as int);
            lemma_sorted_distinct(texts(ids@));
            assert forall|id: Seq<char>|
                #[trigger] ids_set(g, keep@, g.len() as int).contains(id) <==> id_needed(g, texts(targets@), id) by {
                lemma_last_at(g, id);
            }
        }
        Ok(sort_texts(ids))
    }

    /// Keeps the targets and everything they transitively wait for, and drops the
    /// rest. Refuses the first target that no node has, and then changes nothing.
    pub fn restrict_to(&mut self, targets: &[String]) -> (r: Result<(), GraphError>)
        requires
            unknown_at(old(self)@, texts(targets@)) == targets@.len() ==> known_from(
                old(self)@,
                texts(targets@),
            ),
        ensures
            match r {
                Ok(_) => {
                    &&& unknown_at(old(self)@, texts(targets@)) == targets@.len()
                    &&& final(self)@ == restricted(old(self)@, texts(targets@))
                },
                Err(e) => {
                    let k = unknown_at(old(self)@, texts(targets@));
                    &&& k < targets@.len()
                    &&& e@ == ErrorModel::UnknownNode(texts(targets@)[k])
                    &&& final(self)@ == old(self)@
                },
            },
    {
        let keep = match self.ancestors_of(targets) {
            Ok(keep) => keep,
            Err(e) => {
                return Err(e);
            },
        };
        proof {
            lemma_needed_nodes(self@, texts(targets@), texts(keep@), self@.len() as int);
        }
        self.retain_ids(&keep);
        Ok(())
    }

    /// Marks the first node of each id as never running, so that it is skipped
    /// but still satisfies those that wait for it. Stops at the first id that no
    /// node has, with the earlier ones marked.
    pub fn skip(&mut self, ids: &[String]) -> (r: Result<(), GraphError>)
        ensures
            final(self)@ == marked(old(self)@, texts(ids@).take(unknown_at(old(self)@, texts(ids@)))),
            match r {
                Ok(_) => unknown_at(old(self)@, texts(ids@)) == ids@.len(),
                Err(e) => {
                    let k = unknown_at(old(self)@, texts(ids@));
                    k < ids@.len() && e@ == ErrorModel::UnknownNode(texts(ids@)[k])
                },
            },
    {
        let ghost g = self@;
        let ghost names = texts(ids@);
        proof {
            assert(marked(g, names.take(0)) =~= g);
        }
        for k in 0..ids.len()
            invariant
                g == old(self)@,
                names == texts(ids@),
                self@ == marked(g, names.take(k as int)),
                forall|m: int| 0 <= m < k ==> declares(g, #[trigger] names[m]),
        {
            let ghost before = self@;
            let ghost id = names[k as int];
            proof {
                assert(id == ids@[k as int]@);
                lemma_marked_finds(g, names.take(k as int), id);
                lemma_first_at(g, id);
            }
            match self.get_mut(ids[k].as_str()) {
                Some(node) => {
                    node.when = When::Never;
                },
                None => {
                    proof {
                        lemma_unknown_at_is(g, names, k as int);
                    }
                    return Err(GraphError::UnknownNode(ids[k].clone()));
                },
            }
            proof {
                let f = first_at(g, id);
                assert(self@[f].when == When::Never);
                let now = names.take(k + 1);
                let then = names.take(k as int);
                assert forall|i: int| 0 <= i < g.len() implies #[trigger] self@[i] == marked(g, now)[i] by {
                    assert(now[k as int] == id);
                    if then.contains(g[i].id) {
                        let m = then.index_of(g[i].id);
                        assert(now[m] == g[i].id);
                    }
                    if now.contains(g[i].id) && g[i].id != id {
                        let m = now.index_of(g[i].id);
                        assert(then[m] == g[i].id);
                    }
                    if i != f {
                        assert(self@[i] == before[i]);
                    }
                }
                assert(self@ =~= marked(g, now));
            }
        }
        proof {
            lemma_unknown_at_is(g, names, names.len() as int);
        }
        Ok(())
    }
}

/// Keeping by id is keeping what is needed.
proof fn lemma_needed_nodes(g: Seq<NodeModel>, targets: Seq<Seq<char>>, ids: Seq<Seq<char>>, n: int)
    requires
        0 <= n <= g.len(),
        forall|id: Seq<char>| #[trigger] ids.contains(id) <==> id_needed(g, targets, id),
    ensures
        crate::graph::nodes_among(g, ids, n) == needed_nodes(g, targets, n),
    decreases n,
{
    if n > 0 {
        lemma_needed_nodes(g, targets, ids, n - 1);
        assert(ids.contains(g[n - 1].id) <==> id_needed(g, targets, g[n - 1].id));
    }
}

/// Marking moves no id.
proof fn lemma_marked_finds(g: Seq<NodeModel>, ids: Seq<Seq<char>>, id: Seq<char>)
    ensures
        first_at(marked(g, ids), id) == first_at(g, id),
        declares(marked(g, ids), id) == declares(g, id),
{
    let h = marked(g, ids);
    lemma_first_at(g, id);
    lemma_first_at(h, id);
    assert forall|i: int| 0 <= i < g.len() implies (#[trigger] h[i]).id == g[i].id by {}
    if declares(g, id) {
        assert(h[first_at(g, id)].id == id);
        assert(declares(h, id));
    }
    if declares(h, id) {
        assert(g[first_at(h, id)].id == id);
        assert(declares(g, id));
    }
    let a = first_at(g, id);
    let b = first_at(h, id);
    if a >= 0 && b >= 0 {
        if a < b {
            assert(h[a].id != id);
        }
        if b < a {
            assert(g[b].id != id);
        }
    }
}

} // verus!
