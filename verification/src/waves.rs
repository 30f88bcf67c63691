//! The parallel schedule: which nodes may run together once all earlier waves
//! are done.
use vstd::prelude::*;

use crate::graph::{declares, last_at, lemma_last_at, node_models, Graph, GraphError, NodeModel};
use crate::order::{
    deps, drain_order, graph_error, ints, law_drain_order, law_valid_iff, lemma_distinct_places,
    lemma_resolved_contains, order_error, within,
};
use crate::text::{ascending, law_ascending_permutes, sort_texts, text_order, texts};

verus! {

/// One more than the deepest level among `ds`, or 0 where `ds` is empty.
pub open spec fn above(g: Seq<NodeModel>, ds: Seq<int>, fuel: nat) -> nat
    decreases fuel, ds.len(),
{
    if ds.len() == 0 {
        0
    } else {
        let rest = above(g, ds.drop_last(), fuel);
        let here = level(g, ds.last(), fuel) + 1;
        if here > rest {
            here
        } else {
            rest
        }
    }
}

/// The number of edges on the longest walk from `i`, as far as `fuel` goes.
pub open spec fn level(g: Seq<NodeModel>, i: int, fuel: nat) -> nat
    decreases fuel, 0nat,
{
    if fuel == 0 {
        0
    } else {
        above(g, deps(g, i), (fuel - 1) as nat)
    }
}

/// The wave of node `i`: 0 where it waits for nothing, else one more than the
/// latest wave of what it waits for.
pub open spec fn wave_of(g: Seq<NodeModel>, i: int) -> nat {
    level(g, i, g.len())
}

/// The wave in which the id of node `i` is shown.
pub open spec fn shown_in(g: Seq<NodeModel>, i: int) -> nat {
    wave_of(g, last_at(g, g[i].id))
}

/// The last wave in which one of the first `n` nodes is shown.
pub open spec fn last_wave(g: Seq<NodeModel>, n: int) -> nat
    decreases n,
{
    if n <= 0 {
        0
    } else if shown_in(g, n - 1) > last_wave(g, n - 1) {
        shown_in(g, n - 1)
    } else {
        last_wave(g, n - 1)
    }
}

/// The ids among the first `n` nodes that are shown in wave `w`.
pub open spec fn wave_members(g: Seq<NodeModel>, w: int, n: int) -> Seq<Seq<char>>
    decreases n,
{
    if n <= 0 {
        seq![]
    } else if shown_in(g, n - 1) == w {
        wave_members(g, w, n - 1).push(g[n - 1].id)
    } else {
        wave_members(g, w, n - 1)
    }
}

/// The schedule: the ids of each wave, in ascending order.
pub open spec fn waves_of(g: Seq<NodeModel>) -> Seq<Seq<Seq<char>>> {
    Seq::new(
        last_wave(g, g.len() as int) + 1,
        |w: int| ascending(wave_members(g, w, g.len() as int), text_order()),
    )
}

/// The views of a list of waves.
pub open spec fn wave_texts(v: Seq<Vec<String>>) -> Seq<Seq<Seq<char>>> {
    v.map_values(|w: Vec<String>| texts(w@))
}

/// `above` depends on the levels of `ds` alone.
proof fn lemma_above_same(g: Seq<NodeModel>, ds: Seq<int>, a: nat, b: nat)
    requires
        forall|k: int| 0 <= k < ds.len() ==> level(g, #[trigger] ds[k], a) == level(g, ds[k], b),
    ensures
        above(g, ds, a) == above(g, ds, b),
    decreases ds.len(),
{
    if ds.len() > 0 {
        assert forall|k: int| 0 <= k < ds.drop_last().len() implies level(g, #[trigger] ds.drop_last()[k], a) == level(
            g,
            ds.drop_last()[k],
            b,
        ) by {
            assert(ds.drop_last()[k] == ds[k]);
        }
        lemma_above_same(g, ds.drop_last(), a, b);
        assert(level(g, ds[ds.len() - 1], a) == level(g, ds[ds.len() - 1], b));
    }
}

/// What `above` is a maximum of.
proof fn lemma_above(g: Seq<NodeModel>, ds: Seq<int>, fuel: nat)
    ensures
        forall|k: int| 0 <= k < ds.len() ==> level(g, #[trigger] ds[k], fuel) < above(g, ds, fuel),
        above(g, ds, fuel) > 0 ==> exists|k: int|
            0 <= k < ds.len() && level(g, #[trigger] ds[k], fuel) + 1 == above(g, ds, fuel),
    decreases ds.len(),
{
    if ds.len() > 0 {
        let t = ds.drop_last();
        lemma_above(g, t, fuel);
        assert forall|k: int| 0 <= k < ds.len() implies level(g, #[trigger] ds[k], fuel) < above(g, ds, fuel) by {
            if k < t.len() {
                assert(t[k] == ds[k]);
            }
        }
        if level(g, ds.last(), fuel) + 1 > above(g, t, fuel) {
            assert(level(g, ds[ds.len() - 1], fuel) + 1 == above(g, ds, fuel));
        } else {
            let k = choose|k: int| 0 <= k < t.len() && level(g, #[trigger] t[k], fuel) + 1 == above(g, t, fuel);
            assert(level(g, ds[k], fuel) + 1 == above(g, ds, fuel));
        }
    }
}

/// Once `fuel` exceeds a node's place in the drain order, more of it changes
/// nothing, and the level is at most that place.
proof fn lemma_level_settles(g: Seq<NodeModel>, m: int, fuel: nat)
    requires
        0 <= m < drain_order(g).len(),
        fuel > m,
    ensures
        level(g, drain_order(g)[m], fuel) == level(g, drain_order(g)[m], (m + 1) as nat),
        level(g, drain_order(g)[m], fuel) <= m,
    decreases m,
{
    let q = drain_order(g);
    law_drain_order(g);
    let ds = deps(g, q[m]);
    assert(within(ds, q.take(m)));
    assert forall|k: int| 0 <= k < ds.len() implies level(g, #[trigger] ds[k], (fuel - 1) as nat) == level(
        g,
        ds[k],
        m as nat,
    ) && level(g, ds[k], (fuel - 1) as nat) < m by {
        assert(q.take(m).contains(ds[k]));
        let f = choose|f: int| 0 <= f < q.take(m).len() && q.take(m)[f] == ds[k];
        assert(q[f] == ds[k]);
        lemma_level_settles(g, f, (fuel - 1) as nat);
        lemma_level_settles(g, f, m as nat);
    }
    lemma_above_same(g, ds, (fuel - 1) as nat, m as nat);
    lemma_above(g, ds, (fuel - 1) as nat);
}

/// In an ordered graph a node is one wave behind the latest of what it waits for:
/// later than each of these, and directly behind one of them unless it is in the
/// first wave.
pub proof fn law_wave_is_one_behind(g: Seq<NodeModel>, i: int)
    requires
        order_error(g) is None,
        0 <= i < g.len(),
    ensures
        forall|k: int| 0 <= k < deps(g, i).len() ==> wave_of(g, #[trigger] deps(g, i)[k]) < wave_of(g, i),
        deps(g, i).len() == 0 ==> wave_of(g, i) == 0,
        deps(g, i).len() > 0 ==> exists|k: int|
            0 <= k < deps(g, i).len() && wave_of(g, #[trigger] deps(g, i)[k]) + 1 == wave_of(g, i),
        wave_of(g, i) < g.len(),
{
    let q = drain_order(g);
    let n = g.len();
    let ds = deps(g, i);
    law_drain_order(g);
    lemma_distinct_places(q, n as int);
    assert(q.contains(i));
    let m = q.index_of(i);
    assert(q[m] == i);
    lemma_level_settles(g, m, n);
    assert(within(deps(g, q[m]), q.take(m)));
    assert forall|k: int| 0 <= k < ds.len() implies level(g, #[trigger] ds[k], (n - 1) as nat) == level(g, ds[k], n) by {
        assert(q.take(m).contains(ds[k]));
        let f = choose|f: int| 0 <= f < q.take(m).len() && q.take(m)[f] == ds[k];
        assert(q[f] == ds[k]);
        lemma_level_settles(g, f, (n - 1) as nat);
        lemma_level_settles(g, f, n);
    }
    lemma_above(g, ds, (n - 1) as nat);
    if ds.len() > 0 {
        assert(level(g, ds[0], (n - 1) as nat) < above(g, ds, (n - 1) as nat));
        let k = choose|k: int| 0 <= k < ds.len() && level(g, #[trigger] ds[k], (n - 1) as nat) + 1 == above(g, ds, (n
            - 1) as nat);
        assert(wave_of(g, deps(g, i)[k]) + 1 == wave_of(g, i));
    }
}

/// Whether one of the first `n` nodes has the id and is shown in wave `w`.
pub open spec fn shows(g: Seq<NodeModel>, w: int, id: Seq<char>, n: int) -> bool {
    exists|i: int| 0 <= i < n && shown_in(g, i) == w && (#[trigger] g[i]).id == id
}

/// The members of a wave are the ids shown in it.
proof fn lemma_wave_members(g: Seq<NodeModel>, w: int, n: int, id: Seq<char>)
    requires
        0 <= n <= g.len(),
    ensures
        wave_members(g, w, n).contains(id) <==> shows(g, w, id, n),
    decreases n,
{
    if n > 0 {
        lemma_wave_members(g, w, n - 1, id);
        let t = wave_members(g, w, n - 1);
        let r = wave_members(g, w, n);
        if shows(g, w, id, n) {
            let i = choose|i: int| 0 <= i < n && shown_in(g, i) == w && (#[trigger] g[i]).id == id;
            if i < n - 1 {
                assert(shows(g, w, id, n - 1));
                assert(r[t.index_of(id)] == id);
            } else {
                assert(r[r.len() - 1] == id);
            }
        }
        if r.contains(id) {
            let k = r.index_of(id);
            if k < t.len() {
                assert(t[k] == id);
                assert(t.contains(id));
                let i = choose|i: int| 0 <= i < n - 1 && shown_in(g, i) == w && (#[trigger] g[i]).id == id;
                assert(g[i].id == id);
            } else {
                assert(g[n - 1].id == id);
            }
        }
    }
}

/// The last wave is no earlier than any that shows a node.
proof fn lemma_last_wave(g: Seq<NodeModel>, n: int, i: int)
    requires
        0 <= i < n <= g.len(),
    ensures
        shown_in(g, i) <= last_wave(g, n),
    decreases n,
{
    if i < n - 1 {
        lemma_last_wave(g, n - 1, i);
    }
}

/// A wave holds exactly the ids that are shown in it, so that every node is in
/// the schedule, once.
pub proof fn law_waves_hold_every_node(g: Seq<NodeModel>, w: int, id: Seq<char>)
    requires
        0 <= w < waves_of(g).len(),
    ensures
        waves_of(g)[w].contains(id) <==> shows(g, w, id, g.len() as int),
        forall|i: int| 0 <= i < g.len() ==> #[trigger] shown_in(g, i) < waves_of(g).len(),
{
    broadcast use vstd::seq_lib::group_to_multiset_ensures;

    let n = g.len() as int;
    let s = wave_members(g, w, n);
    lemma_wave_members(g, w, n, id);
    law_ascending_permutes(s, text_order());
    let r = ascending(s, text_order());
    assert(r.contains(id) <==> r.to_multiset().count(id) > 0);
    assert(s.contains(id) <==> s.to_multiset().count(id) > 0);
    assert forall|i: int| 0 <= i < g.len() implies #[trigger] shown_in(g, i) < waves_of(g).len() by {
        lemma_last_wave(g, n, i);
    }
}

/// In a valid graph everything that a node waits for is in an earlier wave.
pub proof fn law_waves_respect_edges(g: Seq<NodeModel>, i: int, k: int)
    requires
        graph_error(g) is None,
        0 <= i < g.len(),
        0 <= k < g[i].after.len(),
    ensures
        0 <= last_at(g, g[i].after[k]) < g.len(),
        shown_in(g, last_at(g, g[i].after[k])) < shown_in(g, i),
{
    law_valid_iff(g);
    let d = last_at(g, g[i].after[k]);
    lemma_last_at(g, g[i].after[k]);
    assert(declares(g, g[i].after[k]));
    lemma_resolved_contains(g, g[i].after, d);
    let e = deps(g, i).index_of(d);
    law_wave_is_one_behind(g, i);
    assert(wave_of(g, deps(g, i)[e]) < wave_of(g, i));
    lemma_last_at(g, g[i].id);
    lemma_last_at(g, g[d].id);
    assert(declares(g, g[i].id));
    assert(declares(g, g[d].id));
    if last_at(g, g[i].id) != i {
        assert(g[i].id != g[last_at(g, g[i].id)].id);
    }
    if last_at(g, g[d].id) != d {
        assert(g[d].id != g[last_at(g, g[d].id)].id);
    }
}

/// One more than the largest of the numbers at the listed places, or 0.
fn one_behind(list: &Vec<usize>, numbers: &Vec<usize>) -> (w: usize)
    requires
        forall|k: int|
            0 <= k < list@.len() ==> (#[trigger] list@[k]) < numbers@.len() && numbers@[list@[k] as int] < usize::MAX,
    ensures
        forall|k: int| 0 <= k < list@.len() ==> numbers@[(#[trigger] list@[k]) as int] < w,
        list@.len() == 0 ==> w == 0,
        list@.len() > 0 ==> exists|k: int|
            0 <= k < list@.len() && numbers@[(#[trigger] list@[k]) as int] + 1 == w,
{
    let mut w: usize = 0;
    for k in 0..list.len()
        invariant
            forall|j: int|
                0 <= j < list@.len() ==> (#[trigger] list@[j]) < numbers@.len() && numbers@[list@[j] as int] < usize::MAX,
            forall|j: int| 0 <= j < k ==> numbers@[(#[trigger] list@[j]) as int] < w,
            k == 0 ==> w == 0,
            k > 0 ==> exists|j: int| 0 <= j < k && numbers@[(#[trigger] list@[j]) as int] + 1 == w,
    {
        let here = numbers[list[k]] + 1;
        if here > w {
            w = here;
            assert(numbers@[list@[k as int] as int] + 1 == w);
        }
    }
    w
}

/// Where the drained nodes have their numbers, so has everything that the next
/// one waits for.
proof fn lemma_numbers_known(g: Seq<NodeModel>, m: int, numbers: Seq<usize>, list: Seq<usize>)
    requires
        order_error(g) is None,
        g.len() <= usize::MAX,
        0 <= m < drain_order(g).len(),
        numbers.len() == g.len(),
        ints(list) == deps(g, drain_order(g)[m]),
        forall|a: int| 0 <= a < m ==> numbers[#[trigger] drain_order(g)[a]] == wave_of(g, drain_order(g)[a]),
    ensures
        forall|k: int|
            0 <= k < list.len() ==> (#[trigger] list[k]) < numbers.len() && numbers[list[k] as int] < usize::MAX
                && numbers[list[k] as int] == wave_of(g, list[k] as int),
{
    let q = drain_order(g);
    law_drain_order(g);
    let i = q[m];
    let ds = deps(g, i);
    law_wave_is_one_behind(g, i);
    assert forall|k: int| 0 <= k < list.len() implies (#[trigger] list[k]) < numbers.len() && numbers[list[k] as int]
        < usize::MAX && numbers[list[k] as int] == wave_of(g, list[k] as int) by {
        assert(ints(list)[k] == list[k]);
        assert(q.take(m).contains(ds[k]));
        let f = choose|f: int| 0 <= f < q.take(m).len() && q.take(m)[f] == ds[k];
        assert(q[f] == ds[k]);
        assert(wave_of(g, deps(g, i)[k]) < wave_of(g, i));
    }
}

/// One behind the largest number is the node's wave.
proof fn lemma_wave_found(g: Seq<NodeModel>, i: int, numbers: Seq<usize>, list: Seq<usize>, w: usize)
    requires
        order_error(g) is None,
        0 <= i < g.len(),
        ints(list) == deps(g, i),
        forall|k: int| 0 <= k < list.len() ==> numbers[(#[trigger] list[k]) as int] == wave_of(g, list[k] as int),
        forall|k: int| 0 <= k < list.len() ==> numbers[(#[trigger] list[k]) as int] < w,
        list.len() == 0 ==> w == 0,
        list.len() > 0 ==> exists|k: int| 0 <= k < list.len() && numbers[(#[trigger] list[k]) as int] + 1 == w,
    ensures
        w == wave_of(g, i),
{
    law_wave_is_one_behind(g, i);
    let ds = deps(g, i);
    assert(ds.len() == list.len());
    if ds.len() > 0 {
        let e = choose|e: int| 0 <= e < ds.len() && wave_of(g, #[trigger] deps(g, i)[e]) + 1 == wave_of(g, i);
        assert(ints(list)[e] == list[e]);
        assert(numbers[list[e] as int] < w);
        let k = choose|k: int| 0 <= k < list.len() && numbers[(#[trigger] list[k]) as int] + 1 == w;
        assert(ints(list)[k] == list[k]);
        assert(wave_of(g, deps(g, i)[k]) < wave_of(g, i));
    }
}

impl Graph {
    /// Each node's wave, by its place.
    fn wave_numbers(&self, order: &Vec<usize>) -> (r: Vec<usize>)
        requires
            order_error(self@) is None,
            ints(order@) == drain_order(self@),
        ensures
            r@.len() == self@.len(),
            forall|i: int| 0 <= i < r@.len() ==> #[trigger] r@[i] == wave_of(self@, i),
    {
        let ghost g = self@;
        let ghost q = drain_order(g);
        let n = self.nodes().len();
        let lists = self.dep_lists();
        proof {
            law_drain_order(g);
            lemma_distinct_places(q, n as int);
        }
        let mut numbers: Vec<usize> = Vec::new();
        for i in 0..n
            invariant
                numbers@.len() == i,
        {
            numbers.push(0);
        }
        for m in 0..order.len()
            invariant
                g == self@,
                q == drain_order(g),
                ints(order@) == q,
                order_error(g) is None,
                n == g.len(),
                numbers@.len() == n,
                lists@.len() == n,
                forall|j: int| 0 <= j < n ==> ints((#[trigger] lists@[j])@) == deps(g, j),
                forall|j: int, k: int|
                    0 <= j < n && 0 <= k < lists@[j]@.len() ==> (#[trigger] lists@[j]@[k]) < n,
                forall|a: int| 0 <= a < q.len() ==> 0 <= #[trigger] q[a] < n,
                forall|a: int| 0 <= a < m ==> numbers@[#[trigger] q[a]] == wave_of(g, q[a]),
        {
            let i = order[m];
            assert(q[m as int] == i);
            proof {
                lemma_numbers_known(g, m as int, numbers@, lists@[i as int]@);
            }
            let w = one_behind(&lists[i], &numbers);
            proof {
                lemma_wave_found(g, i as int, numbers@, lists@[i as int]@, w);
            }
            let ghost before = numbers@;
            numbers.set(i, w);
            proof {
                assert forall|a: int| 0 <= a < m + 1 implies numbers@[#[trigger] q[a]] == wave_of(g, q[a]) by {
                    if q[a] != i {
                        assert(a < m);
                        assert(numbers@[q[a]] == before[q[a]]);
                    }
                }
            }
        }
        proof {
            assert forall|i: int| 0 <= i < n implies #[trigger] numbers@[i] == wave_of(g, i) by {
                assert(q.contains(i));
                let m = q.index_of(i);
                assert(numbers@[q[m]] == wave_of(g, q[m]));
            }
        }
        numbers
    }

    /// The parallel schedule: the ids of wave `w` may run concurrently once every
    /// earlier wave is done. Ids within a wave are ascending.
    pub fn waves(&self) -> (r: Result<Vec<Vec<String>>, GraphError>)
        ensures
            match r {
                Ok(v) => order_error(self@) is None && wave_texts(v@) == waves_of(self@),
                Err(e) => order_error(self@) == Some(e@),
            },
    {
        let order = match self.places_in_order() {
            Ok(order) => order,
            Err(e) => {
                return Err(e);
            },
        };
        let ghost g = self@;
        let nodes = self.nodes();
        let n = nodes.len();
        let numbers = self.wave_numbers(&order);
        let mut shown: Vec<usize> = Vec::new();
        let mut last: usize = 0;
        for i in 0..n
            invariant
                g == self@,
                node_models(nodes@) == g,
                nodes@.len() == n,
                g.len() == n,
                numbers@.len() == n,
                order_error(g) is None,
                forall|j: int| 0 <= j < n ==> #[trigger] numbers@[j] == wave_of(g, j),
                shown@.len() == i,
                forall|j: int| 0 <= j < i ==> #[trigger] shown@[j] == shown_in(g, j),
                last == last_wave(g, i as int),
                i > 0 ==> last < n,
        {
            let at = self.target(nodes[i].id.as_str());
            proof {
                lemma_last_at(g, g[i as int].id);
                assert(g[i as int].id == nodes@[i as int].id@);
                assert(declares(g, g[i as int].id));
            }
            let w = match at {
                Some(t) => numbers[t],
                None => 0,
            };
            proof {
                law_wave_is_one_behind(g, last_at(g, g[i as int].id));
            }
            shown.push(w);
            if w > last {
                last = w;
            }
        }
        let mut waves: Vec<Vec<String>> = Vec::new();
        let mut w: usize = 0;
        let ghost all = waves_of(g);
        while w <= last
            invariant
                node_models(nodes@) == g,
                nodes@.len() == n,
                g.len() == n,
                shown@.len() == n,
                forall|j: int| 0 <= j < n ==> #[trigger] shown@[j] == shown_in(g, j),
                last == last_wave(g, n as int),
                last < n || last == 0,
                w <= last + 1,
                all == waves_of(g),
                wave_texts(waves@) == all.take(w as int),
            decreases last + 1 - w,
        {
            let mut members: Vec<String> = Vec::new();
            for i in 0..n
                invariant
                    node_models(nodes@) == g,
                    nodes@.len() == n,
                    g.len() == n,
                    shown@.len() == n,
                    forall|j: int| 0 <= j < n ==> #[trigger] shown@[j] == shown_in(g, j),
                    texts(members@) == wave_members(g, w as int, i as int),
            {
                let ghost before = texts(members@);
                if shown[i] == w {
                    members.push(nodes[i].id.clone());
                    assert(texts(members@) =~= before.push(g[i as int].id));
                }
            }
            let ghost before = wave_texts(waves@);
            waves.push(sort_texts(members));
            proof {
                assert(wave_texts(waves@) =~= before.push(all[w as int]));
                assert(all.take(w + 1) =~= before.push(all[w as int]));
            }
            w += 1;
        }
        proof {
            assert(all.take(w as int) =~= all);
        }
        Ok(waves)
    }
}

} // verus!
