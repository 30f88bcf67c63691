//! What holds of settings that are laid over one another.
use vstd::prelude::*;

use crate::config::{
    base_graph, chosen, command_of, default_nodes, found, packaged, replaced, resolved_graph,
    respecified, versioned, with_options, with_spec, with_specs, ConfigErrorModel, OptionsModel,
    SpecModel,
};
use crate::graph::{
    declares, first_at, last_at, lemma_first_at, lemma_first_at_is, lemma_last_at, KindModel,
    NodeModel, When,
};
use crate::laws::{law_shape_decides_order, same_shape};
use crate::order::{
    cyclic, deps, graph_error, is_walk, law_valid_iff, lemma_resolved_contains, unique_ids,
};
use crate::preset::{
    build_node, fresh, hyva_flagged, law_fresh_is_new, tailwind_nodes, waiting_for, with_builds,
    Preset,
};
use crate::textmap::keys_ascend;

verus! {

/// The ids of the default graph differ.
proof fn lemma_default_ids()
    ensures
        "composer-install"@.len() == 16,
        "di-compile"@.len() == 10,
        "package"@.len() == 7,
        "autoload-dump"@.len() == 13,
        "static-deploy"@.len() == 13,
        "autoload-dump"@ != "static-deploy"@,
{
    reveal_strlit("composer-install");
    reveal_strlit("di-compile");
    reveal_strlit("package");
    reveal_strlit("autoload-dump");
    reveal_strlit("static-deploy");
    assert("autoload-dump"@[0] == 'a');
    assert("static-deploy"@[0] == 's');
}

/// Replacing a node that keeps its id moves no node to another place.
proof fn lemma_replaced(g: Seq<NodeModel>, id: Seq<char>, node: NodeModel)
    requires
        node.id == id,
    ensures
        replaced(g, id, node).len() == g.len(),
        forall|i: int| 0 <= i < g.len() ==> (#[trigger] replaced(g, id, node)[i]).id == g[i].id,
        forall|other: Seq<char>| #[trigger] first_at(replaced(g, id, node), other) == first_at(g, other),
        forall|other: Seq<char>| #[trigger] declares(replaced(g, id, node), other) == declares(g, other),
        declares(g, id) ==> found(replaced(g, id, node), id) == node,
        forall|other: Seq<char>|
            other != id && #[trigger] declares(g, other) ==> found(replaced(g, id, node), other) == found(g, other),
{
    let h = replaced(g, id, node);
    lemma_first_at(g, id);
    assert forall|i: int| 0 <= i < g.len() implies (#[trigger] h[i]).id == g[i].id by {}
    assert forall|other: Seq<char>| #[trigger] first_at(h, other) == first_at(g, other) by {
        lemma_first_at(g, other);
        lemma_first_at(h, other);
        let k = first_at(g, other);
        if k >= 0 {
            assert(h[k].id == other);
            lemma_first_at_is(h, other, k);
        } else if first_at(h, other) >= 0 {
            assert(g[first_at(h, other)].id == other);
            assert(declares(g, other));
        }
    }
    assert forall|other: Seq<char>| #[trigger] declares(h, other) == declares(g, other) by {
        lemma_first_at(g, other);
        lemma_first_at(h, other);
        assert(first_at(h, other) == first_at(g, other));
    }
    assert forall|other: Seq<char>| other != id && #[trigger] declares(g, other) implies found(h, other) == found(
        g,
        other,
    ) by {
        lemma_first_at(g, other);
        assert(first_at(h, other) == first_at(g, other));
    }
    assert(first_at(h, id) == first_at(g, id));
}

/// Adding a node at the end leaves the nodes under other ids alone.
proof fn lemma_pushed(g: Seq<NodeModel>, node: NodeModel)
    requires
        !declares(g, node.id),
    ensures
        declares(g.push(node), node.id),
        found(g.push(node), node.id) == node,
        forall|other: Seq<char>| #[trigger]
            declares(g.push(node), other) <==> declares(g, other) || other == node.id,
        forall|other: Seq<char>| #[trigger] declares(g, other) ==> found(g.push(node), other) == found(g, other),
{
    let h = g.push(node);
    assert(h.drop_last() =~= g);
    assert(h.last() == node);
    lemma_first_at(g, node.id);
    lemma_first_at(h, node.id);
    assert(h[g.len() as int].id == node.id);
    assert forall|other: Seq<char>| #[trigger] declares(h, other) <==> declares(g, other) || other == node.id by {
        lemma_first_at(g, other);
        lemma_first_at(h, other);
    }
    assert forall|other: Seq<char>| #[trigger] declares(g, other) implies found(h, other) == found(g, other) by {
        lemma_first_at(g, other);
        lemma_first_at(h, other);
    }
}

/// A spec changes or adds its own node, and no other.
pub proof fn law_spec_touches_one(g: Seq<NodeModel>, id: Seq<char>, spec: SpecModel)
    requires
        with_spec(g, id, spec) is Some,
    ensures
        declares(with_spec(g, id, spec)->0, id),
        declares(g, id) ==> found(with_spec(g, id, spec)->0, id) == respecified(found(g, id), spec),
        !declares(g, id) ==> found(with_spec(g, id, spec)->0, id) == (NodeModel {
            id,
            after: chosen(spec.after, seq![]),
            kind: command_of(spec),
            when: When::Always,
        }),
        forall|other: Seq<char>|
            other != id ==> #[trigger] declares(with_spec(g, id, spec)->0, other) == declares(g, other),
        forall|other: Seq<char>|
            other != id && #[trigger] declares(g, other) ==> found(with_spec(g, id, spec)->0, other) == found(g, other),
{
    lemma_first_at(g, id);
    if declares(g, id) {
        lemma_replaced(g, id, respecified(found(g, id), spec));
    } else {
        lemma_pushed(
            g,
            NodeModel { id, after: chosen(spec.after, seq![]), kind: command_of(spec), when: When::Always },
        );
    }
}

/// Whether some spec is for the id.
pub open spec fn mentioned(specs: Seq<(Seq<char>, SpecModel)>, id: Seq<char>) -> bool {
    exists|k: int| 0 <= k < specs.len() && (#[trigger] specs[k]).0 == id
}

/// A node that the settings file does not mention is left as it was, and none
/// appears under such an id.
pub proof fn law_unmentioned_stays(g: Seq<NodeModel>, specs: Seq<(Seq<char>, SpecModel)>, id: Seq<char>)
    requires
        with_specs(g, specs) is Ok,
        !mentioned(specs, id),
    ensures
        declares(with_specs(g, specs)->Ok_0, id) == declares(g, id),
        declares(g, id) ==> found(with_specs(g, specs)->Ok_0, id) == found(g, id),
    decreases specs.len(),
{
    if specs.len() > 0 {
        let front = specs.drop_last();
        assert(specs[specs.len() - 1].0 != id);
        if mentioned(front, id) {
            let k = choose|k: int| 0 <= k < front.len() && (#[trigger] front[k]).0 == id;
            assert(specs[k].0 == id);
        }
        law_unmentioned_stays(g, front, id);
        law_spec_touches_one(with_specs(g, front)->Ok_0, specs.last().0, specs.last().1);
    }
}

/// The settings file wins over what it is laid on: the node that a spec is for
/// ends up as the spec says. A node that was there before keeps what the spec does
/// not set; another one is added as a command.
pub proof fn law_file_wins(g: Seq<NodeModel>, specs: Seq<(Seq<char>, SpecModel)>, k: int)
    requires
        keys_ascend(specs),
        with_specs(g, specs) is Ok,
        0 <= k < specs.len(),
    ensures
        declares(with_specs(g, specs)->Ok_0, specs[k].0),
        declares(g, specs[k].0) ==> found(with_specs(g, specs)->Ok_0, specs[k].0) == respecified(
            found(g, specs[k].0),
            specs[k].1,
        ),
        !declares(g, specs[k].0) ==> specs[k].1.run is Some && found(with_specs(g, specs)->Ok_0, specs[k].0) == (
        NodeModel {
            id: specs[k].0,
            after: chosen(specs[k].1.after, seq![]),
            kind: command_of(specs[k].1),
            when: When::Always,
        }),
    decreases specs.len(),
{
    let front = specs.drop_last();
    let h = with_specs(g, front)->Ok_0;
    assert forall|i: int, j: int|
        #![trigger front[i], front[j]]
        0 <= i < j < front.len() implies crate::text::text_le(front[i].0, front[j].0) && front[i].0
        != front[j].0 by {
        assert(front[i] == specs[i]);
        assert(front[j] == specs[j]);
    }
    law_spec_touches_one(h, specs.last().0, specs.last().1);
    if k < specs.len() - 1 {
        law_file_wins(g, front, k);
        assert(front[k] == specs[k]);
        assert(specs[k].0 != specs[specs.len() - 1].0);
    } else {
        if mentioned(front, specs.last().0) {
            let m = choose|m: int| 0 <= m < front.len() && (#[trigger] front[m]).0 == specs.last().0;
            assert(specs[m].0 == specs[specs.len() - 1].0);
        }
        law_unmentioned_stays(g, front, specs.last().0);
    }
}

/// The command line wins over everything else: naming an archive makes the packaging
/// node run, whatever that node does, and a built-in packaging step writes that
/// archive; the excludes file and the content version take effect; and whatever the
/// command line does not name, and every other node, stays as it was.
pub proof fn law_options_win(g: Seq<NodeModel>, opts: OptionsModel)
    ensures
        same_shape(g, with_options(g, opts)),
        forall|id: Seq<char>| #[trigger] declares(with_options(g, opts), id) == declares(g, id),
        declares(g, "package"@) ==> found(with_options(g, opts), "package"@) == packaged(found(g, "package"@), opts),
        declares(g, "package"@) && opts.artifact is Some ==> found(with_options(g, opts), "package"@).when
            == When::Always,
        declares(g, "static-deploy"@) ==> found(with_options(g, opts), "static-deploy"@) == versioned(
            found(g, "static-deploy"@),
            opts,
        ),
        forall|id: Seq<char>|
            id != "package"@ && id != "static-deploy"@ && #[trigger] declares(g, id) ==> found(
                with_options(g, opts),
                id,
            ) == found(g, id),
{
    let p = "package"@;
    let d = "static-deploy"@;
    lemma_default_ids();
    lemma_first_at(g, p);
    lemma_replaced(g, p, NodeModel { id: p, ..packaged(found(g, p), opts) });
    let h = replaced(g, p, packaged(found(g, p), opts));
    if declares(g, p) {
        assert(packaged(found(g, p), opts).id == p);
    }
    assert(h == replaced(g, p, NodeModel { id: p, ..packaged(found(g, p), opts) }));
    lemma_first_at(h, d);
    lemma_replaced(h, d, NodeModel { id: d, ..versioned(found(h, d), opts) });
    let r = replaced(h, d, versioned(found(h, d), opts));
    if declares(h, d) {
        assert(versioned(found(h, d), opts).id == d);
    }
    assert(r == replaced(h, d, NodeModel { id: d, ..versioned(found(h, d), opts) }));
    assert(r == with_options(g, opts));
    assert forall|i: int| 0 <= i < g.len() implies (#[trigger] g[i]).id == r[i].id && g[i].after == r[i].after by {
        assert(r[i].id == h[i].id);
        assert(h[i].after == g[i].after);
        assert(r[i].after == h[i].after);
    }
    assert(declares(h, d) == declares(g, d));
    assert(declares(h, p) == declares(g, p));
    assert forall|id: Seq<char>| #[trigger] declares(r, id) == declares(g, id) by {
        assert(declares(h, id) == declares(g, id));
    }
    assert forall|id: Seq<char>| id != p && id != d && #[trigger] declares(g, id) implies found(r, id) == found(
        g,
        id,
    ) by {
        assert(declares(h, id));
    }
}

/// A graph whose edges all lead to lower ranks has no cycle.
proof fn lemma_ranked_is_acyclic(g: Seq<NodeModel>, rank: Seq<int>)
    requires
        rank.len() == g.len(),
        forall|i: int, d: int|
            0 <= i < g.len() && #[trigger] deps(g, i).contains(d) ==> 0 <= d < g.len() && rank[d] < rank[i],
    ensures
        !cyclic(g),
{
    if cyclic(g) {
        let p = choose|p: Seq<int>| #[trigger] is_walk(g, p) && p.len() >= 2 && p[0] == p[p.len() - 1];
        lemma_walk_descends(g, rank, p, p.len() - 1);
    }
}

proof fn lemma_walk_descends(g: Seq<NodeModel>, rank: Seq<int>, p: Seq<int>, k: int)
    requires
        rank.len() == g.len(),
        forall|i: int, d: int|
            0 <= i < g.len() && #[trigger] deps(g, i).contains(d) ==> 0 <= d < g.len() && rank[d] < rank[i],
        is_walk(g, p),
        0 <= k < p.len(),
    ensures
        rank[p[k]] + k <= rank[p[0]],
    decreases k,
{
    if k > 0 {
        lemma_walk_descends(g, rank, p, k - 1);
        assert(0 <= p[k - 1] < g.len());
        assert(deps(g, p[k - 1]).contains(p[k - 1 + 1]));
    }
}

/// What adding build nodes gives: the old nodes, then one build node per
/// directory, under ids that are new and distinct.
proof fn lemma_with_builds(g: Seq<NodeModel>, ids: Seq<Seq<char>>, dirs: Seq<Seq<char>>)
    requires
        ids.len() == dirs.len(),
        unique_ids(g),
    ensures
        ({
            let (h, used) = with_builds(g, ids, dirs);
            &&& h.len() == g.len() + dirs.len()
            &&& used.len() == dirs.len()
            &&& unique_ids(h)
            &&& forall|i: int| 0 <= i < g.len() ==> #[trigger] h[i] == g[i]
            &&& forall|k: int| 0 <= k < dirs.len() ==> #[trigger] h[g.len() + k] == build_node(used[k], dirs[k])
        }),
    decreases dirs.len(),
{
    if dirs.len() > 0 {
        lemma_with_builds(g, ids.drop_last(), dirs.drop_last());
        let (h0, used0) = with_builds(g, ids.drop_last(), dirs.drop_last());
        let (h, used) = with_builds(g, ids, dirs);
        let id = fresh(h0, ids.last());
        law_fresh_is_new(h0, ids.last());
        assert forall|i: int, j: int| 0 <= i < j < h.len() implies (#[trigger] h[i]).id != (#[trigger] h[j]).id by {
            assert(h[i] == h0[i]);
            if j < h0.len() {
                assert(h[j] == h0[j]);
            } else {
                assert(h[j].id == id);
            }
        }
        assert forall|i: int| 0 <= i < g.len() implies #[trigger] h[i] == g[i] by {
            assert(h0[i] == g[i]);
        }
        assert forall|k: int| 0 <= k < dirs.len() implies #[trigger] h[g.len() + k] == build_node(used[k], dirs[k]) by {
            if k < dirs.len() - 1 {
                assert(h0[g.len() + k] == build_node(used0[k], dirs.drop_last()[k]));
            }
        }
    }
}

/// What the extended list of edges holds.
proof fn lemma_waiting_for(after: Seq<Seq<char>>, ids: Seq<Seq<char>>)
    ensures
        forall|x: Seq<char>| #[trigger] waiting_for(after, ids).contains(x) <==> after.contains(x) || ids.contains(x),
    decreases ids.len(),
{
    let all = waiting_for(after, ids);
    if ids.len() > 0 {
        let front = waiting_for(after, ids.drop_last());
        lemma_waiting_for(after, ids.drop_last());
        assert forall|x: Seq<char>| #[trigger] all.contains(x) <==> after.contains(x) || ids.contains(x) by {
            assert(ids.contains(x) <==> ids.drop_last().contains(x) || x == ids.last()) by {
                if ids.contains(x) {
                    let k = ids.index_of(x);
                    if k < ids.len() - 1 {
                        assert(ids.drop_last()[k] == x);
                    }
                }
                if ids.drop_last().contains(x) {
                    assert(ids[ids.drop_last().index_of(x)] == x);
                }
                assert(ids[ids.len() - 1] == ids.last());
            }
            if !front.contains(ids.last()) {
                assert(all.contains(x) <==> front.contains(x) || x == ids.last()) by {
                    if all.contains(x) {
                        let k = all.index_of(x);
                        if k < front.len() {
                            assert(front[k] == x);
                        }
                    }
                    if front.contains(x) {
                        assert(all[front.index_of(x)] == x);
                    }
                    assert(all[front.len() as int] == ids.last());
                }
            }
        }
    }
}

/// The shape of a graph that a preset has made of the default graph: the five
/// default nodes, of which the static deploy waits for the builds too, then the
/// builds, each waiting for the installation alone.
pub open spec fn preset_shape(g: Seq<NodeModel>) -> bool {
    let d = default_nodes();
    &&& g.len() >= 5
    &&& unique_ids(g)
    &&& forall|i: int| 0 <= i < 5 ==> (#[trigger] g[i]).id == d[i].id && (i != 3 ==> g[i].after == d[i].after)
    &&& g[3].after.contains("composer-install"@)
    &&& forall|x: Seq<char>|
        g[3].after.contains(x) ==> x == "composer-install"@ || exists|k: int|
            5 <= k < g.len() && (#[trigger] g[k]).id == x
    &&& forall|k: int| 5 <= k < g.len() ==> (#[trigger] g[k]).after == seq!["composer-install"@] && g[3].after.contains(g[k].id)
}

proof fn lemma_default_unique()
    ensures
        unique_ids(default_nodes()),
{
    lemma_default_ids();
    let d = default_nodes();
    assert forall|i: int, j: int| 0 <= i < j < d.len() implies (#[trigger] d[i]).id != (#[trigger] d[j]).id by {
        assert(i == 0 || i == 1 || i == 2 || i == 3);
        assert(j == 1 || j == 2 || j == 3 || j == 4);
    }
}

proof fn lemma_base_shape(preset: Option<Preset>, dirs: Seq<Seq<char>>)
    ensures
        preset_shape(base_graph(preset, dirs)),
{
    lemma_default_ids();
    lemma_default_unique();
    let d = default_nodes();
    let sd = "static-deploy"@;
    assert(d[3].after =~= seq!["composer-install"@]);
    assert(d[3].after[0] == "composer-install"@);
    match preset {
        None => {},
        Some(Preset::Hyva) => {
            lemma_first_at_is(d, sd, 3);
            lemma_first_at(d, sd);
            let flagged = replaced(d, sd, hyva_flagged(found(d, sd)));
            assert forall|i: int| 0 <= i < 5 implies (#[trigger] flagged[i]).id == d[i].id && flagged[i].after
                == d[i].after by {}
            assert forall|i: int, j: int| 0 <= i < j < flagged.len() implies (#[trigger] flagged[i]).id != (
            #[trigger] flagged[j]).id by {
                assert(d[i].id != d[j].id);
            }
            let ids = tailwind_nodes(dirs);
            lemma_with_builds(flagged, ids, dirs);
            let (h, used) = with_builds(flagged, ids, dirs);
            assert(h[3] == flagged[3]);
            assert forall|j: int| 0 <= j < 3 implies (#[trigger] h[j]).id != sd by {
                assert(h[j] == flagged[j]);
                assert(h[j].id != h[3].id);
            }
            lemma_first_at_is(h, sd, 3);
            lemma_first_at(h, sd);
            let g = base_graph(preset, dirs);
            assert(g == h.update(3, NodeModel { after: waiting_for(h[3].after, used), ..h[3] }));
            lemma_waiting_for(h[3].after, used);
            assert forall|i: int| 0 <= i < 5 implies (#[trigger] g[i]).id == d[i].id && (i != 3 ==> g[i].after
                == d[i].after) by {
                assert(h[i] == flagged[i]);
            }
            assert forall|i: int, j: int| 0 <= i < j < g.len() implies (#[trigger] g[i]).id != (#[trigger] g[j]).id by {
                assert(h[i].id != h[j].id);
            }
            assert forall|x: Seq<char>| g[3].after.contains(x) implies x == "composer-install"@ || exists|k: int|
                5 <= k < g.len() && (#[trigger] g[k]).id == x by {
                if used.contains(x) {
                    let k = used.index_of(x);
                    assert(h[flagged.len() + k] == build_node(used[k], dirs[k]));
                    assert(g[5 + k].id == x);
                }
            }
            assert forall|k: int| 5 <= k < g.len() implies (#[trigger] g[k]).after == seq!["composer-install"@]
                && g[3].after.contains(g[k].id) by {
                let m = k - 5;
                assert(h[flagged.len() + m] == build_node(used[m], dirs[m]));
                assert(used.contains(used[m]));
            }
        },
    }
}

proof fn lemma_unique_place(g: Seq<NodeModel>, i: int)
    requires
        unique_ids(g),
        0 <= i < g.len(),
    ensures
        last_at(g, g[i].id) == i,
        declares(g, g[i].id),
{
    lemma_last_at(g, g[i].id);
    assert(declares(g, g[i].id));
    let k = last_at(g, g[i].id);
    if k != i {
        assert(g[k].id == g[i].id);
    }
}

proof fn lemma_shape_valid(g: Seq<NodeModel>)
    requires
        preset_shape(g),
    ensures
        graph_error(g) is None,
{
    let d = default_nodes();
    let n = g.len() as int;
    assert forall|i: int| 0 <= i < n implies last_at(g, (#[trigger] g[i]).id) == i && declares(g, g[i].id) by {
        lemma_unique_place(g, i);
    }
    assert(g[0].id == "composer-install"@);
    assert(g[1].id == "di-compile"@);
    assert(g[2].id == "autoload-dump"@);
    assert(g[3].id == "static-deploy"@);
    assert(g[4].id == "package"@);
    assert(g[0].after =~= Seq::<Seq<char>>::empty());
    assert(g[1].after =~= seq!["composer-install"@]);
    assert(g[2].after =~= seq!["di-compile"@]);
    assert(g[4].after =~= seq!["autoload-dump"@, "static-deploy"@]);
    let rank = Seq::new(
        g.len(),
        |i: int|
            if i == 0 {
                0int
            } else if i == 1 || i >= 5 {
                1int
            } else if i == 2 || i == 3 {
                2int
            } else {
                3int
            },
    );
    assert forall|i: int, k: int| 0 <= i < n && 0 <= k < g[i].after.len() implies declares(
        g,
        #[trigger] g[i].after[k],
    ) && 0 <= last_at(g, g[i].after[k]) < n && rank[last_at(g, g[i].after[k])] < rank[i] by {
        if i == 3 {
            let x = g[3].after[k];
            assert(g[3].after.contains(x));
            if x != "composer-install"@ {
                let m = choose|m: int| 5 <= m < g.len() && (#[trigger] g[m]).id == x;
                assert(last_at(g, g[m].id) == m);
            }
        } else if i >= 5 {
            assert(g[i].after == seq!["composer-install"@]);
        }
    }
    assert forall|i: int, e: int| 0 <= i < g.len() && #[trigger] deps(g, i).contains(e) implies 0 <= e < g.len()
        && rank[e] < rank[i] by {
        lemma_resolved_contains(g, g[i].after, e);
        let k = choose|k: int| 0 <= k < g[i].after.len() && last_at(g, #[trigger] g[i].after[k]) == e && e >= 0;
        assert(rank[last_at(g, g[i].after[k])] < rank[i]);
    }
    lemma_ranked_is_acyclic(g, rank);
    law_valid_iff(g);
}

/// Without a settings file, every command line gives a valid graph, whatever a
/// preset finds to build.
pub proof fn law_options_keep_valid(opts: OptionsModel, dirs: Seq<Seq<char>>)
    ensures
        resolved_graph(seq![], opts, dirs) == Ok::<Seq<NodeModel>, ConfigErrorModel>(
            with_options(base_graph(opts.preset, dirs), opts),
        ),
{
    let g = base_graph(opts.preset, dirs);
    lemma_base_shape(opts.preset, dirs);
    lemma_shape_valid(g);
    law_options_win(g, opts);
    law_shape_decides_order(g, with_options(g, opts));
}

/// Under a preset the static deploy has the preset's flags and waits for the build
/// of every directory, and each build waits for the installation alone.
pub proof fn law_builds_come_first(preset: Preset, dirs: Seq<Seq<char>>)
    ensures
        preset_shape(base_graph(Some(preset), dirs)),
        base_graph(Some(preset), dirs)[3].kind == hyva_flagged(default_nodes()[3]).kind,
        base_graph(Some(preset), dirs).len() == 5 + dirs.len(),
        forall|k: int|
            0 <= k < dirs.len() ==> (#[trigger] base_graph(Some(preset), dirs)[5 + k]).kind == (KindModel::Command {
                run: "npm ci --ignore-scripts && npm run build"@,
                cwd: Some(dirs[k]),
                env: seq![],
            }),
{
    lemma_base_shape(Some(preset), dirs);
    lemma_default_ids();
    lemma_default_unique();
    let d = default_nodes();
    let sd = "static-deploy"@;
    lemma_first_at_is(d, sd, 3);
    let flagged = replaced(d, sd, hyva_flagged(found(d, sd)));
    assert(declares(d, sd)) by {
        assert(d[3].id == sd);
    }
    assert forall|i: int, j: int| 0 <= i < j < flagged.len() implies (#[trigger] flagged[i]).id != (
    #[trigger] flagged[j]).id by {
        assert(d[i].id != d[j].id);
    }
    lemma_with_builds(flagged, tailwind_nodes(dirs), dirs);
    let (h, used) = with_builds(flagged, tailwind_nodes(dirs), dirs);
    assert(h[3] == flagged[3]);
    assert forall|j: int| 0 <= j < 3 implies (#[trigger] h[j]).id != sd by {
        assert(h[j].id != h[3].id);
    }
    lemma_first_at_is(h, sd, 3);
    let g = base_graph(Some(preset), dirs);
    assert forall|k: int| 0 <= k < dirs.len() implies (#[trigger] g[5 + k]).kind == (KindModel::Command {
        run: "npm ci --ignore-scripts && npm run build"@,
        cwd: Some(dirs[k]),
        env: seq![],
    }) by {
        assert(h[flagged.len() + k] == build_node(used[k], dirs[k]));
    }
}

} // verus!
