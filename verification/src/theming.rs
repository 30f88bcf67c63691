//! What holds of the graph that a preset makes, and of the default graph under it.
use vstd::prelude::*;

use crate::config::{
    base_graph, default_nodes, found, replaced, with_spec, with_specs, SpecModel,
};
use crate::graph::{
    declares, first_at, lemma_first_at, lemma_first_at_is, KindModel, NodeModel, When,
};
use crate::path::{
    components, distinct_neighbours, law_sorted_paths_ascend, parts_le, path_order, PartModel,
};
use crate::precedence::{law_builds_come_first, law_file_wins, preset_shape};
use crate::preset::{
    built_first, fresh, hyva_flagged, law_fresh_is_new, lowercase, preset_applied, tailwind_dirs,
    tailwind_id, tailwind_node, tailwind_nodes, theme_name, waiting_for, with_builds, Preset,
};
use crate::text::{ascending, law_ascending_permutes};
use crate::textmap::keys_ascend;
use crate::textual::{holds_path, law_components_grow_by_name, law_repeats_are_dropped, plain_name};
use crate::tuning::laid_over;

verus! {

/// The default graph: an installation, then a DI compile before an autoload dump, beside
/// a static deploy, then packaging behind both, which alone does not run by itself.
pub proof fn law_default_build(i: int)
    requires
        0 <= i < default_nodes().len(),
    ensures
        default_nodes().len() == 5,
        ({
            let n = default_nodes()[i];
            &&& n.kind is Native
            &&& n.when == When::Never <==> n.kind->Native_0 is Package
            &&& i == 0 ==> n.id == "composer-install"@ && n.after.len() == 0
            &&& i == 1 ==> n.id == "di-compile"@ && n.after == seq!["composer-install"@]
            &&& i == 2 ==> n.id == "autoload-dump"@ && n.after == seq!["di-compile"@]
            &&& i == 3 ==> n.id == "static-deploy"@ && n.after == seq!["composer-install"@]
            &&& i == 4 ==> n.id == "package"@ && n.after == seq!["autoload-dump"@, "static-deploy"@]
            &&& i == 0 <==> n.kind->Native_0 is ComposerInstall
            &&& i == 1 <==> n.kind->Native_0 is DiCompile
            &&& i == 2 <==> n.kind->Native_0 is AutoloadDump
            &&& i == 3 <==> n.kind->Native_0 is StaticDeploy
            &&& i == 4 <==> n.kind->Native_0 is Package
        }),
{
    let n = default_nodes()[i];
    assert(default_nodes()[0].after =~= seq![]);
    assert(i == 0 || i == 1 || i == 2 || i == 3 || i == 4);
}

/// The options of the default graph: production packages, extracted; an optimized
/// autoloader; every theme in one locale for both areas, with nothing left out; and an
/// archive by gzip without an excludes file.
pub proof fn law_default_options()
    ensures
        default_nodes()[0].kind->Native_0->ComposerInstall_no_dev,
        !default_nodes()[0].kind->Native_0->hardlink,
        default_nodes()[0].kind->Native_0->cache_root is None,
        !default_nodes()[1].kind->Native_0->fused,
        default_nodes()[2].kind->Native_0->AutoloadDump_no_dev,
        default_nodes()[2].kind->Native_0->optimize,
        ({
            let deploy = default_nodes()[3].kind->Native_0;
            &&& deploy->themes == seq!["*"@]
            &&& deploy->locales == seq!["en_US"@]
            &&& deploy->areas == seq!["frontend"@, "adminhtml"@]
            &&& !deploy->no_parent && !deploy->no_less && !deploy->no_js_bundle
            &&& !deploy->no_html_minify && !deploy->symlink
            &&& deploy->deployed_version is None && deploy->command is None
        }),
        default_nodes()[4].kind->Native_0->output == "artifact.tar.gz"@,
        default_nodes()[4].kind->Native_0->exclude_from is None,
{
}

/// A node that the settings file adds is a command as the file describes it, waits for
/// what the file says or for nothing, and runs.
pub proof fn law_new_nodes_are_commands(g: Seq<NodeModel>, specs: Seq<(Seq<char>, SpecModel)>, k: int)
    requires
        keys_ascend(specs),
        with_specs(g, specs) is Ok,
        0 <= k < specs.len(),
        !declares(g, specs[k].0),
    ensures
        ({
            let node = found(with_specs(g, specs)->Ok_0, specs[k].0);
            let spec = specs[k].1;
            &&& declares(with_specs(g, specs)->Ok_0, specs[k].0)
            &&& node.id == specs[k].0
            &&& node.when == When::Always
            &&& laid_over(spec.after, Seq::empty(), node.after)
            &&& node.kind is Command
            &&& spec.run == Some(node.kind->run)
            &&& node.kind->cwd == spec.cwd
            &&& laid_over(spec.env, Seq::empty(), node.kind->env)
        }),
{
    law_file_wins(g, specs, k);
}

/// A spec for one id leaves every node in its place, changes none but the first node
/// with the id, and adds a node for a new id at the end. It is refused exactly where it
/// describes a new node without a `run`.
pub proof fn law_spec_is_local(g: Seq<NodeModel>, id: Seq<char>, spec: SpecModel, i: int)
    ensures
        with_spec(g, id, spec) is None <==> !declares(g, id) && spec.run is None,
        with_spec(g, id, spec) matches Some(h) ==> {
            &&& declares(g, id) ==> h.len() == g.len()
            &&& !declares(g, id) ==> h.len() == g.len() + 1 && h.last().id == id
            &&& 0 <= i < g.len() ==> h[i].id == g[i].id && (h[i].when == When::Always || h[i].when == g[i].when)
            &&& 0 <= i < g.len() && g[i].id != id ==> h[i] == g[i]
            &&& 0 <= i < g.len() && (exists|j: int| 0 <= j < i && (#[trigger] g[j]).id == id) ==> h[i] == g[i]
        },
{
    lemma_first_at(g, id);
}

/// A Hyvä shop deploys without parents, LESS, bundles and minified HTML, and by links;
/// the rest of the static deploy is kept, and so is every other node.
pub proof fn law_hyva_flags(node: NodeModel)
    ensures
        ({
            let r = hyva_flagged(node);
            let deploys = node.kind matches KindModel::Native(step) && step is StaticDeploy;
            &&& r.id == node.id && r.after == node.after && r.when == node.when
            &&& !deploys ==> r == node
            &&& deploys ==> {
                let before = node.kind->Native_0;
                let now = r.kind->Native_0;
                &&& r.kind is Native && now is StaticDeploy
                &&& now->no_parent && now->no_less && now->no_js_bundle && now->no_html_minify && now->symlink
                &&& now->themes == before->themes && now->locales == before->locales && now->areas == before->areas
                &&& now->deployed_version == before->deployed_version && now->command == before->command
            }
        }),
{
}

/// The Hyvä preset on any graph: every node keeps its place, its id and its mark; the
/// first static deploy gets the flags and waits for the builds too; every other node
/// stays as it was; and behind them comes one build per directory, which runs in that
/// directory and waits for the installation.
pub proof fn law_hyva_graph(g: Seq<NodeModel>, dirs: Seq<Seq<char>>, i: int, k: int)
    ensures
        ({
            let r = preset_applied(g, Preset::Hyva, dirs);
            let deploys = 0 <= i < g.len() && g[i].id == "static-deploy"@ && forall|j: int|
                0 <= j < i ==> (#[trigger] g[j]).id != "static-deploy"@;
            &&& r.len() == g.len() + dirs.len()
            &&& 0 <= i < g.len() && !deploys ==> r[i] == g[i]
            &&& deploys ==> {
                &&& r[i].id == g[i].id && r[i].when == g[i].when
                &&& r[i].after.len() >= g[i].after.len() && r[i].after.take(g[i].after.len() as int) == g[i].after
                &&& g[i].kind is Command ==> r[i].kind == g[i].kind
                &&& g[i].kind matches KindModel::Native(before) ==> !(before is StaticDeploy) ==> r[i].kind == g[i].kind
                &&& g[i].kind matches KindModel::Native(before) ==> before is StaticDeploy ==> {
                    let now = r[i].kind->Native_0;
                    &&& r[i].kind is Native && now is StaticDeploy
                    &&& now->no_parent && now->no_less && now->no_js_bundle && now->no_html_minify && now->symlink
                    &&& now->themes == before->themes && now->locales == before->locales
                    &&& now->areas == before->areas && now->deployed_version == before->deployed_version
                    &&& now->command == before->command
                }
                &&& 0 <= k < dirs.len() ==> r[i].after.contains(r[g.len() + k].id)
            }
            &&& 0 <= k < dirs.len() ==> {
                let b = r[g.len() + k];
                &&& b.kind is Command
                &&& b.kind->run == "npm ci --ignore-scripts && npm run build"@
                &&& b.kind->cwd == Some(dirs[k])
                &&& b.kind->env.len() == 0
                &&& b.after == seq!["composer-install"@]
                &&& b.when == When::Always
            }
        }),
{
    let sd = "static-deploy"@;
    lemma_first_at(g, sd);
    let flagged = replaced(g, sd, hyva_flagged(found(g, sd)));
    let ids = tailwind_nodes(dirs);
    lemma_used_ids(flagged, ids, dirs);
    let (h, used) = with_builds(flagged, ids, dirs);
    lemma_first_at(h, sd);
    let r = preset_applied(g, Preset::Hyva, dirs);
    assert(r == built_first(flagged, ids, dirs));
    law_edges_are_extended(h[first_at(h, sd)].after, used);
    if declares(g, sd) {
        let f = first_at(g, sd);
        assert(h[f] == flagged[f]);
        assert forall|j: int| 0 <= j < f implies (#[trigger] h[j]).id != sd by {
            assert(h[j] == flagged[j]);
        }
        lemma_first_at_is(h, sd, f);
        law_hyva_flags(g[f]);
    }
    if 0 <= i < g.len() {
        assert(h[i] == flagged[i]);
        if g[i].id == sd && forall|j: int| 0 <= j < i ==> (#[trigger] g[j]).id != sd {
            lemma_first_at_is(g, sd, i);
            assert(r[i].after == waiting_for(h[i].after, used));
            assert(h[i].after == g[i].after);
            if 0 <= k < dirs.len() {
                assert(h[flagged.len() + k].id == used[k]);
                assert(r[i].after.contains(used[k]));
                assert(r[g.len() + k].id == used[k]);
            }
        } else {
            if first_at(h, sd) == i {
                assert(h[i].id == sd);
                assert(g[i].id == sd);
                assert forall|j: int| 0 <= j < i implies (#[trigger] g[j]).id != sd by {
                    assert(h[j] == flagged[j]);
                    assert(h[j].id != sd);
                }
            }
            if first_at(g, sd) == i && declares(g, sd) {
                assert(g[i].id == sd);
            }
        }
    }
    if 0 <= k < dirs.len() {
        lemma_builds(flagged, ids, dirs, k);
        let before = h.take(flagged.len() + k);
        assert(h[flagged.len() + k].id == used[k]);
        assert(used[k] == fresh(before, ids[k]));
        law_fresh_is_new(before, ids[k]);
        assert(ids[k] == tailwind_node(dirs[k]));
        reveal_strlit("hyva-tailwind-");
        reveal_strlit("static-deploy");
        assert(ids[k][0] == 'h');
        assert(used[k].take(ids[k].len() as int)[0] == used[k][0]);
        assert(sd[0] == 's');
    }
}

proof fn lemma_builds(g: Seq<NodeModel>, ids: Seq<Seq<char>>, dirs: Seq<Seq<char>>, k: int)
    requires
        ids.len() == dirs.len(),
        0 <= k < dirs.len(),
    ensures
        ({
            let b = with_builds(g, ids, dirs).0[g.len() + k];
            &&& b.kind is Command
            &&& b.kind->run == "npm ci --ignore-scripts && npm run build"@
            &&& b.kind->cwd == Some(dirs[k])
            &&& b.kind->env.len() == 0
            &&& b.after == seq!["composer-install"@]
            &&& b.when == When::Always
        }),
    decreases dirs.len(),
{
    lemma_used_ids(g, ids.drop_last(), dirs.drop_last());
    let h0 = with_builds(g, ids.drop_last(), dirs.drop_last()).0;
    let h = with_builds(g, ids, dirs).0;
    if k < dirs.len() - 1 {
        lemma_builds(g, ids.drop_last(), dirs.drop_last(), k);
        assert(h[g.len() + k] == h0[g.len() + k]);
    } else {
        assert(h[g.len() + k] == h.last());
    }
}

/// The graph of the Hyvä preset over the defaults: the default nodes, of which only the
/// static deploy changes, and the builds, which the static deploy waits for.
pub proof fn law_hyva_build(dirs: Seq<Seq<char>>, i: int, k: int)
    ensures
        ({
            let g = base_graph(Some(Preset::Hyva), dirs);
            let deploy = g[3].kind->Native_0;
            &&& g.len() == 5 + dirs.len()
            &&& 0 <= i < 5 && i != 3 ==> g[i] == default_nodes()[i]
            &&& g[3].id == "static-deploy"@ && g[3].when == When::Always && g[3].kind is Native && deploy is StaticDeploy
            &&& deploy->no_parent && deploy->no_less && deploy->no_js_bundle && deploy->no_html_minify && deploy->symlink
            &&& deploy->themes == seq!["*"@] && deploy->locales == seq!["en_US"@]
            &&& g[3].after.contains("composer-install"@)
            &&& 0 <= k < dirs.len() ==> g[3].after.contains(g[5 + k].id)
        }),
{
    law_builds_come_first(Preset::Hyva, dirs);
    let g = base_graph(Some(Preset::Hyva), dirs);
    let d = default_nodes();
    assert(preset_shape(g));
    assert(g[3].id == d[3].id);
    assert forall|j: int| 0 <= j < 3 implies (#[trigger] d[j]).id != "static-deploy"@ by {
        assert(g[j].id == d[j].id);
        assert(g[j].id != g[3].id);
    }
    law_hyva_graph(d, dirs, 3, k);
    if 0 <= i < 5 && i != 3 {
        if i == 4 {
            assert(g[4].id == d[4].id);
            assert(g[3].id != g[4].id);
        } else {
            assert(d[i].id != "static-deploy"@);
        }
        law_hyva_graph(d, dirs, i, k);
    }
    if 0 <= k < dirs.len() {
        assert(g[5 + k].after == seq!["composer-install"@]);
    }
}

/// The edges of the static deploy are extended, not replaced: what was there comes
/// first, in its order, and every new edge comes behind, once.
pub proof fn law_edges_are_extended(after: Seq<Seq<char>>, ids: Seq<Seq<char>>)
    ensures
        waiting_for(after, ids).len() >= after.len(),
        waiting_for(after, ids).take(after.len() as int) == after,
        forall|k: int| 0 <= k < ids.len() ==> waiting_for(after, ids).contains(#[trigger] ids[k]),
        forall|k: int|
            after.len() <= k < waiting_for(after, ids).len() ==> ids.contains(#[trigger] waiting_for(after, ids)[k]),
        after.no_duplicates() ==> waiting_for(after, ids).no_duplicates(),
    decreases ids.len(),
{
    let all = waiting_for(after, ids);
    if ids.len() > 0 {
        let t = ids.drop_last();
        let front = waiting_for(after, t);
        law_edges_are_extended(after, t);
        assert(all.take(after.len() as int) =~= front.take(after.len() as int));
        assert forall|k: int| 0 <= k < ids.len() implies all.contains(#[trigger] ids[k]) by {
            if k < t.len() {
                assert(t[k] == ids[k]);
                assert(front.contains(t[k]));
                assert(all[front.index_of(t[k])] == ids[k]);
            } else if !front.contains(ids.last()) {
                assert(all[front.len() as int] == ids[k]);
            }
        }
        assert forall|k: int| after.len() <= k < all.len() implies ids.contains(#[trigger] all[k]) by {
            if k < front.len() {
                assert(all[k] == front[k]);
                let m = t.index_of(front[k]);
                assert(ids[m] == all[k]);
            } else {
                assert(ids[ids.len() - 1] == all[k]);
            }
        }
    } else {
        assert(all.take(after.len() as int) =~= after);
    }
}

/// The id of a theme's build node is as long as its name behind the common beginning,
/// keeps ASCII letters and digits, and has a hyphen for anything else.
pub proof fn law_build_ids_are_plain(theme: Seq<char>, k: int)
    requires
        0 <= k < theme.len(),
    ensures
        tailwind_id(theme).len() == 14 + theme.len(),
        tailwind_id(theme).take(14) == "hyva-tailwind-"@,
        ({
            let c = theme[k];
            let plain = 'a' <= c <= 'z' || 'A' <= c <= 'Z' || '0' <= c <= '9';
            &&& plain ==> tailwind_id(theme)[14 + k] == c
            &&& !plain ==> tailwind_id(theme)[14 + k] == '-'
        }),
{
    reveal_strlit("hyva-tailwind-");
    assert(tailwind_id(theme).take(14) =~= "hyva-tailwind-"@);
}

/// The build node of a theme directory is named after the theme, the directory two
/// levels above, in lowercase.
pub proof fn law_build_is_named_after_theme(base: Seq<char>, theme: Seq<char>, web: Seq<char>, styles: Seq<char>)
    requires
        base.len() > 0,
        plain_name(theme),
        plain_name(web),
        plain_name(styles),
    ensures
        ({
            let dir = base + seq!['/'] + theme + seq!['/'] + web + seq!['/'] + styles;
            &&& theme_name(dir) == Some(theme)
            &&& tailwind_node(dir) == tailwind_id(lowercase(theme))
        }),
        tailwind_node(styles) == tailwind_id("theme"@),
        tailwind_node(web + seq!['/'] + styles) == tailwind_id("theme"@),
{
    law_components_grow_by_name(base, theme);
    let a = base + seq!['/'] + theme;
    law_components_grow_by_name(a, web);
    let b = a + seq!['/'] + web;
    law_components_grow_by_name(b, styles);
    law_components_grow_by_name(web, styles);
    law_components_grow_by_name(base, styles);
    let dir = b + seq!['/'] + styles;
    let c = components(dir);
    assert(c == components(base).push(PartModel::Name(theme)).push(PartModel::Name(web)).push(PartModel::Name(styles)));
    assert(c[c.len() - 3] == PartModel::Name(theme));
    assert(components(web).len() == 1) by {
        law_components_grow_by_name(base, web);
    }
}

/// The directories in which styles are built: those of the project's own themes where
/// there are any, otherwise those of installed themes; none is lost, none is added, no
/// path stands twice, and they come in path order.
pub proof fn law_style_directories(project: Seq<Seq<char>>, vendor: Seq<Seq<char>>)
    ensures
        ({
            let source = if project.len() > 0 {
                project
            } else {
                vendor
            };
            let r = tailwind_dirs(project, vendor);
            &&& forall|k: int| 0 <= k < r.len() ==> source.contains(#[trigger] r[k])
            &&& forall|i: int| 0 <= i < source.len() ==> holds_path(r, #[trigger] source[i])
            &&& forall|a: int, b: int|
                0 <= a < b < r.len() ==> parts_le(components(#[trigger] r[a]), components(#[trigger] r[b])) && components(
                    r[a],
                ) != components(r[b])
        }),
{
    broadcast use vstd::seq_lib::group_to_multiset_ensures;

    let source = if project.len() > 0 {
        project
    } else {
        vendor
    };
    let s = ascending(source, path_order());
    let r = distinct_neighbours(s);
    law_ascending_permutes(source, path_order());
    law_sorted_paths_ascend(source);
    law_repeats_are_dropped(s);
    assert forall|x: Seq<char>| s.contains(x) <==> source.contains(x) by {
        assert(s.contains(x) <==> s.to_multiset().count(x) > 0);
        assert(source.contains(x) <==> source.to_multiset().count(x) > 0);
    }
    assert forall|k: int| 0 <= k < r.len() implies source.contains(#[trigger] r[k]) by {
        assert(s.contains(r[k]));
    }
    assert forall|i: int| 0 <= i < source.len() implies holds_path(r, #[trigger] source[i]) by {
        assert(source.contains(source[i]));
        let m = s.index_of(source[i]);
        assert(holds_path(r, s[m]));
    }
    lemma_strictly_ordered(s);
}

proof fn lemma_strictly_ordered(s: Seq<Seq<char>>)
    requires
        forall|i: int, j: int|
            0 <= i < j < s.len() ==> parts_le(components(#[trigger] s[i]), components(#[trigger] s[j])),
    ensures
        forall|a: int, b: int|
            0 <= a < b < distinct_neighbours(s).len() ==> parts_le(
                components(#[trigger] distinct_neighbours(s)[a]),
                components(#[trigger] distinct_neighbours(s)[b]),
            ) && components(distinct_neighbours(s)[a]) != components(distinct_neighbours(s)[b]),
    decreases s.len(),
{
    if s.len() > 0 {
        let t = s.drop_last();
        let f = distinct_neighbours(t);
        let r = distinct_neighbours(s);
        assert forall|i: int, j: int| 0 <= i < j < t.len() implies parts_le(
            components(#[trigger] t[i]),
            components(#[trigger] t[j]),
        ) by {
            assert(parts_le(components(s[i]), components(s[j])));
        }
        lemma_strictly_ordered(t);
        law_repeats_are_dropped(t);
        assert forall|a: int, b: int| 0 <= a < b < r.len() implies parts_le(
            components(#[trigger] r[a]),
            components(#[trigger] r[b]),
        ) && components(r[a]) != components(r[b]) by {
            assert(r[a] == f[a]);
            if b < f.len() {
                assert(r[b] == f[b]);
            } else {
                assert(t.contains(f[a]));
                let i = t.index_of(f[a]);
                assert(s[i] == f[a]);
                assert(r[b] == s[s.len() - 1]);
                assert(parts_le(components(s[i]), components(s[s.len() - 1])));
                if components(r[a]) == components(r[b]) {
                    let last = f.len() - 1;
                    assert(components(f[last]) != components(s.last()));
                    assert(t.contains(f[last]));
                    let j = t.index_of(f[last]);
                    assert(s[j] == f[last]);
                    assert(parts_le(components(s[j]), components(s[s.len() - 1])));
                    assert(a < last);
                    assert(parts_le(components(f[a]), components(f[last])));
                    crate::textual::law_path_order_is_antisymmetric(components(f[last]), components(s.last()));
                }
            }
        }
    }
}

/// A fresh id has no more underscores than it takes: every shorter form of it is in use.
pub proof fn law_fresh_is_shortest(g: Seq<NodeModel>, id: Seq<char>, m: int)
    requires
        id.len() <= m < fresh(g, id).len(),
    ensures
        declares(g, fresh(g, id).take(m)),
    decreases fresh(g, id).len() - id.len(),
{
    let r = fresh(g, id);
    law_fresh_is_new(g, id);
    if declares(g, id) {
        let next = id.push('_');
        lemma_fresh_step(g, id);
        if m == id.len() {
            assert(r.take(m) == id);
        } else {
            law_fresh_is_shortest(g, next, m);
        }
    }
}

proof fn lemma_fresh_step(g: Seq<NodeModel>, id: Seq<char>)
    requires
        declares(g, id),
    ensures
        fresh(g, id) == fresh(g, id.push('_')),
{
    let i = choose|i: int| 0 <= i < g.len() && (#[trigger] g[i]).id == id;
    crate::preset::lemma_longest(g, i);
}

proof fn lemma_used_ids(g: Seq<NodeModel>, ids: Seq<Seq<char>>, dirs: Seq<Seq<char>>)
    requires
        ids.len() == dirs.len(),
    ensures
        ({
            let (h, used) = with_builds(g, ids, dirs);
            &&& h.len() == g.len() + dirs.len()
            &&& used.len() == dirs.len()
            &&& forall|k: int| 0 <= k < g.len() ==> #[trigger] h[k] == g[k]
            &&& forall|k: int| 0 <= k < dirs.len() ==> #[trigger] used[k] == fresh(h.take(g.len() + k), ids[k])
            &&& forall|k: int| 0 <= k < dirs.len() ==> (#[trigger] h[g.len() + k]).id == used[k]
        }),
    decreases dirs.len(),
{
    if dirs.len() > 0 {
        let t = ids.drop_last();
        let d = dirs.drop_last();
        lemma_used_ids(g, t, d);
        let (h0, used0) = with_builds(g, t, d);
        let (h, used) = with_builds(g, ids, dirs);
        assert forall|k: int| 0 <= k < g.len() implies #[trigger] h[k] == g[k] by {
            assert(h0[k] == g[k]);
        }
        assert forall|k: int| 0 <= k < dirs.len() implies #[trigger] used[k] == fresh(h.take(g.len() + k), ids[k]) by {
            if k < d.len() {
                assert(used[k] == used0[k]);
                assert(h.take(g.len() + k) =~= h0.take(g.len() + k));
                assert(t[k] == ids[k]);
            } else {
                assert(h.take(g.len() + k) =~= h0);
            }
        }
        assert forall|k: int| 0 <= k < dirs.len() implies (#[trigger] h[g.len() + k]).id == used[k] by {
            if k < d.len() {
                assert(h0[g.len() + k].id == used0[k]);
            }
        }
    }
}

/// The build of a directory has the id made from its theme, or that id with underscores
/// behind it where an earlier node has it.
pub proof fn law_build_ids(dirs: Seq<Seq<char>>, k: int)
    requires
        0 <= k < dirs.len(),
    ensures
        ({
            let g = base_graph(Some(Preset::Hyva), dirs);
            let want = tailwind_node(dirs[k]);
            let id = g[5 + k].id;
            &&& g.len() == 5 + dirs.len()
            &&& id.len() >= want.len() && id.take(want.len() as int) == want
            &&& forall|m: int| want.len() <= m < id.len() ==> #[trigger] id[m] == '_'
            &&& (forall|j: int| 0 <= j < 5 + k ==> (#[trigger] g[j]).id != want) ==> id == want
        }),
{
    let sd = "static-deploy"@;
    let d = default_nodes();
    let flagged = replaced(d, sd, hyva_flagged(found(d, sd)));
    lemma_first_at(d, sd);
    let ids = tailwind_nodes(dirs);
    lemma_used_ids(flagged, ids, dirs);
    let (h, used) = with_builds(flagged, ids, dirs);
    lemma_first_at(h, sd);
    let g = base_graph(Some(Preset::Hyva), dirs);
    assert(g == built_first(flagged, ids, dirs));
    assert(g.len() == h.len());
    assert forall|j: int| 0 <= j < g.len() implies (#[trigger] g[j]).id == h[j].id by {}
    let before = h.take(5 + k);
    let want = tailwind_node(dirs[k]);
    assert(ids[k] == want);
    assert(used[k] == fresh(h.take(flagged.len() + k), ids[k]));
    assert(h[flagged.len() + k].id == used[k]);
    law_fresh_is_new(before, want);
    if forall|j: int| 0 <= j < 5 + k ==> (#[trigger] g[j]).id != want {
        if declares(before, want) {
            let j = choose|j: int| 0 <= j < before.len() && (#[trigger] before[j]).id == want;
            assert(g[j].id == want);
        }
    }
}

/// Whether `m` is the place of the first path in `s` that is the same as `path`.
pub open spec fn first_spelling(s: Seq<Seq<char>>, path: Seq<char>, m: int) -> bool {
    &&& 0 <= m < s.len()
    &&& components(s[m]) == components(path)
    &&& forall|j: int| 0 <= j < m ==> components(#[trigger] s[j]) != components(path)
}

proof fn lemma_first_kept(s: Seq<Seq<char>>, k: int) -> (m: int)
    requires
        forall|i: int, j: int|
            0 <= i < j < s.len() ==> parts_le(components(#[trigger] s[i]), components(#[trigger] s[j])),
        0 <= k < distinct_neighbours(s).len(),
    ensures
        first_spelling(s, distinct_neighbours(s)[k], m),
        s[m] == distinct_neighbours(s)[k],
    decreases s.len(),
{
    let t = s.drop_last();
    let f = distinct_neighbours(t);
    let r = distinct_neighbours(s);
    assert forall|i: int, j: int| 0 <= i < j < t.len() implies parts_le(
        components(#[trigger] t[i]),
        components(#[trigger] t[j]),
    ) by {
        assert(parts_le(components(s[i]), components(s[j])));
    }
    if k < f.len() {
        let m = lemma_first_kept(t, k);
        assert(s[m] == t[m]);
        assert forall|j: int| 0 <= j < m implies components(#[trigger] s[j]) != components(r[k]) by {
            assert(t[j] == s[j]);
        }
        m
    } else {
        let m = s.len() - 1;
        assert(r[k] == s[m]);
        assert forall|j: int| 0 <= j < m implies components(#[trigger] s[j]) != components(r[k]) by {
            if components(s[j]) == components(s[m]) {
                assert(t[j] == s[j]);
                law_repeats_are_dropped(t);
                assert(f.len() > 0) by {
                    assert(holds_path(f, t[j]));
                }
                let last = f.len() - 1;
                assert(t.contains(f[last]));
                lemma_last_kept(t);
                assert(components(f[last]) == components(t.last()));
                assert(t.last() == s[m - 1]);
                if j < m - 1 {
                    assert(parts_le(components(s[j]), components(s[m - 1])));
                }
                assert(parts_le(components(s[m - 1]), components(s[m])));
                if j < m - 1 {
                    crate::textual::law_path_order_is_antisymmetric(components(s[m - 1]), components(s[m]));
                }
            }
        }
        m
    }
}

proof fn lemma_last_kept(s: Seq<Seq<char>>)
    requires
        s.len() > 0,
    ensures
        distinct_neighbours(s).len() > 0,
        components(distinct_neighbours(s).last()) == components(s.last()),
{
}

/// Of paths that are the same but written in different ways, the first is built.
pub proof fn law_first_spelling_is_kept(project: Seq<Seq<char>>, vendor: Seq<Seq<char>>, k: int)
    requires
        0 <= k < tailwind_dirs(project, vendor).len(),
    ensures
        project.len() > 0 ==> exists|m: int| #[trigger]
            first_spelling(project, tailwind_dirs(project, vendor)[k], m) && project[m] == tailwind_dirs(project, vendor)[k],
        project.len() == 0 ==> exists|m: int| #[trigger]
            first_spelling(vendor, tailwind_dirs(project, vendor)[k], m) && vendor[m] == tailwind_dirs(project, vendor)[k],
{
    let source = if project.len() > 0 {
        project
    } else {
        vendor
    };
    let le = path_order();
    let s = ascending(source, le);
    let path = tailwind_dirs(project, vendor)[k];
    law_sorted_paths_ascend(source);
    let m = lemma_first_kept(s, k);
    assert forall|a: Seq<char>, b: Seq<char>| #[trigger] le(a, b) || le(b, a) by {
        crate::path::law_parts_le_total(components(a), components(b));
    }
    assert forall|a: Seq<char>, b: Seq<char>, c: Seq<char>|
        #[trigger] le(a, b) && #[trigger] le(b, c) implies le(a, c) by {
        crate::path::law_parts_le_transitive(components(a), components(b), components(c));
    }
    crate::textual::law_sorting_is_stable(source, le, path);
    let like = |x: Seq<char>| le(x, path) && le(path, x);
    assert forall|x: Seq<char>| #[trigger] like(x) <==> components(x) == components(path) by {
        if like(x) {
            crate::textual::law_path_order_is_antisymmetric(components(x), components(path));
        }
        if components(x) == components(path) {
            assert(le(x, path) || le(path, x));
        }
    }
    lemma_filter_first(s, like, m);
    assert(s.filter(like) == source.filter(like));
    let n = lemma_filter_source(source, like);
    assert(like(source[n]));
    assert(source[n] == path);
    assert(first_spelling(source, path, n)) by {
        assert forall|j: int| 0 <= j < n implies components(#[trigger] source[j]) != components(path) by {
            assert(!like(source[j]));
        }
    }
}

/// The first item that a filter lets through is the first of what it gives.
proof fn lemma_filter_first<A>(s: Seq<A>, p: spec_fn(A) -> bool, m: int)
    requires
        0 <= m < s.len(),
        p(s[m]),
        forall|j: int| 0 <= j < m ==> !p(#[trigger] s[j]),
    ensures
        s.filter(p).len() > 0,
        s.filter(p)[0] == s[m],
    decreases s.len(),
{
    reveal(Seq::filter);
    let t = s.drop_last();
    if m < t.len() {
        assert forall|j: int| 0 <= j < m implies !p(#[trigger] t[j]) by {
            assert(t[j] == s[j]);
        }
        lemma_filter_first(t, p, m);
    } else {
        lemma_filter_none(t, p);
    }
}

proof fn lemma_filter_none<A>(s: Seq<A>, p: spec_fn(A) -> bool)
    requires
        forall|j: int| 0 <= j < s.len() ==> !p(#[trigger] s[j]),
    ensures
        s.filter(p).len() == 0,
    decreases s.len(),
{
    reveal(Seq::filter);
    if s.len() > 0 {
        let t = s.drop_last();
        assert forall|j: int| 0 <= j < t.len() implies !p(#[trigger] t[j]) by {
            assert(t[j] == s[j]);
        }
        assert(!p(s[s.len() - 1]));
        lemma_filter_none(t, p);
    }
}

proof fn lemma_filter_source<A>(s: Seq<A>, p: spec_fn(A) -> bool) -> (n: int)
    requires
        s.filter(p).len() > 0,
    ensures
        0 <= n < s.len(),
        p(s[n]),
        s[n] == s.filter(p)[0],
        forall|j: int| 0 <= j < n ==> !p(#[trigger] s[j]),
    decreases s.len(),
{
    reveal(Seq::filter);
    let t = s.drop_last();
    if t.filter(p).len() > 0 {
        let n = lemma_filter_source(t, p);
        assert forall|j: int| 0 <= j < n implies !p(#[trigger] s[j]) by {
            assert(t[j] == s[j]);
        }
        n
    } else {
        assert forall|j: int| 0 <= j < s.len() - 1 implies !p(#[trigger] s[j]) by {
            if p(s[j]) {
                let first = lemma_some_first(t, p, j);
                lemma_filter_first(t, p, first);
            }
        }
        s.len() - 1
    }
}

proof fn lemma_some_first<A>(s: Seq<A>, p: spec_fn(A) -> bool, j: int) -> (n: int)
    requires
        0 <= j < s.len(),
        p(s[j]),
    ensures
        0 <= n <= j,
        p(s[n]),
        forall|i: int| 0 <= i < n ==> !p(#[trigger] s[i]),
    decreases j,
{
    if exists|i: int| 0 <= i < j && p(#[trigger] s[i]) {
        let i = choose|i: int| 0 <= i < j && p(#[trigger] s[i]);
        lemma_some_first(s, p, i)
    } else {
        j
    }
}

} // verus!
