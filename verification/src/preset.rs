//! Presets: named shapes of the build graph.
//!
//! The Hyvä preset builds the styles of every Hyvä theme before the static
//! deploy, and sets the deploy flags that such a shop wants.
use vstd::prelude::*;

use crate::config::{found, replaced};
use crate::graph::{
    declares, BuiltinStep, Graph, KindModel, Node, NodeKind, NodeModel, StepModel, When,
};
use crate::path::{
    components, components_of, distinct_neighbours, drop_repeats, path_order, sort_paths, Part,
    PartModel,
};
use crate::text::{ascending, chars_of, contains_text, texts};
use crate::textmap::TextMap;

verus! {

/// A named bundle of settings for a common stack. It is laid over the built-in
/// defaults and under the settings file.
#[derive(Debug, Clone, Copy, PartialEq, Eq, Structural)]
pub enum Preset {
    /// The Hyvä production build.
    Hyva,
}

/// The directories in which themes build their styles: those of the project's own
/// themes, or where it has none those of installed themes. They come in path
/// order, each once.
pub open spec fn tailwind_dirs(project: Seq<Seq<char>>, vendor: Seq<Seq<char>>) -> Seq<Seq<char>> {
    let dirs = if project.len() > 0 {
        project
    } else {
        vendor
    };
    distinct_neighbours(ascending(dirs, path_order()))
}

/// Chooses and orders the directories in which themes build their styles.
pub fn select_tailwind_dirs(project: Vec<String>, vendor: Vec<String>) -> (r: Vec<String>)
    ensures
        texts(r@) == tailwind_dirs(texts(project@), texts(vendor@)),
{
    let dirs = if project.len() > 0 {
        project
    } else {
        vendor
    };
    drop_repeats(sort_paths(dirs))
}

/// What `str::to_lowercase` makes of a text.
pub uninterp spec fn lowercase(s: Seq<char>) -> Seq<char>;

/// `str::to_lowercase`: the lowercase form of the text by Unicode's rules, which
/// depends on the text alone.
#[verifier::external_body]
fn to_lower(s: &str) -> (r: String)
    ensures
        r@ == lowercase(s@),
{
    s.to_lowercase()
}

/// The name of the theme that a `<theme>/web/tailwind` directory belongs to.
pub open spec fn theme_name(dir: Seq<char>) -> Option<Seq<char>> {
    let c = components(dir);
    if c.len() >= 3 {
        match c[c.len() - 3] {
            PartModel::Name(name) => Some(name),
            _ => None,
        }
    } else {
        None
    }
}

fn theme_name_of(dir: &str) -> (r: Option<String>)
    ensures
        match r {
            Some(name) => theme_name(dir@) == Some(name@),
            None => theme_name(dir@) is None,
        },
{
    let parts = components_of(dir);
    let ghost c = components(dir@);
    if parts.len() >= 3 {
        let k = parts.len() - 3;
        assert(c[k as int] == parts@[k as int]@);
        match &parts[k] {
            Part::Name(name) => Some(name.clone()),
            _ => None,
        }
    } else {
        None
    }
}

/// Whether a character is an ASCII letter or digit.
pub open spec fn is_plain(c: char) -> bool {
    'a' <= c <= 'z' || 'A' <= c <= 'Z' || '0' <= c <= '9'
}

/// The id of a theme's build node: everything but ASCII letters and digits
/// becomes a hyphen.
pub open spec fn tailwind_id(theme: Seq<char>) -> Seq<char> {
    "hyva-tailwind-"@ + theme.map_values(
        |c: char|
            if is_plain(c) {
                c
            } else {
                '-'
            },
    )
}

/// The id of the build node for a theme name in lowercase.
pub fn tailwind_id_of(theme: &str) -> (r: String)
    ensures
        r@ == tailwind_id(theme@),
{
    let mut out = "hyva-tailwind-".to_owned();
    let cs = chars_of(theme);
    let ghost head = out@;
    let ghost slug = theme@.map_values(
        |c: char|
            if is_plain(c) {
                c
            } else {
                '-'
            },
    );
    for i in 0..cs.len()
        invariant
            cs@ == theme@,
            slug == theme@.map_values(
                |c: char|
                    if is_plain(c) {
                        c
                    } else {
                        '-'
                    },
            ),
            out@ == head + slug.take(i as int),
    {
        let c = cs[i];
        let plain = ('a' <= c && c <= 'z') || ('A' <= c && c <= 'Z') || ('0' <= c && c <= '9');
        let ghost before = out@;
        out.push(
            if plain {
                c
            } else {
                '-'
            },
        );
        assert(out@ =~= head + slug.take(i + 1));
    }
    assert(slug.take(cs@.len() as int) =~= slug);
    out
}

/// The id of the node that builds the styles in `dir`.
pub open spec fn tailwind_node(dir: Seq<char>) -> Seq<char> {
    tailwind_id(
        match theme_name(dir) {
            Some(name) => lowercase(name),
            None => "theme"@,
        },
    )
}

/// A readable, stable id for the node that builds the styles in `dir`.
pub fn tailwind_node_id(dir: &str) -> (r: String)
    ensures
        r@ == tailwind_node(dir@),
{
    let theme = match theme_name_of(dir) {
        Some(name) => to_lower(name.as_str()),
        None => "theme".to_owned(),
    };
    tailwind_id_of(theme.as_str())
}

/// The length of the longest id.
pub open spec fn longest(g: Seq<NodeModel>) -> nat
    decreases g.len(),
{
    if g.len() == 0 {
        0
    } else {
        let k = longest(g.drop_last());
        if g.last().id.len() > k {
            g.last().id.len()
        } else {
            k
        }
    }
}

/// The id with as many underscores behind it as it takes to be new to the graph.
pub open spec fn fresh(g: Seq<NodeModel>, id: Seq<char>) -> Seq<char>
    decreases longest(g) + 1 - id.len(),
{
    if declares(g, id) && id.len() <= longest(g) {
        fresh(g, id.push('_'))
    } else {
        id
    }
}

/// No id is longer than the longest one.
pub proof fn lemma_longest(g: Seq<NodeModel>, i: int)
    requires
        0 <= i < g.len(),
    ensures
        g[i].id.len() <= longest(g),
    decreases g.len(),
{
    if i < g.len() - 1 {
        lemma_longest(g.drop_last(), i);
    }
}

/// A declared id is no longer than the longest one.
proof fn lemma_declared_length(g: Seq<NodeModel>, id: Seq<char>)
    requires
        declares(g, id),
    ensures
        id.len() <= longest(g),
{
    let i = choose|i: int| 0 <= i < g.len() && (#[trigger] g[i]).id == id;
    lemma_longest(g, i);
}

/// A fresh id is new to the graph, and it is the id itself wherever that is new.
pub proof fn law_fresh_is_new(g: Seq<NodeModel>, id: Seq<char>)
    ensures
        !declares(g, fresh(g, id)),
        !declares(g, id) ==> fresh(g, id) == id,
        fresh(g, id).len() >= id.len(),
        fresh(g, id).take(id.len() as int) == id,
        forall|k: int| id.len() <= k < fresh(g, id).len() ==> #[trigger] fresh(g, id)[k] == '_',
    decreases longest(g) + 1 - id.len(),
{
    if declares(g, id) {
        lemma_declared_length(g, id);
        let next = id.push('_');
        law_fresh_is_new(g, next);
        let r = fresh(g, next);
        assert(r.take(id.len() as int) =~= r.take(next.len() as int).take(id.len() as int));
        assert(next.take(id.len() as int) =~= id);
        assert(r.take(next.len() as int)[id.len() as int] == '_');
    } else {
        assert(id.take(id.len() as int) =~= id);
    }
}

fn fresh_id(graph: &Graph, id: String) -> (r: String)
    ensures
        r@ == fresh(graph@, id@),
{
    let mut id = id;
    let ghost first = id@;
    while graph.get(id.as_str()).is_some()
        invariant
            fresh(graph@, id@) == fresh(graph@, first),
        decreases longest(graph@) + 1 - id@.len(),
    {
        proof {
            lemma_declared_length(graph@, id@);
        }
        id.push('_');
    }
    id
}

/// The node that builds the styles in `dir`.
pub open spec fn build_node(id: Seq<char>, dir: Seq<char>) -> NodeModel {
    NodeModel {
        id,
        after: seq!["composer-install"@],
        kind: KindModel::Command {
            run: "npm ci --ignore-scripts && npm run build"@,
            cwd: Some(dir),
            env: seq![],
        },
        when: When::Always,
    }
}

/// The graph with one build node per directory, under fresh ids made from `ids`,
/// and those ids.
pub open spec fn with_builds(g: Seq<NodeModel>, ids: Seq<Seq<char>>, dirs: Seq<Seq<char>>) -> (
    Seq<NodeModel>,
    Seq<Seq<char>>,
)
    decreases dirs.len(),
{
    if dirs.len() == 0 {
        (g, seq![])
    } else {
        let (h, used) = with_builds(g, ids.drop_last(), dirs.drop_last());
        let id = fresh(h, ids.last());
        (h.push(build_node(id, dirs.last())), used.push(id))
    }
}

/// `after` followed by those of `ids` that it does not hold yet.
pub open spec fn waiting_for(after: Seq<Seq<char>>, ids: Seq<Seq<char>>) -> Seq<Seq<char>>
    decreases ids.len(),
{
    if ids.len() == 0 {
        after
    } else {
        let front = waiting_for(after, ids.drop_last());
        if front.contains(ids.last()) {
            front
        } else {
            front.push(ids.last())
        }
    }
}

/// The graph with one build node per directory, and the static deploy waiting for
/// all of them.
pub open spec fn built_first(g: Seq<NodeModel>, ids: Seq<Seq<char>>, dirs: Seq<Seq<char>>) -> Seq<NodeModel> {
    let (h, used) = with_builds(g, ids, dirs);
    let deploy = found(h, "static-deploy"@);
    replaced(h, "static-deploy"@, NodeModel { after: waiting_for(deploy.after, used), ..deploy })
}

/// Adds a build node for each of `dirs`, under ids made from `ids`, and lets the
/// static deploy wait for all of them.
pub fn add_tailwind_builds(graph: &mut Graph, ids: Vec<String>, dirs: &Vec<String>)
    requires
        ids.len() == dirs.len(),
    ensures
        final(graph)@ == built_first(old(graph)@, texts(ids@), texts(dirs@)),
{
    let ghost g = graph@;
    let ghost ids0 = texts(ids@);
    let ghost dirs0 = texts(dirs@);
    let mut used: Vec<String> = Vec::new();
    assert(texts(used@) =~= Seq::<Seq<char>>::empty());
    for i in 0..dirs.len()
        invariant
            ids.len() == dirs.len(),
            ids0 == texts(ids@),
            dirs0 == texts(dirs@),
            (graph@, texts(used@)) == with_builds(g, ids0.take(i as int), dirs0.take(i as int)),
    {
        let ghost h = graph@;
        let ghost so_far = texts(used@);
        let id = fresh_id(graph, ids[i].clone());
        let mut after: Vec<String> = Vec::new();
        after.push("composer-install".to_owned());
        assert(texts(after@) =~= seq!["composer-install"@]);
        let node = Node {
            id: id.clone(),
            after,
            kind: NodeKind::Command {
                run: "npm ci --ignore-scripts && npm run build".to_owned(),
                cwd: Some(dirs[i].clone()),
                env: TextMap::new(),
            },
            when: When::Always,
        };
        let ghost fresh_one = id@;
        graph.push(node);
        used.push(id);
        proof {
            assert(ids0.take(i + 1).drop_last() =~= ids0.take(i as int));
            assert(dirs0.take(i + 1).drop_last() =~= dirs0.take(i as int));
            assert(ids0.take(i + 1).last() == ids@[i as int]@);
            assert(dirs0.take(i + 1).last() == dirs@[i as int]@);
            assert(texts(used@) =~= so_far.push(fresh_one));
        }
    }
    proof {
        assert(ids0.take(dirs@.len() as int) =~= ids0);
        assert(dirs0.take(dirs@.len() as int) =~= dirs0);
    }
    let ghost all = texts(used@);
    if let Some(node) = graph.get_mut("static-deploy") {
        let ghost before = node@;
        let mut after: Vec<String> = Vec::new();
        std::mem::swap(&mut after, &mut node.after);
        for i in 0..used.len()
            invariant
                all == texts(used@),
                texts(after@) == waiting_for(before.after, all.take(i as int)),
        {
            let ghost front = texts(after@);
            proof {
                assert(all.take(i + 1).drop_last() =~= all.take(i as int));
                assert(all.take(i + 1).last() == used@[i as int]@);
            }
            if !contains_text(&after, used[i].as_str()) {
                after.push(used[i].clone());
                assert(texts(after@) =~= front.push(used@[i as int]@));
            }
        }
        assert(all.take(used@.len() as int) =~= all);
        node.after = after;
    }
}

/// A static deploy with the flags of a Hyvä shop; any other node as it is.
pub open spec fn hyva_flagged(node: NodeModel) -> NodeModel {
    match node.kind {
        KindModel::Native(
            StepModel::StaticDeploy { themes, locales, areas, deployed_version, command, .. },
        ) => NodeModel {
            kind: KindModel::Native(
                StepModel::StaticDeploy {
                    themes,
                    locales,
                    areas,
                    no_parent: true,
                    no_less: true,
                    no_js_bundle: true,
                    no_html_minify: true,
                    symlink: true,
                    deployed_version,
                    command,
                },
            ),
            ..node
        },
        _ => node,
    }
}

/// The ids that are tried for the build nodes of `dirs`.
pub open spec fn tailwind_nodes(dirs: Seq<Seq<char>>) -> Seq<Seq<char>> {
    dirs.map_values(|d: Seq<char>| tailwind_node(d))
}

/// The graph that the Hyvä preset makes.
pub open spec fn hyva(g: Seq<NodeModel>, dirs: Seq<Seq<char>>) -> Seq<NodeModel> {
    let flagged = replaced(g, "static-deploy"@, hyva_flagged(found(g, "static-deploy"@)));
    built_first(flagged, tailwind_nodes(dirs), dirs)
}

/// Shapes the graph for a Hyvä production build, given the directories in which
/// themes build their styles.
pub fn apply_hyva_preset(graph: &mut Graph, dirs: &Vec<String>)
    ensures
        final(graph)@ == hyva(old(graph)@, texts(dirs@)),
{
    if let Some(node) = graph.get_mut("static-deploy") {
        let ghost before = node@;
        if let NodeKind::Native(
            BuiltinStep::StaticDeploy { no_parent, no_less, no_js_bundle, no_html_minify, symlink, .. },
        ) = &mut node.kind {
            *no_parent = true;
            *no_less = true;
            *no_js_bundle = true;
            *no_html_minify = true;
            *symlink = true;
        }
        assert(node@ =~= hyva_flagged(before));
    }
    let mut ids: Vec<String> = Vec::new();
    for i in 0..dirs.len()
        invariant
            ids.len() == i,
            forall|j: int| 0 <= j < i ==> (#[trigger] ids@[j])@ == tailwind_node(dirs@[j]@),
    {
        ids.push(tailwind_node_id(dirs[i].as_str()));
    }
    assert(texts(ids@) =~= tailwind_nodes(texts(dirs@)));
    add_tailwind_builds(graph, ids, dirs);
}

/// The graph that a preset makes.
pub open spec fn preset_applied(g: Seq<NodeModel>, preset: Preset, dirs: Seq<Seq<char>>) -> Seq<NodeModel> {
    match preset {
        Preset::Hyva => hyva(g, dirs),
    }
}

/// Shapes the graph for a preset.
pub fn apply_preset(graph: &mut Graph, preset: Preset, dirs: &Vec<String>)
    ensures
        final(graph)@ == preset_applied(old(graph)@, preset, texts(dirs@)),
{
    match preset {
        Preset::Hyva => apply_hyva_preset(graph, dirs),
    }
}

/// What to warn of where a preset finds nothing to build.
pub open spec fn preset_note(preset: Option<Preset>, dirs: Seq<Seq<char>>) -> Option<Seq<char>> {
    if preset == Some(Preset::Hyva) && dirs.len() == 0 {
        Some(
            "--preset hyva found no Hyvä theme web/tailwind (with package.json) under app/design/frontend or vendor/hyva-themes; skipping the npm build step. Add it in magebuild.toml if your Tailwind lives elsewhere."@,
        )
    } else {
        None
    }
}

/// The warning of a preset that finds nothing to build.
pub fn preset_warning(preset: Option<Preset>, dirs: &Vec<String>) -> (r: Option<&'static str>)
    ensures
        match r {
            Some(w) => preset_note(preset, texts(dirs@)) == Some(w@),
            None => preset_note(preset, texts(dirs@)) is None,
        },
{
    assert(preset is Some ==> preset == Some(Preset::Hyva));
    if preset.is_some() && dirs.len() == 0 {
        Some(
            "--preset hyva found no Hyvä theme web/tailwind (with package.json) under app/design/frontend or vendor/hyva-themes; skipping the npm build step. Add it in magebuild.toml if your Tailwind lives elsewhere.",
        )
    } else {
        None
    }
}

} // verus!
