//! What a view shows of a value: every field, as it is.
use vstd::prelude::*;

use crate::config::{BuildOptions, ConfigError, ConfigErrorModel, NodeSpec};
use crate::graph::{node_models, BuiltinStep, ErrorModel, GraphError, KindModel, Node, NodeKind};
use crate::json::{Json, JsonModel};
use crate::order::ints;
use crate::packing::{Preparation, PreparationModel};
use crate::path::{Part, PartModel};
use crate::run::StateModel;
use crate::scheduler::{NodeOutcome, NodeState, RunReport};
use crate::session::{SessionError, SessionErrorModel};
use crate::steps::{Action, ActionModel, Environment, PackagePlan};
use crate::text::{option_text, texts};
use crate::walk::{entries_of, places_of, Entry, Place};

verus! {

/// Lists and optional values are shown item by item.
pub proof fn law_lists_are_shown(v: Seq<String>, w: Seq<usize>, s: String, i: int)
    ensures
        texts(v).len() == v.len(),
        0 <= i < v.len() ==> texts(v)[i] == v[i]@,
        ints(w).len() == w.len(),
        0 <= i < w.len() ==> ints(w)[i] == w[i],
        option_text(Some(s)) == Some(s@),
        option_text(None) is None,
{
}

/// A step is shown with its options.
pub proof fn law_steps_are_shown(step: BuiltinStep)
    ensures
        step matches BuiltinStep::ComposerInstall { no_dev, cache_root, hardlink } ==> {
            &&& step@ is ComposerInstall
            &&& step@->ComposerInstall_no_dev == no_dev
            &&& step@->cache_root == option_text(cache_root)
            &&& step@->hardlink == hardlink
        },
        step matches BuiltinStep::DiCompile { fused } ==> step@ is DiCompile && step@->fused == fused,
        step matches BuiltinStep::AutoloadDump { no_dev, optimize } ==> {
            &&& step@ is AutoloadDump
            &&& step@->AutoloadDump_no_dev == no_dev
            &&& step@->optimize == optimize
        },
        step matches BuiltinStep::Package { output, exclude_from } ==> {
            &&& step@ is Package
            &&& step@->output == output@
            &&& step@->exclude_from == option_text(exclude_from)
        },
        step is StaticDeploy ==> {
            &&& step@ is StaticDeploy
            &&& step@->themes == texts(step->themes@)
            &&& step@->locales == texts(step->locales@)
            &&& step@->areas == texts(step->areas@)
            &&& step@->no_parent == step->no_parent
            &&& step@->no_less == step->no_less
            &&& step@->no_js_bundle == step->no_js_bundle
            &&& step@->no_html_minify == step->no_html_minify
            &&& step@->symlink == step->symlink
            &&& step@->deployed_version == option_text(step->deployed_version)
            &&& step@->command == option_text(step->command)
        },
{
}

/// A node is shown with its id, edges, kind and mark, and a list of nodes node by node.
pub proof fn law_nodes_are_shown(node: Node, s: Seq<Node>, i: int)
    ensures
        node@.id == node.id@,
        node@.after == texts(node.after@),
        node@.when == node.when,
        node.kind matches NodeKind::Native(step) ==> node@.kind == KindModel::Native(step@),
        node.kind matches NodeKind::Command { run, cwd, env } ==> {
            &&& node@.kind is Command
            &&& node@.kind->run == run@
            &&& node@.kind->cwd == option_text(cwd)
            &&& node@.kind->env == env@
        },
        node_models(s).len() == s.len(),
        0 <= i < s.len() ==> node_models(s)[i] == s[i]@,
{
}

/// Settings are shown field by field.
pub proof fn law_settings_are_shown(spec: NodeSpec, opts: BuildOptions)
    ensures
        spec@.run == option_text(spec.run),
        spec@.cwd == option_text(spec.cwd),
        spec.env matches Some(m) ==> spec@.env == Some(m@),
        spec.env is None ==> spec@.env is None,
        spec.after matches Some(v) ==> spec@.after == Some(texts(v@)),
        spec.after is None ==> spec@.after is None,
        spec@.no_dev == spec.no_dev,
        spec@.optimize == spec.optimize,
        spec@.fused == spec.fused,
        spec@.hardlink == spec.hardlink,
        spec@.cache_root == option_text(spec.cache_root),
        spec.themes matches Some(v) ==> spec@.themes == Some(texts(v@)),
        spec.themes is None ==> spec@.themes is None,
        spec.locales matches Some(v) ==> spec@.locales == Some(texts(v@)),
        spec.locales is None ==> spec@.locales is None,
        spec.areas matches Some(v) ==> spec@.areas == Some(texts(v@)),
        spec.areas is None ==> spec@.areas is None,
        spec@.no_parent == spec.no_parent,
        spec@.no_less == spec.no_less,
        spec@.no_js_bundle == spec.no_js_bundle,
        spec@.no_html_minify == spec.no_html_minify,
        spec@.symlink == spec.symlink,
        spec@.deployed_version == option_text(spec.deployed_version),
        spec@.exclude_from == option_text(spec.exclude_from),
        spec@.output == option_text(spec.output),
        opts@.artifact == option_text(opts.artifact),
        opts@.exclude_from == option_text(opts.exclude_from),
        opts@.jobs == opts.jobs,
        opts@.deployed_version == option_text(opts.deployed_version),
        opts@.preset == opts.preset,
{
}

/// The environment and a packaging plan are shown field by field.
pub proof fn law_plans_are_shown(env: Environment, plan: PackagePlan)
    ensures
        env@.cache_dir == option_text(env.cache_dir),
        env@.xdg_cache_home == option_text(env.xdg_cache_home),
        env@.home == option_text(env.home),
        env@.hardlink == env.hardlink,
        env@.symlink == env.symlink,
        plan@.output == plan.output@,
        plan@.exclude_from == option_text(plan.exclude_from),
        plan@.directory == option_text(plan.directory),
        plan@.compress == plan.compress,
        plan@.threads == plan.threads,
{
}

/// An action is shown with everything that it is performed with.
pub proof fn law_actions_are_shown(a: Action)
    ensures
        a matches Action::ComposerInstall { no_dev, cache, hardlink } ==> {
            &&& a@ is ComposerInstall
            &&& a@->ComposerInstall_no_dev == no_dev
            &&& a@->cache == cache@
            &&& a@->hardlink == hardlink
        },
        a matches Action::DiCompile { fused } ==> a@ is DiCompile && a@->fused == fused,
        a matches Action::AutoloadDump { no_dev, optimize } ==> {
            &&& a@ is AutoloadDump
            &&& a@->AutoloadDump_no_dev == no_dev
            &&& a@->optimize == optimize
        },
        a matches Action::Package(plan) ==> a@ == ActionModel::Package(plan@),
        a matches Action::Shell { run, dir, env } ==> {
            &&& a@ is Shell
            &&& a@->run == run@
            &&& a@->dir == dir@
            &&& a@->env == env@
        },
        a is StaticDeploy ==> {
            &&& a@ is StaticDeploy
            &&& a@->themes == texts(a->themes@)
            &&& a@->locales == texts(a->locales@)
            &&& a@->areas == texts(a->areas@)
            &&& a@->no_parent == a->no_parent
            &&& a@->no_less == a->no_less
            &&& a@->no_js_bundle == a->no_js_bundle
            &&& a@->no_html_minify == a->no_html_minify
            &&& a@->symlink == a->symlink
            &&& a@->deployed_version == option_text(a->deployed_version)
        },
{
}

/// Outcomes and reports are shown as they are.
pub proof fn law_results_are_shown(state: NodeState, o: NodeOutcome, r: RunReport, i: int)
    ensures
        state is Done <==> state@ is Done,
        state is Skipped <==> state@ is Skipped,
        state is Cancelled <==> state@ is Cancelled,
        state matches NodeState::Failed(m) ==> state@ == StateModel::Failed(m@),
        o@.id == o.id@,
        o@.state == o.state@,
        o@.duration == o.duration,
        r@.failed == r.failed,
        r@.wall == r.wall,
        r@.outcomes.len() == r.outcomes@.len(),
        0 <= i < r.outcomes@.len() ==> r@.outcomes[i] == r.outcomes@[i]@,
{
}

/// Errors are shown with what they are about.
pub proof fn law_errors_are_shown(e: GraphError, c: ConfigError, s: SessionError)
    ensures
        e matches GraphError::DuplicateId(id) ==> e@ == ErrorModel::DuplicateId(id@),
        e matches GraphError::UnknownNode(id) ==> e@ == ErrorModel::UnknownNode(id@),
        e matches GraphError::UnknownDep { node, dep } ==> e@ is UnknownDep && e@->node == node@ && e@->dep == dep@,
        e matches GraphError::Cycle(ids) ==> e@ == ErrorModel::Cycle(texts(ids@)),
        c matches ConfigError::NewNodeNeedsRun(id) ==> c@ == ConfigErrorModel::NewNodeNeedsRun(id@),
        c matches ConfigError::Invalid(e) ==> c@ == ConfigErrorModel::Invalid(e@),
        s matches SessionError::Target(e) ==> s@ == SessionErrorModel::Target(e@),
        s matches SessionError::Skip(e) ==> s@ == SessionErrorModel::Skip(e@),
        s matches SessionError::Invalid(e) ==> s@ == SessionErrorModel::Invalid(e@),
{
}

/// Entries and places of a tree are shown field by field.
pub proof fn law_entries_are_shown(e: Entry, p: Place, v: Seq<Entry>, w: Seq<Place>, i: int)
    ensures
        e@.token == e.token,
        e@.name == e.name@,
        e@.kind == e.kind,
        e@.is_output == e.is_output,
        p@ == (p.token, p.rel@),
        entries_of(v).len() == v.len(),
        0 <= i < v.len() ==> entries_of(v)[i] == v[i]@,
        places_of(w).len() == w.len(),
        0 <= i < w.len() ==> places_of(w)[i] == w[i]@,
{
}

/// JSON values are shown value by value.
pub proof fn law_json_is_shown(v: Json, i: int)
    ensures
        v is Null <==> v@ is Null,
        v matches Json::Bool(b) ==> v@ == JsonModel::Bool(b),
        v matches Json::Num(n) ==> v@ == JsonModel::Num(n),
        v matches Json::Str(s) ==> v@ == JsonModel::Str(s@),
        v matches Json::Arr(items) ==> {
            &&& v@ is Arr
            &&& v@->Arr_0.len() == items@.len()
            &&& 0 <= i < items@.len() ==> v@->Arr_0[i] == items@[i]@
        },
        v matches Json::Obj(fields) ==> {
            &&& v@ is Obj
            &&& v@->Obj_0.len() == fields@.len()
            &&& 0 <= i < fields@.len() ==> v@->Obj_0[i] == (fields@[i].0@, fields@[i].1@)
        },
{
}

/// Components of paths and preparations of archives are shown as they are.
pub proof fn law_parts_are_shown(p: Part, q: Preparation)
    ensures
        p is Root <==> p@ is Root,
        p is Here <==> p@ is Here,
        p is Up <==> p@ is Up,
        p matches Part::Name(name) ==> p@ == PartModel::Name(name@),
        q matches Preparation::ReadExcludes(path) ==> q@ == PreparationModel::ReadExcludes(path@),
        q matches Preparation::MakeDirectory(path) ==> q@ == PreparationModel::MakeDirectory(path@),
        q matches Preparation::CreateArchive { output, compress, threads } ==> {
            &&& q@ is CreateArchive
            &&& q@->output == output@
            &&& q@->compress == compress
            &&& q@->threads == threads
        },
{
}

} // verus!
