//! What holds of settings field by field: what is set takes effect, and what is not
//! set stays.
use vstd::prelude::*;

use crate::config::{
    base_graph, default_nodes, effective_jobs, found, jobs_by_default, no_settings, overridden, packaged, replaced, resolved_graph,
    respecified, with_options, with_specs, ConfigErrorModel, OptionsModel, SpecModel,
};
use crate::graph::{
    declares, first_at, lemma_first_at, lemma_first_at_is, KindModel, NodeModel, StepModel, When,
};
use crate::laws::same_shape;
use crate::order::graph_error;
use crate::precedence::{law_options_win, law_unmentioned_stays, mentioned};
use crate::textmap::keys_ascend;

verus! {

/// Whether `after` is the new value where there is one, and otherwise what was there
/// before.
pub open spec fn laid_over<A>(new: Option<A>, before: A, after: A) -> bool {
    &&& new matches Some(v) ==> after == v
    &&& new is None ==> after == before
}

/// Like [`laid_over`], for a field that may be empty.
pub open spec fn laid_over_option<A>(new: Option<A>, before: Option<A>, after: Option<A>) -> bool {
    &&& new is Some ==> after == new
    &&& new is None ==> after == before
}

/// Settings change a built-in step field by field, and never into another step: a
/// field of the step that is set takes the value that is set, any other field of the
/// step stays.
pub proof fn law_fields_are_laid_over(step: StepModel, spec: SpecModel)
    ensures
        ({
            let r = overridden(step, spec);
            &&& step is ComposerInstall ==> {
                &&& r is ComposerInstall
                &&& laid_over(spec.no_dev, step->ComposerInstall_no_dev, r->ComposerInstall_no_dev)
                &&& laid_over_option(spec.cache_root, step->cache_root, r->cache_root)
                &&& laid_over(spec.hardlink, step->hardlink, r->hardlink)
            }
            &&& step is DiCompile ==> r is DiCompile && laid_over(spec.fused, step->fused, r->fused)
            &&& step is StaticDeploy ==> {
                &&& r is StaticDeploy
                &&& laid_over(spec.themes, step->themes, r->themes)
                &&& laid_over(spec.locales, step->locales, r->locales)
                &&& laid_over(spec.areas, step->areas, r->areas)
                &&& laid_over(spec.no_parent, step->no_parent, r->no_parent)
                &&& laid_over(spec.no_less, step->no_less, r->no_less)
                &&& laid_over(spec.no_js_bundle, step->no_js_bundle, r->no_js_bundle)
                &&& laid_over(spec.no_html_minify, step->no_html_minify, r->no_html_minify)
                &&& laid_over(spec.symlink, step->symlink, r->symlink)
                &&& laid_over_option(spec.deployed_version, step->deployed_version, r->deployed_version)
                &&& r->command == step->command
            }
            &&& step is AutoloadDump ==> {
                &&& r is AutoloadDump
                &&& laid_over(spec.no_dev, step->AutoloadDump_no_dev, r->AutoloadDump_no_dev)
                &&& laid_over(spec.optimize, step->optimize, r->optimize)
            }
            &&& step is Package ==> {
                &&& r is Package
                &&& laid_over(spec.output, step->output, r->output)
                &&& laid_over_option(spec.exclude_from, step->exclude_from, r->exclude_from)
            }
        }),
{
}

/// Settings change a node as they say: its edges are replaced where they are set; a
/// command keeps what is not set; a built-in step turns into a command where a `run`
/// is set, and is changed field by field otherwise. Only a built-in packaging step that
/// is given an archive, and no `run`, is made to run; no other node changes in that.
pub proof fn law_nodes_are_laid_over(node: NodeModel, spec: SpecModel)
    ensures
        ({
            let r = respecified(node, spec);
            &&& r.id == node.id
            &&& laid_over(spec.after, node.after, r.after)
            &&& node.kind matches KindModel::Command { run, cwd, env } ==> {
                &&& r.kind is Command
                &&& laid_over(spec.run, run, r.kind->run)
                &&& laid_over_option(spec.cwd, cwd, r.kind->cwd)
                &&& laid_over(spec.env, env, r.kind->env)
            }
            &&& node.kind matches KindModel::Native(step) ==> (spec.run matches Some(run) ==> {
                &&& r.kind is Command
                &&& r.kind->run == run
                &&& r.kind->cwd == spec.cwd
                &&& laid_over(spec.env, Seq::empty(), r.kind->env)
            })
            &&& node.kind matches KindModel::Native(step) ==> spec.run is None ==> r.kind == KindModel::Native(
                overridden(step, spec),
            )
            &&& (node.kind matches KindModel::Native(step) && step is Package && spec.run is None && spec.output is Some)
                ==> r.when == When::Always
            &&& !(node.kind matches KindModel::Native(step) && step is Package && spec.run is None && spec.output is Some)
                ==> r.when == node.when
        }),
{
}

/// A settings file is refused exactly where it describes a node that the graph does not
/// have without saying what it runs; the first such node is reported.
pub proof fn law_new_nodes_need_a_run(g: Seq<NodeModel>, specs: Seq<(Seq<char>, SpecModel)>)
    requires
        keys_ascend(specs),
    ensures
        with_specs(g, specs) is Ok <==> forall|k: int|
            0 <= k < specs.len() ==> declares(g, (#[trigger] specs[k]).0) || specs[k].1.run is Some,
        with_specs(g, specs) matches Err(id) ==> exists|k: int|
            {
                &&& 0 <= k < specs.len()
                &&& (#[trigger] specs[k]).0 == id
                &&& !declares(g, id)
                &&& specs[k].1.run is None
                &&& forall|j: int| 0 <= j < k ==> declares(g, (#[trigger] specs[j]).0) || specs[j].1.run is Some
            },
    decreases specs.len(),
{
    if specs.len() > 0 {
        let front = specs.drop_last();
        let last = specs.len() - 1;
        assert forall|i: int, j: int|
            #![trigger front[i], front[j]]
            0 <= i < j < front.len() implies crate::text::text_le(front[i].0, front[j].0) && front[i].0 != front[j].0 by {
            assert(front[i] == specs[i]);
            assert(front[j] == specs[j]);
        }
        law_new_nodes_need_a_run(g, front);
        assert forall|k: int| 0 <= k < last implies #[trigger] front[k] == specs[k] by {}
        if with_specs(g, front) is Ok {
            let h = with_specs(g, front)->Ok_0;
            if mentioned(front, specs[last].0) {
                let m = choose|m: int| 0 <= m < front.len() && (#[trigger] front[m]).0 == specs[last].0;
                assert(specs[m].0 == specs[last].0);
            }
            law_unmentioned_stays(g, front, specs[last].0);
            assert(forall|k: int| 0 <= k < last ==> declares(g, (#[trigger] specs[k]).0) || specs[k].1.run is Some) by {
                assert forall|k: int| 0 <= k < last implies declares(g, (#[trigger] specs[k]).0) || specs[k].1.run is Some by {
                    assert(front[k] == specs[k]);
                }
            }
            if with_specs(g, specs) is Err {
                assert(specs[last].0 == with_specs(g, specs)->Err_0);
            }
        } else {
            let id = with_specs(g, front)->Err_0;
            let k = choose|k: int|
                {
                    &&& 0 <= k < front.len()
                    &&& (#[trigger] front[k]).0 == id
                    &&& !declares(g, id)
                    &&& front[k].1.run is None
                    &&& forall|j: int| 0 <= j < k ==> declares(g, (#[trigger] front[j]).0) || front[j].1.run is Some
                };
            assert(specs[k] == front[k]);
            assert forall|j: int| 0 <= j < k implies declares(g, (#[trigger] specs[j]).0) || specs[j].1.run is Some by {
                assert(front[j] == specs[j]);
            }
        }
    }
}

/// The command line and the packaging node, which is the first node of that name: an
/// archive makes it run, and where it is a built-in step the archive and the excludes
/// file are laid over it. It keeps everything else.
pub proof fn law_artifact_is_packaged(g: Seq<NodeModel>, opts: OptionsModel, i: int)
    requires
        0 <= i < g.len(),
        g[i].id == "package"@,
        forall|j: int| 0 <= j < i ==> (#[trigger] g[j]).id != "package"@,
    ensures
        ({
            let r = with_options(g, opts)[i];
            &&& r.id == g[i].id && r.after == g[i].after
            &&& opts.artifact is Some ==> r.when == When::Always
            &&& opts.artifact is None ==> r.when == g[i].when
            &&& g[i].kind is Command ==> r.kind == g[i].kind
            &&& g[i].kind matches KindModel::Native(step) ==> step is Package ==> {
                &&& r.kind is Native && r.kind->Native_0 is Package
                &&& laid_over(opts.artifact, step->output, r.kind->Native_0->output)
                &&& laid_over_option(opts.exclude_from, step->exclude_from, r.kind->Native_0->exclude_from)
            }
        }),
{
    lemma_first_at_is(g, "package"@, i);
    lemma_first_at(g, "package"@);
    lemma_names_differ();
    lemma_other_place(g, opts, i);
    lemma_first_at(g, "static-deploy"@);
    let h = replaced(
        g,
        "package"@,
        packaged(found(g, "package"@), opts),
    );
    assert(first_at(h, "static-deploy"@) != i);
}

/// The command line and the static deploy, which is the first node of that name: where
/// it is a built-in step, a content version is laid over it, whatever it was before. It
/// keeps everything else.
pub proof fn law_version_is_deployed(g: Seq<NodeModel>, opts: OptionsModel, i: int)
    requires
        0 <= i < g.len(),
        g[i].id == "static-deploy"@,
        forall|j: int| 0 <= j < i ==> (#[trigger] g[j]).id != "static-deploy"@,
    ensures
        ({
            let r = with_options(g, opts)[i];
            &&& r.id == g[i].id && r.after == g[i].after && r.when == g[i].when
            &&& g[i].kind is Command ==> r.kind == g[i].kind
            &&& g[i].kind matches KindModel::Native(step) ==> step is StaticDeploy ==> {
                &&& r.kind is Native && r.kind->Native_0 is StaticDeploy
                &&& laid_over_option(
                    opts.deployed_version,
                    step->deployed_version,
                    r.kind->Native_0->deployed_version,
                )
                &&& r.kind->Native_0->themes == step->themes
                &&& r.kind->Native_0->locales == step->locales
                &&& r.kind->Native_0->areas == step->areas
                &&& r.kind->Native_0->no_parent == step->no_parent
                &&& r.kind->Native_0->no_less == step->no_less
                &&& r.kind->Native_0->no_js_bundle == step->no_js_bundle
                &&& r.kind->Native_0->no_html_minify == step->no_html_minify
                &&& r.kind->Native_0->symlink == step->symlink
                &&& r.kind->Native_0->command == step->command
            }
        }),
{
    lemma_first_at_is(g, "static-deploy"@, i);
    lemma_first_at(g, "static-deploy"@);
    lemma_names_differ();
    lemma_other_place(g, opts, i);
    lemma_first_at(g, "package"@);
    let h = replaced(
        g,
        "package"@,
        packaged(found(g, "package"@), opts),
    );
    assert(h[i] == g[i]);
}

proof fn lemma_names_differ()
    ensures
        "package"@ != "static-deploy"@,
{
    reveal_strlit("package");
    reveal_strlit("static-deploy");
    assert("package"@.len() == 7);
    assert("static-deploy"@.len() == 13);
}

/// The two steps of laying the command line over a graph, place by place.
proof fn lemma_other_place(g: Seq<NodeModel>, opts: OptionsModel, i: int)
    requires
        0 <= i < g.len(),
    ensures
        ({
            let h = replaced(
                g,
                "package"@,
                packaged(found(g, "package"@), opts),
            );
            &&& first_at(h, "static-deploy"@) == first_at(g, "static-deploy"@)
            &&& declares(h, "static-deploy"@) == declares(g, "static-deploy"@)
            &&& h.len() == g.len()
            &&& h[i].id == g[i].id
        }),
{
    let h = replaced(
        g,
        "package"@,
        packaged(found(g, "package"@), opts),
    );
    lemma_first_at(g, "package"@);
    let d = "static-deploy"@;
    lemma_first_at(g, d);
    lemma_first_at(h, d);
    assert forall|j: int| 0 <= j < g.len() implies (#[trigger] h[j]).id == g[j].id by {}
    if declares(g, d) {
        let k = first_at(g, d);
        assert(h[k].id == d);
        assert forall|j: int| 0 <= j < k implies (#[trigger] h[j]).id != d by {
            assert(h[j].id == g[j].id);
        }
        lemma_first_at_is(h, d, k);
        assert(declares(h, d));
    } else if declares(h, d) {
        assert(g[first_at(h, d)].id == d);
    }
}

/// Every other node is left alone by the command line.
pub proof fn law_options_touch_two(g: Seq<NodeModel>, opts: OptionsModel, i: int)
    requires
        0 <= i < g.len(),
        g[i].id != "package"@,
        g[i].id != "static-deploy"@,
    ensures
        with_options(g, opts).len() == g.len(),
        with_options(g, opts)[i] == g[i],
{
    lemma_first_at(g, "package"@);
    lemma_other_place(g, opts, i);
    let h = replaced(
        g,
        "package"@,
        packaged(found(g, "package"@), opts),
    );
    lemma_first_at(h, "static-deploy"@);
}

/// Settings that resolve give a graph in which the command line has the last word: the
/// first packaging node runs and writes the archive that the command line names, and
/// the first static deploy has the content version that it names.
pub proof fn law_command_line_has_the_last_word(
    specs: Seq<(Seq<char>, SpecModel)>,
    opts: OptionsModel,
    dirs: Seq<Seq<char>>,
    i: int,
)
    requires
        resolved_graph(specs, opts, dirs) is Ok,
        0 <= i < resolved_graph(specs, opts, dirs)->Ok_0.len(),
    ensures
        ({
            let g = resolved_graph(specs, opts, dirs)->Ok_0;
            let first = forall|j: int| 0 <= j < i ==> (#[trigger] g[j]).id != g[i].id;
            &&& first && g[i].id == "package"@ && opts.artifact is Some ==> g[i].when == When::Always
            &&& first && g[i].id == "package"@ ==> (g[i].kind matches KindModel::Native(step) ==> step is Package ==> {
                &&& opts.artifact matches Some(path) ==> step->output == path
                &&& opts.exclude_from matches Some(path) ==> step->exclude_from == Some(path)
            })
            &&& first && g[i].id == "static-deploy"@ ==> (g[i].kind matches KindModel::Native(step)
                ==> step is StaticDeploy ==> (opts.deployed_version matches Some(v) ==> step->deployed_version == Some(v)))
        }),
{
    let b = with_specs(base_graph(opts.preset, dirs), specs)->Ok_0;
    let g = with_options(b, opts);
    assert(g == resolved_graph(specs, opts, dirs)->Ok_0);
    law_options_win(b, opts);
    assert(same_shape(b, g));
    assert forall|j: int| 0 <= j < b.len() implies (#[trigger] g[j]).id == b[j].id by {
        assert(b[j].id == g[j].id);
    }
    assert(b[i].id == g[i].id);
    if forall|j: int| 0 <= j < i ==> (#[trigger] g[j]).id != g[i].id {
        assert forall|j: int| 0 <= j < i implies (#[trigger] b[j]).id != b[i].id by {
            assert(g[j].id == b[j].id);
        }
        lemma_names_differ();
        if g[i].id == "package"@ {
            law_artifact_is_packaged(b, opts, i);
            lemma_kind_kept(b, opts, i);
        }
        if g[i].id == "static-deploy"@ {
            law_version_is_deployed(b, opts, i);
            lemma_kind_kept(b, opts, i);
        }
    }
}

/// The command line turns no step into another one.
proof fn lemma_kind_kept(g: Seq<NodeModel>, opts: OptionsModel, i: int)
    requires
        0 <= i < g.len(),
    ensures
        with_options(g, opts)[i].kind is Command <==> g[i].kind is Command,
        (with_options(g, opts)[i].kind matches KindModel::Native(s) && s is Package) <==> (g[i].kind
            matches KindModel::Native(s) && s is Package),
        (with_options(g, opts)[i].kind matches KindModel::Native(s) && s is StaticDeploy) <==> (g[i].kind
            matches KindModel::Native(s) && s is StaticDeploy),
{
    lemma_first_at(g, "package"@);
    lemma_other_place(g, opts, i);
    let h = replaced(
        g,
        "package"@,
        packaged(found(g, "package"@), opts),
    );
    lemma_first_at(h, "static-deploy"@);
}

/// Without any settings the default graph is built; a graph that settings give is
/// refused exactly where it is not valid.
pub proof fn law_resolution_is_judged(specs: Seq<(Seq<char>, SpecModel)>, opts: OptionsModel, dirs: Seq<Seq<char>>)
    ensures
        with_specs(base_graph(opts.preset, dirs), specs) matches Err(id) ==> resolved_graph(specs, opts, dirs) == Err::<
            Seq<NodeModel>,
            ConfigErrorModel,
        >(ConfigErrorModel::NewNodeNeedsRun(id)),
        with_specs(base_graph(opts.preset, dirs), specs) matches Ok(g) ==> {
            let h = with_options(g, opts);
            &&& graph_error(h) is None ==> resolved_graph(specs, opts, dirs) == Ok::<Seq<NodeModel>, ConfigErrorModel>(h)
            &&& graph_error(h) matches Some(e) ==> resolved_graph(specs, opts, dirs) == Err::<
                Seq<NodeModel>,
                ConfigErrorModel,
            >(ConfigErrorModel::Invalid(e))
        },
        opts.preset is None ==> base_graph(opts.preset, dirs) == default_nodes(),
        with_specs(default_nodes(), seq![]) == Ok::<Seq<NodeModel>, Seq<char>>(default_nodes()),
{
}

/// The number of jobs is what the command line says, else what the file says, else the
/// default, and never less than one.
pub proof fn law_jobs_follow_precedence(cli: Option<usize>, file: Option<usize>, default_jobs: usize)
    ensures
        effective_jobs(cli, file, default_jobs) >= 1,
        forall|n: usize| n >= 1 && cli == Some(n) ==> effective_jobs(cli, file, default_jobs) == n,
        forall|n: usize| n >= 1 && cli is None && file == Some(n) ==> effective_jobs(cli, file, default_jobs) == n,
        default_jobs >= 1 && cli is None && file is None ==> effective_jobs(cli, file, default_jobs) == default_jobs,
        cli == Some(0usize) ==> effective_jobs(cli, file, default_jobs) == 1,
        cli is None && file == Some(0usize) ==> effective_jobs(cli, file, default_jobs) == 1,
{
}

/// Where nothing is said, there is one job per available processor and at least one; and
/// four where the number of processors is unknown.
pub proof fn law_default_jobs(available: Option<usize>)
    ensures
        available matches Some(n) ==> n >= 1 ==> jobs_by_default(available) == n,
        available == Some(0usize) ==> jobs_by_default(available) == 1,
        available is None ==> jobs_by_default(available) == 4,
{
}

/// Settings that set nothing change nothing.
pub proof fn law_no_settings_change_nothing(node: NodeModel)
    ensures
        respecified(node, no_settings()) == node,
{
    match node.kind {
        KindModel::Native(step) => {
            assert(overridden(step, no_settings()) =~= step);
        },
        _ => {},
    }
    assert(respecified(node, no_settings()) =~= node);
}

/// A command line that names nothing changes nothing.
pub proof fn law_no_options_change_nothing(g: Seq<NodeModel>, opts: OptionsModel)
    requires
        opts.artifact is None,
        opts.exclude_from is None,
        opts.deployed_version is None,
    ensures
        with_options(g, opts) == g,
{
    lemma_first_at(g, "package"@);
    let h = replaced(g, "package"@, packaged(found(g, "package"@), opts));
    assert(packaged(found(g, "package"@), opts) =~= found(g, "package"@));
    assert(h =~= g);
    lemma_first_at(g, "static-deploy"@);
    assert(with_options(g, opts) =~= g);
}

} // verus!
