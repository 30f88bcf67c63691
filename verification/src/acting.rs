//! What holds of the actions that nodes amount to: each carries the options of its
//! node, and nothing of another.
use vstd::prelude::*;

use crate::graph::{KindModel, NodeModel, StepModel};
use crate::path::{components, law_parent_drops_one, parent};
use crate::steps::{
    action_of, composer_cache, compression, generated_code, named_themes, package_note, package_plan,
    unresolved_page, ActionModel, EnvironmentModel,
};
use crate::text::decimal;

verus! {

/// A DI compile and an autoload dump are performed with exactly the options of their
/// step.
pub proof fn law_plain_steps_keep_their_options(
    node: NodeModel,
    root: Seq<char>,
    jobs: usize,
    env: EnvironmentModel,
)
    ensures
        node.kind matches KindModel::Native(step) ==> step is DiCompile ==> {
            &&& action_of(node, root, jobs, env) is DiCompile
            &&& action_of(node, root, jobs, env)->fused == step->fused
        },
        node.kind matches KindModel::Native(step) ==> step is AutoloadDump ==> {
            &&& action_of(node, root, jobs, env) is AutoloadDump
            &&& action_of(node, root, jobs, env)->AutoloadDump_no_dev == step->AutoloadDump_no_dev
            &&& action_of(node, root, jobs, env)->optimize == step->optimize
        },
{
}

/// An installation takes its options from its step; its cache is the one that the step
/// names, or the user's; and it links where the step or the environment asks for that.
pub proof fn law_installs_as_asked(
    node: NodeModel,
    root: Seq<char>,
    jobs: usize,
    env: EnvironmentModel,
    no_dev: bool,
    cache_root: Option<Seq<char>>,
    hardlink: bool,
)
    requires
        node.kind == KindModel::Native(StepModel::ComposerInstall { no_dev, cache_root, hardlink }),
    ensures
        action_of(node, root, jobs, env) matches ActionModel::ComposerInstall {
            no_dev: d,
            cache: c,
            hardlink: h,
        } && {
            &&& d == no_dev
            &&& h <==> hardlink || env.hardlink
            &&& cache_root matches Some(dir) ==> c == dir
            &&& cache_root is None ==> c == composer_cache(env)
        },
{
}

/// A static deploy without a command of its own deploys the named themes, and the
/// locales, areas, flags and version of its step; it links where the step or the
/// environment asks for that.
pub proof fn law_deploys_as_asked(
    node: NodeModel,
    root: Seq<char>,
    jobs: usize,
    env: EnvironmentModel,
    step: StepModel,
)
    requires
        node.kind == KindModel::Native(step),
        step is StaticDeploy,
        step->command is None,
    ensures
        action_of(node, root, jobs, env) is StaticDeploy,
        ({
            let a = action_of(node, root, jobs, env);
            &&& a->themes == step->themes.filter(|t: Seq<char>| t != "*"@)
            &&& a->locales == step->locales
            &&& a->areas == step->areas
            &&& a->no_parent == step->no_parent
            &&& a->no_less == step->no_less
            &&& a->no_js_bundle == step->no_js_bundle
            &&& a->no_html_minify == step->no_html_minify
            &&& a->symlink <==> step->symlink || env.symlink
            &&& a->StaticDeploy_deployed_version == step->deployed_version
        }),
{
    lemma_named_themes(step->themes, step->themes.len() as int);
    assert(step->themes.take(step->themes.len() as int) =~= step->themes);
}

proof fn lemma_named_themes(themes: Seq<Seq<char>>, n: int)
    requires
        0 <= n <= themes.len(),
    ensures
        named_themes(themes, n) == themes.take(n).filter(|t: Seq<char>| t != "*"@),
    decreases n,
{
    reveal(Seq::filter);
    if n > 0 {
        lemma_named_themes(themes, n - 1);
        assert(themes.take(n).drop_last() =~= themes.take(n - 1));
        assert(themes.take(n).last() == themes[n - 1]);
    }
}

/// A static deploy with a command of its own runs exactly that, in the root of the
/// project; and a command node runs its command, in its own directory if it has one,
/// with its own variables.
pub proof fn law_commands_run_as_written(
    node: NodeModel,
    root: Seq<char>,
    jobs: usize,
    env: EnvironmentModel,
)
    ensures
        node.kind matches KindModel::Command { run, cwd, env: vars } ==> {
            &&& action_of(node, root, jobs, env) is Shell
            &&& action_of(node, root, jobs, env)->run == run
            &&& action_of(node, root, jobs, env)->env == vars
            &&& cwd matches Some(dir) ==> action_of(node, root, jobs, env)->dir == dir
            &&& cwd is None ==> action_of(node, root, jobs, env)->dir == root
        },
        node.kind matches KindModel::Native(step) ==> step is StaticDeploy ==> (step->command matches Some(run) ==> {
            &&& action_of(node, root, jobs, env) is Shell
            &&& action_of(node, root, jobs, env)->run == run
            &&& action_of(node, root, jobs, env)->dir == root
            &&& action_of(node, root, jobs, env)->env.len() == 0
        }),
{
}

/// Packaging writes the archive of its step with the excludes file of its step, by as
/// many threads as there are jobs and at least one. It makes the directory of the
/// archive exactly where the archive is named with one.
pub proof fn law_packs_as_asked(
    node: NodeModel,
    root: Seq<char>,
    jobs: usize,
    env: EnvironmentModel,
    output: Seq<char>,
    exclude_from: Option<Seq<char>>,
)
    requires
        node.kind == KindModel::Native(StepModel::Package { output, exclude_from }),
    ensures
        action_of(node, root, jobs, env) matches ActionModel::Package(plan) && {
            &&& plan.output == output
            &&& plan.exclude_from == exclude_from
            &&& plan.threads >= 1
            &&& jobs >= 1 ==> plan.threads == jobs
            &&& jobs == 0 ==> plan.threads == 1
            &&& plan.compress == compression(output)
            &&& plan.directory is Some <==> components(output).len() >= 2
            &&& plan.directory matches Some(d) ==> components(d) == components(output).drop_last()
        },
{
    law_parent_drops_one(output);
    let plan = package_plan(output, exclude_from, jobs);
    match parent(output) {
        Some(p) => {
            if components(output).len() >= 2 {
                if p.len() == 0 {
                    lemma_empty_path(p);
                }
            } else {
                crate::path::lemma_single_has_no_parent(output);
            }
        },
        None => {},
    }
}

proof fn lemma_empty_path(p: Seq<char>)
    requires
        p.len() == 0,
    ensures
        components(p).len() == 0,
{
    crate::path::lemma_no_components(p);
}

/// A cache directory that the environment names is used as it is, whatever else is set.
pub proof fn law_named_cache_is_used(env: EnvironmentModel, dir: Seq<char>)
    requires
        dir.len() > 0,
        env.cache_dir == Some(dir),
    ensures
        composer_cache(env) == dir,
{
}

/// Where no cache directory is named, or an empty one, package archives are cached below
/// the user's cache; that is below the home directory where it is not named, and below
/// the working directory where there is no home either.
pub proof fn law_cache_is_where_the_environment_says(env: EnvironmentModel, dir: Seq<char>)
    requires
        dir.len() > 0,
        env.cache_dir is None || env.cache_dir->0.len() == 0,
    ensures
        ({
            let no_xdg = env.xdg_cache_home is None || env.xdg_cache_home->0.len() == 0;
            let no_home = env.home is None || env.home->0.len() == 0;
            &&& env.xdg_cache_home == Some(dir) && dir.last() != '/' ==> composer_cache(env) == dir
                + "/magebuild/composer-dist"@
            &&& env.xdg_cache_home == Some(dir) && dir.last() == '/' ==> composer_cache(env) == dir
                + "magebuild/composer-dist"@
            &&& no_xdg && env.home == Some(dir) && dir.last() != '/' ==> composer_cache(env) == dir
                + "/.cache/magebuild/composer-dist"@
            &&& no_xdg && env.home == Some(dir) && dir.last() == '/' ==> composer_cache(env) == dir
                + ".cache/magebuild/composer-dist"@
            &&& no_xdg && no_home ==> composer_cache(env) == ".magebuild-cache/magebuild/composer-dist"@
        }),
{
    reveal_strlit("magebuild");
    reveal_strlit("composer-dist");
    reveal_strlit(".cache");
    reveal_strlit(".magebuild-cache");
    reveal_strlit("/magebuild/composer-dist");
    reveal_strlit("magebuild/composer-dist");
    reveal_strlit("/.cache/magebuild/composer-dist");
    reveal_strlit(".cache/magebuild/composer-dist");
    reveal_strlit(".magebuild-cache/magebuild/composer-dist");
    let m = "magebuild"@;
    let c = "composer-dist"@;
    let home = ".cache"@;
    let own = ".magebuild-cache"@;
    assert((dir.push('/') + m).push('/') + c =~= dir + "/magebuild/composer-dist"@);
    assert((dir + m).push('/') + c =~= dir + "magebuild/composer-dist"@);
    assert(((dir.push('/') + home).push('/') + m).push('/') + c =~= dir + "/.cache/magebuild/composer-dist"@);
    assert(((dir + home).push('/') + m).push('/') + c =~= dir + ".cache/magebuild/composer-dist"@);
    assert((own.push('/') + m).push('/') + c =~= ".magebuild-cache/magebuild/composer-dist"@);
}

/// The DI compile looks into the frozen copy of the generated code where there is one,
/// and into the live tree otherwise.
pub proof fn law_frozen_code_is_preferred(root: Seq<char>)
    requires
        root.len() > 0,
    ensures
        root.last() != '/' ==> generated_code(root, true) == root + "/generated/_code"@,
        root.last() != '/' ==> generated_code(root, false) == root + "/generated/code"@,
        root.last() == '/' ==> generated_code(root, true) == root + "generated/_code"@,
        root.last() == '/' ==> generated_code(root, false) == root + "generated/code"@,
{
    reveal_strlit("generated/_code");
    reveal_strlit("generated/code");
    reveal_strlit("/generated/_code");
    reveal_strlit("/generated/code");
    assert(root.push('/') + "generated/_code"@ =~= root + "/generated/_code"@);
    assert(root.push('/') + "generated/code"@ =~= root + "/generated/code"@);
}

/// The line on an archive tells how many entries it has, in words that agree in
/// number, and where it is.
pub proof fn law_package_line_counts(count: nat, output: Seq<char>)
    ensures
        count == 1 ==> package_note(count, output) == "  package: 1 entry -> "@ + output,
        count != 1 ==> package_note(count, output) == "  package: "@ + decimal(count) + " entries -> "@ + output,
{
    reveal_strlit("  package: 1 entry -> ");
    reveal_strlit("  package: ");
    reveal_strlit(" entr");
    reveal_strlit("y");
    reveal_strlit("ies");
    reveal_strlit(" -> ");
    reveal_strlit(" entries -> ");
    assert(decimal(1) =~= seq!['1']);
    assert("  package: "@ + seq!['1'] + " entr"@ + "y"@ + " -> "@ =~= "  package: 1 entry -> "@);
    assert("  package: "@ + decimal(count) + " entr"@ + "ies"@ + " -> "@ + output =~= "  package: "@ + decimal(count)
        + " entries -> "@ + output);
}

/// There is a note on unresolved names exactly where there are some; it counts them and
/// shows the first.
pub proof fn law_unresolved_names_are_noted(names: Seq<Seq<char>>)
    ensures
        unresolved_page(names) is None <==> names.len() == 0,
        unresolved_page(names) matches Some(line) ==> line == "  note (di): "@ + decimal(names.len())
            + " class name(s) unresolvable via autoload maps (first: "@ + names[0] + ")"@,
{
}

} // verus!
