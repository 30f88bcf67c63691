//! What running a node amounts to: which engine is called with which request, or
//! which shell command is run where.
//!
//! The decisions are made here; whoever drives a run performs them.
use vstd::prelude::*;
use vstd::string::StringExecFns;

use crate::graph::{BuiltinStep, KindModel, Node, NodeKind, NodeModel, StepModel};
use crate::path::{file_name, file_name_of, join, join_path, parent, parent_of};
use crate::text::{
    chars_of, clone_text_option, clone_texts, decimal, option_text, push_decimal, same_text,
    string_of, texts,
};
use crate::textmap::TextMap;

verus! {

/// What every step is run with: the root of the project, and how many jobs
/// packaging may use.
#[derive(Debug)]
pub struct Ctx {
    pub root: String,
    pub jobs: usize,
}

/// The environment variables that steps heed.
#[derive(Debug)]
pub struct Environment {
    /// `MAGEBUILD_CACHE_DIR`.
    pub cache_dir: Option<String>,
    /// `XDG_CACHE_HOME`.
    pub xdg_cache_home: Option<String>,
    /// `HOME`.
    pub home: Option<String>,
    /// Whether `MAGEBUILD_HARDLINK` is set, to whatever value.
    pub hardlink: bool,
    /// Whether `MAGEBUILD_SYMLINK` is set, to whatever value.
    pub symlink: bool,
}

/// The view of an [`Environment`].
#[verifier::ext_equal]
pub struct EnvironmentModel {
    pub cache_dir: Option<Seq<char>>,
    pub xdg_cache_home: Option<Seq<char>>,
    pub home: Option<Seq<char>>,
    pub hardlink: bool,
    pub symlink: bool,
}

impl View for Environment {
    type V = EnvironmentModel;

    open spec fn view(&self) -> EnvironmentModel {
        EnvironmentModel {
            cache_dir: option_text(self.cache_dir),
            xdg_cache_home: option_text(self.xdg_cache_home),
            home: option_text(self.home),
            hardlink: self.hardlink,
            symlink: self.symlink,
        }
    }
}

/// A variable counts only where it is not empty.
pub open spec fn filled(v: Option<Seq<char>>) -> Option<Seq<char>> {
    match v {
        Some(s) => if s.len() > 0 {
            Some(s)
        } else {
            None
        },
        None => None,
    }
}

/// Where the user's caches are.
pub open spec fn cache_base(env: EnvironmentModel) -> Seq<char> {
    match filled(env.xdg_cache_home) {
        Some(dir) => dir,
        None => match filled(env.home) {
            Some(home) => join(home, ".cache"@),
            None => ".magebuild-cache"@,
        },
    }
}

/// Where package archives are cached: a directory that outlives the project's
/// tree, unless the environment names one.
pub open spec fn composer_cache(env: EnvironmentModel) -> Seq<char> {
    match filled(env.cache_dir) {
        Some(dir) => dir,
        None => join(join(cache_base(env), "magebuild"@), "composer-dist"@),
    }
}

fn filled_text(v: &Option<String>) -> (r: Option<String>)
    ensures
        option_text(r) == filled(option_text(*v)),
{
    match v {
        Some(s) => if chars_of(s.as_str()).len() > 0 {
            Some(s.clone())
        } else {
            None
        },
        None => None,
    }
}

/// Where package archives are cached.
pub fn composer_cache_dir(env: &Environment) -> (r: String)
    ensures
        r@ == composer_cache(env@),
{
    if let Some(dir) = filled_text(&env.cache_dir) {
        return dir;
    }
    let base = match filled_text(&env.xdg_cache_home) {
        Some(dir) => dir,
        None => match filled_text(&env.home) {
            Some(home) => join_path(home.as_str(), ".cache"),
            None => ".magebuild-cache".to_owned(),
        },
    };
    join_path(join_path(base.as_str(), "magebuild").as_str(), "composer-dist")
}

/// The compression of an archive.
#[derive(Debug, Clone, Copy, PartialEq, Eq, Structural)]
pub enum Compress {
    /// No compression.
    Plain,
    /// Parallel gzip.
    Gzip,
    /// Multi-threaded zstd.
    Zstd,
}

/// The place of the last dot in a name, or -1.
pub open spec fn last_dot(name: Seq<char>) -> int
    decreases name.len(),
{
    if name.len() == 0 {
        -1
    } else if name.last() == '.' {
        name.len() - 1
    } else {
        last_dot(name.drop_last())
    }
}

/// What stands behind the last dot of a file's name; a leading dot does not count.
pub open spec fn extension(path: Seq<char>) -> Option<Seq<char>> {
    match file_name(path) {
        Some(name) => if last_dot(name) > 0 {
            Some(name.skip(last_dot(name) + 1))
        } else {
            None
        },
        None => None,
    }
}

/// An ASCII capital letter in lowercase; any other character as it is.
pub open spec fn ascii_lower(c: char) -> char {
    if 'A' <= c <= 'Z' {
        (c as u8 + 32) as char
    } else {
        c
    }
}

/// The compression that the extension of an archive asks for, in whatever case.
pub open spec fn compression(path: Seq<char>) -> Compress {
    match extension(path) {
        Some(ext) => {
            let low = ext.map_values(|c: char| ascii_lower(c));
            if low == "gz"@ || low == "tgz"@ {
                Compress::Gzip
            } else if low == "zst"@ || low == "tzst"@ {
                Compress::Zstd
            } else {
                Compress::Plain
            }
        },
        None => Compress::Plain,
    }
}

fn lower(c: char) -> (r: char)
    ensures
        r == ascii_lower(c),
{
    if 'A' <= c && c <= 'Z' {
        (c as u8 + 32) as char
    } else {
        c
    }
}

fn extension_of(path: &str) -> (r: Option<Vec<char>>)
    ensures
        match r {
            Some(ext) => extension(path@) == Some(ext@),
            None => extension(path@) is None,
        },
{
    match file_name_of(path) {
        Some(name) => {
            let cs = chars_of(name.as_str());
            let mut n: usize = cs.len();
            assert(cs@.take(n as int) =~= cs@);
            while n > 0 && cs[n - 1] != '.'
                invariant
                    n <= cs.len(),
                    last_dot(cs@) == last_dot(cs@.take(n as int)),
                decreases n,
            {
                assert(cs@.take(n as int).drop_last() =~= cs@.take(n - 1));
                n -= 1;
            }
            if n <= 1 {
                return None;
            }
            let mut ext: Vec<char> = Vec::new();
            for i in n..cs.len()
                invariant
                    n <= cs.len(),
                    ext@ == cs@.subrange(n as int, i as int),
            {
                ext.push(cs[i]);
            }
            assert(ext@ =~= cs@.skip(n as int));
            Some(ext)
        },
        None => None,
    }
}

/// The compression that the extension of `output` asks for.
pub fn compression_of(output: &str) -> (r: Compress)
    ensures
        r == compression(output@),
{
    let ext = match extension_of(output) {
        Some(ext) => ext,
        None => {
            return Compress::Plain;
        },
    };
    let ghost want = ext@.map_values(|c: char| ascii_lower(c));
    let mut low: Vec<char> = Vec::new();
    for i in 0..ext.len()
        invariant
            low@.len() == i,
            forall|k: int| 0 <= k < i ==> #[trigger] low@[k] == ascii_lower(ext@[k]),
    {
        low.push(lower(ext[i]));
    }
    assert(low@ =~= want);
    let low = string_of(low.as_slice());
    if same_text(low.as_str(), "gz") || same_text(low.as_str(), "tgz") {
        Compress::Gzip
    } else if same_text(low.as_str(), "zst") || same_text(low.as_str(), "tzst") {
        Compress::Zstd
    } else {
        Compress::Plain
    }
}

/// How an archive is made.
#[derive(Debug)]
pub struct PackagePlan {
    pub output: String,
    pub exclude_from: Option<String>,
    /// The directory of the archive, where it is not the current one.
    pub directory: Option<String>,
    pub compress: Compress,
    /// How many threads compress.
    pub threads: usize,
}

/// The view of a [`PackagePlan`].
#[verifier::ext_equal]
pub struct PackageModel {
    pub output: Seq<char>,
    pub exclude_from: Option<Seq<char>>,
    pub directory: Option<Seq<char>>,
    pub compress: Compress,
    pub threads: usize,
}

impl View for PackagePlan {
    type V = PackageModel;

    open spec fn view(&self) -> PackageModel {
        PackageModel {
            output: self.output@,
            exclude_from: option_text(self.exclude_from),
            directory: option_text(self.directory),
            compress: self.compress,
            threads: self.threads,
        }
    }
}

/// How an archive is made.
pub open spec fn package_plan(output: Seq<char>, exclude_from: Option<Seq<char>>, jobs: usize) -> PackageModel {
    PackageModel {
        output,
        exclude_from,
        directory: filled(parent(output)),
        compress: compression(output),
        threads: if jobs == 0 {
            1
        } else {
            jobs
        },
    }
}

/// Decides how an archive is made.
pub fn plan_package(output: &String, exclude_from: &Option<String>, jobs: usize) -> (r: PackagePlan)
    ensures
        r@ == package_plan(output@, option_text(*exclude_from), jobs),
{
    PackagePlan {
        output: output.clone(),
        exclude_from: clone_text_option(exclude_from),
        directory: filled_text(&parent_of(output.as_str())),
        compress: compression_of(output.as_str()),
        threads: if jobs == 0 {
            1
        } else {
            jobs
        },
    }
}

/// The line that reports a finished archive.
pub open spec fn package_note(count: nat, output: Seq<char>) -> Seq<char> {
    "  package: "@ + decimal(count) + " entr"@ + (if count == 1 {
        "y"@
    } else {
        "ies"@
    }) + " -> "@ + output
}

/// The line that reports an archive with `count` entries.
pub fn package_line(count: usize, output: &str) -> (r: String)
    ensures
        r@ == package_note(count as nat, output@),
{
    let mut out = "  package: ".to_owned();
    push_decimal(&mut out, count as u128);
    out.append(" entr");
    out.append(
        if count == 1 {
            "y"
        } else {
            "ies"
        },
    );
    out.append(" -> ");
    out.append(output);
    out
}

/// What running a node amounts to.
#[derive(Debug)]
pub enum Action {
    ComposerInstall {
        no_dev: bool,
        /// Where package archives are cached.
        cache: String,
        hardlink: bool,
    },
    DiCompile { fused: bool },
    StaticDeploy {
        /// The themes to deploy; none stands for all of them.
        themes: Vec<String>,
        locales: Vec<String>,
        areas: Vec<String>,
        no_parent: bool,
        no_less: bool,
        no_js_bundle: bool,
        no_html_minify: bool,
        symlink: bool,
        deployed_version: Option<String>,
    },
    AutoloadDump { no_dev: bool, optimize: bool },
    Package(PackagePlan),
    /// A shell command, run in `dir` with these variables added.
    Shell { run: String, dir: String, env: TextMap<String> },
}

/// The view of an [`Action`].
#[verifier::ext_equal]
pub enum ActionModel {
    ComposerInstall { no_dev: bool, cache: Seq<char>, hardlink: bool },
    DiCompile { fused: bool },
    StaticDeploy {
        themes: Seq<Seq<char>>,
        locales: Seq<Seq<char>>,
        areas: Seq<Seq<char>>,
        no_parent: bool,
        no_less: bool,
        no_js_bundle: bool,
        no_html_minify: bool,
        symlink: bool,
        deployed_version: Option<Seq<char>>,
    },
    AutoloadDump { no_dev: bool, optimize: bool },
    Package(PackageModel),
    Shell { run: Seq<char>, dir: Seq<char>, env: Seq<(Seq<char>, Seq<char>)> },
}

impl View for Action {
    type V = ActionModel;

    open spec fn view(&self) -> ActionModel {
        match *self {
            Action::ComposerInstall { no_dev, cache, hardlink } => ActionModel::ComposerInstall {
                no_dev,
                cache: cache@,
                hardlink,
            },
            Action::DiCompile { fused } => ActionModel::DiCompile { fused },
            Action::StaticDeploy {
                themes,
                locales,
                areas,
                no_parent,
                no_less,
                no_js_bundle,
                no_html_minify,
                symlink,
                deployed_version,
            } => ActionModel::StaticDeploy {
                themes: texts(themes@),
                locales: texts(locales@),
                areas: texts(areas@),
                no_parent,
                no_less,
                no_js_bundle,
                no_html_minify,
                symlink,
                deployed_version: option_text(deployed_version),
            },
            Action::AutoloadDump { no_dev, optimize } => ActionModel::AutoloadDump { no_dev, optimize },
            Action::Package(plan) => ActionModel::Package(plan@),
            Action::Shell { run, dir, env } => ActionModel::Shell { run: run@, dir: dir@, env: env@ },
        }
    }
}

/// The named themes among the first `n`: `*` stands for all themes, which the
/// deploy engine is told by naming none.
pub open spec fn named_themes(themes: Seq<Seq<char>>, n: int) -> Seq<Seq<char>>
    decreases n,
{
    if n <= 0 {
        seq![]
    } else if themes[n - 1] == "*"@ {
        named_themes(themes, n - 1)
    } else {
        named_themes(themes, n - 1).push(themes[n - 1])
    }
}

fn without_star(themes: &Vec<String>) -> (r: Vec<String>)
    ensures
        texts(r@) == named_themes(texts(themes@), themes@.len() as int),
{
    let ghost all = texts(themes@);
    let mut r: Vec<String> = Vec::new();
    assert(texts(r@) =~= named_themes(all, 0));
    for i in 0..themes.len()
        invariant
            all == texts(themes@),
            texts(r@) == named_themes(all, i as int),
    {
        let ghost before = texts(r@);
        assert(all[i as int] == themes@[i as int]@);
        if !same_text(themes[i].as_str(), "*") {
            r.push(themes[i].clone());
            assert(texts(r@) =~= before.push(all[i as int]));
        }
    }
    r
}

/// What running a built-in step amounts to.
pub open spec fn step_action(step: StepModel, root: Seq<char>, jobs: usize, env: EnvironmentModel) -> ActionModel {
    match step {
        StepModel::ComposerInstall { no_dev, cache_root, hardlink } => ActionModel::ComposerInstall {
            no_dev,
            cache: match cache_root {
                Some(dir) => dir,
                None => composer_cache(env),
            },
            hardlink: hardlink || env.hardlink,
        },
        StepModel::DiCompile { fused } => ActionModel::DiCompile { fused },
        StepModel::StaticDeploy {
            themes,
            locales,
            areas,
            no_parent,
            no_less,
            no_js_bundle,
            no_html_minify,
            symlink,
            deployed_version,
            command,
        } => match command {
            Some(run) => ActionModel::Shell { run, dir: root, env: seq![] },
            None => ActionModel::StaticDeploy {
                themes: named_themes(themes, themes.len() as int),
                locales,
                areas,
                no_parent,
                no_less,
                no_js_bundle,
                no_html_minify,
                symlink: symlink || env.symlink,
                deployed_version,
            },
        },
        StepModel::AutoloadDump { no_dev, optimize } => ActionModel::AutoloadDump { no_dev, optimize },
        StepModel::Package { output, exclude_from } => ActionModel::Package(
            package_plan(output, exclude_from, jobs),
        ),
    }
}

/// What running a node amounts to. A command runs in its own directory, or in the
/// root of the project.
pub open spec fn action_of(node: NodeModel, root: Seq<char>, jobs: usize, env: EnvironmentModel) -> ActionModel {
    match node.kind {
        KindModel::Native(step) => step_action(step, root, jobs, env),
        KindModel::Command { run, cwd, env: vars } => ActionModel::Shell {
            run,
            dir: match cwd {
                Some(dir) => dir,
                None => root,
            },
            env: vars,
        },
    }
}

/// Decides what running a built-in step amounts to.
pub fn run_builtin(step: &BuiltinStep, ctx: &Ctx, env: &Environment) -> (r: Action)
    ensures
        r@ == step_action(step@, ctx.root@, ctx.jobs, env@),
{
    match step {
        BuiltinStep::ComposerInstall { no_dev, cache_root, hardlink } => {
            let cache = match cache_root {
                Some(dir) => dir.clone(),
                None => composer_cache_dir(env),
            };
            Action::ComposerInstall { no_dev: *no_dev, cache, hardlink: *hardlink || env.hardlink }
        },
        BuiltinStep::DiCompile { fused } => Action::DiCompile { fused: *fused },
        BuiltinStep::StaticDeploy {
            themes,
            locales,
            areas,
            no_parent,
            no_less,
            no_js_bundle,
            no_html_minify,
            symlink,
            deployed_version,
            command,
        } => match command {
            Some(run) => Action::Shell { run: run.clone(), dir: ctx.root.clone(), env: TextMap::new() },
            None => Action::StaticDeploy {
                themes: without_star(themes),
                locales: clone_texts(locales),
                areas: clone_texts(areas),
                no_parent: *no_parent,
                no_less: *no_less,
                no_js_bundle: *no_js_bundle,
                no_html_minify: *no_html_minify,
                symlink: *symlink || env.symlink,
                deployed_version: clone_text_option(deployed_version),
            },
        },
        BuiltinStep::AutoloadDump { no_dev, optimize } => Action::AutoloadDump {
            no_dev: *no_dev,
            optimize: *optimize,
        },
        BuiltinStep::Package { output, exclude_from } => Action::Package(
            plan_package(output, exclude_from, ctx.jobs),
        ),
    }
}

/// Decides what running `node` amounts to.
pub fn execute(node: &Node, ctx: &Ctx, env: &Environment) -> (r: Action)
    ensures
        r@ == action_of(node@, ctx.root@, ctx.jobs, env@),
{
    match &node.kind {
        NodeKind::Native(step) => run_builtin(step, ctx, env),
        NodeKind::Command { run, cwd, env: vars } => {
            let dir = match cwd {
                Some(dir) => dir.clone(),
                None => ctx.root.clone(),
            };
            Action::Shell { run: run.clone(), dir, env: vars.clone() }
        },
    }
}

/// Where the DI compile looks for generated code: in the frozen copy where there
/// is one, else in the live tree.
pub open spec fn generated_code(root: Seq<char>, frozen: bool) -> Seq<char> {
    if frozen {
        join(root, "generated/_code"@)
    } else {
        join(root, "generated/code"@)
    }
}

/// Where the DI compile looks for generated code, where `frozen` says whether
/// there is a frozen copy.
pub fn generated_code_dir(root: &str, frozen: bool) -> (r: String)
    ensures
        r@ == generated_code(root@, frozen),
{
    if frozen {
        join_path(root, "generated/_code")
    } else {
        join_path(root, "generated/code")
    }
}

/// The note on class names that the DI compile could not resolve.
pub open spec fn unresolved_page(names: Seq<Seq<char>>) -> Option<Seq<char>> {
    if names.len() == 0 {
        None
    } else {
        Some(
            "  note (di): "@ + decimal(names.len()) + " class name(s) unresolvable via autoload maps (first: "@ + names[0]
                + ")"@,
        )
    }
}

/// The note on class names that the DI compile could not resolve, if there are any.
pub fn unresolved_note(names: &Vec<String>) -> (r: Option<String>)
    ensures
        option_text(r) == unresolved_page(texts(names@)),
{
    if names.len() == 0 {
        return None;
    }
    assert(texts(names@)[0] == names@[0]@);
    let mut out = "  note (di): ".to_owned();
    push_decimal(&mut out, names.len() as u128);
    out.append(" class name(s) unresolvable via autoload maps (first: ");
    out.append(names[0].as_str());
    out.append(")");
    Some(out)
}

} // verus!
