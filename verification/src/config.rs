//! The built-in build graph, and the settings that are laid over it.
//!
//! Precedence: built-in defaults, then a preset, then the settings file, then
//! the command line; what comes later wins.
use vstd::prelude::*;
use vstd::string::StringExecFns;

use crate::graph::{
    declares, error_message, first_at, BuiltinStep, ErrorModel, Graph, GraphError, KindModel, Node,
    NodeKind, NodeModel, StepModel, When,
};
use crate::order::graph_error;
use crate::preset::{apply_preset, preset_applied, Preset};
use crate::text::{clone_text_option, clone_texts, option_text, texts};
use crate::textmap::{keys_ascend, TextMap};

verus! {

/// The default graph:
/// `composer-install`, then `di-compile` before `autoload-dump` alongside
/// `static-deploy`, then `package`, which does not run unless it is asked for.
pub open spec fn default_nodes() -> Seq<NodeModel> {
    seq![
        NodeModel {
            id: "composer-install"@,
            after: seq![],
            kind: KindModel::Native(StepModel::ComposerInstall { no_dev: true, cache_root: None, hardlink: false }),
            when: When::Always,
        },
        NodeModel {
            id: "di-compile"@,
            after: seq!["composer-install"@],
            kind: KindModel::Native(StepModel::DiCompile { fused: false }),
            when: When::Always,
        },
        NodeModel {
            id: "autoload-dump"@,
            after: seq!["di-compile"@],
            kind: KindModel::Native(StepModel::AutoloadDump { no_dev: true, optimize: true }),
            when: When::Always,
        },
        NodeModel {
            id: "static-deploy"@,
            after: seq!["composer-install"@],
            kind: KindModel::Native(
                StepModel::StaticDeploy {
                    themes: seq!["*"@],
                    locales: seq!["en_US"@],
                    areas: seq!["frontend"@, "adminhtml"@],
                    no_parent: false,
                    no_less: false,
                    no_js_bundle: false,
                    no_html_minify: false,
                    symlink: false,
                    deployed_version: None,
                    command: None,
                },
            ),
            when: When::Always,
        },
        NodeModel {
            id: "package"@,
            after: seq!["autoload-dump"@, "static-deploy"@],
            kind: KindModel::Native(StepModel::Package { output: "artifact.tar.gz"@, exclude_from: None }),
            when: When::Never,
        },
    ]
}

fn one(a: &str) -> (r: Vec<String>)
    ensures
        texts(r@) == seq![a@],
{
    let mut r: Vec<String> = Vec::new();
    r.push(a.to_owned());
    assert(texts(r@) =~= seq![a@]);
    r
}

fn two(a: &str, b: &str) -> (r: Vec<String>)
    ensures
        texts(r@) == seq![a@, b@],
{
    let mut r: Vec<String> = Vec::new();
    r.push(a.to_owned());
    r.push(b.to_owned());
    assert(texts(r@) =~= seq![a@, b@]);
    r
}

/// The five nodes of the default graph.
pub fn default_graph() -> (r: Graph)
    ensures
        r@ == default_nodes(),
{
    let composer = Node::native(
        "composer-install",
        &[],
        BuiltinStep::ComposerInstall { no_dev: true, cache_root: None, hardlink: false },
    );
    let di = Node::native("di-compile", &["composer-install"], BuiltinStep::DiCompile { fused: false });
    let dump = Node::native(
        "autoload-dump",
        &["di-compile"],
        BuiltinStep::AutoloadDump { no_dev: true, optimize: true },
    );
    let deploy = Node::native(
        "static-deploy",
        &["composer-install"],
        BuiltinStep::StaticDeploy {
            themes: one("*"),
            locales: one("en_US"),
            areas: two("frontend", "adminhtml"),
            no_parent: false,
            no_less: false,
            no_js_bundle: false,
            no_html_minify: false,
            symlink: false,
            deployed_version: None,
            command: None,
        },
    );
    let package = Node {
        id: "package".to_owned(),
        after: two("autoload-dump", "static-deploy"),
        kind: NodeKind::Native(
            BuiltinStep::Package { output: "artifact.tar.gz".to_owned(), exclude_from: None },
        ),
        when: When::Never,
    };
    proof {
        let d = default_nodes();
        assert(composer@ =~= d[0]);
        assert(di@ =~= d[1]);
        assert(dump@ =~= d[2]);
        assert(deploy@ =~= d[3]);
        assert(package@ =~= d[4]);
    }
    let g = Graph::new(vec![composer, di, dump, deploy, package]);
    assert(g@ =~= default_nodes());
    g
}

/// What the settings file says of one node. A field that is not set keeps what
/// the graph has.
#[derive(Debug)]
pub struct NodeSpec {
    /// Turns a built-in step into a command, gives a command another one to run, or
    /// defines a new node.
    pub run: Option<String>,
    pub cwd: Option<String>,
    pub env: Option<TextMap<String>>,
    pub after: Option<Vec<String>>,
    // Fields of built-in steps, ignored by commands and where `run` is set.
    pub no_dev: Option<bool>,
    pub optimize: Option<bool>,
    pub fused: Option<bool>,
    pub hardlink: Option<bool>,
    pub cache_root: Option<String>,
    pub themes: Option<Vec<String>>,
    pub locales: Option<Vec<String>>,
    pub areas: Option<Vec<String>>,
    pub no_parent: Option<bool>,
    pub no_less: Option<bool>,
    pub no_js_bundle: Option<bool>,
    pub no_html_minify: Option<bool>,
    pub symlink: Option<bool>,
    pub deployed_version: Option<String>,
    pub exclude_from: Option<String>,
    pub output: Option<String>,
}

/// The view of a [`NodeSpec`].
#[verifier::ext_equal]
pub struct SpecModel {
    pub run: Option<Seq<char>>,
    pub cwd: Option<Seq<char>>,
    pub env: Option<Seq<(Seq<char>, Seq<char>)>>,
    pub after: Option<Seq<Seq<char>>>,
    pub no_dev: Option<bool>,
    pub optimize: Option<bool>,
    pub fused: Option<bool>,
    pub hardlink: Option<bool>,
    pub cache_root: Option<Seq<char>>,
    pub themes: Option<Seq<Seq<char>>>,
    pub locales: Option<Seq<Seq<char>>>,
    pub areas: Option<Seq<Seq<char>>>,
    pub no_parent: Option<bool>,
    pub no_less: Option<bool>,
    pub no_js_bundle: Option<bool>,
    pub no_html_minify: Option<bool>,
    pub symlink: Option<bool>,
    pub deployed_version: Option<Seq<char>>,
    pub exclude_from: Option<Seq<char>>,
    pub output: Option<Seq<char>>,
}

/// The view of an optional list of strings.
pub open spec fn option_texts(v: Option<Vec<String>>) -> Option<Seq<Seq<char>>> {
    match v {
        Some(v) => Some(texts(v@)),
        None => None,
    }
}

/// The view of an optional map.
pub open spec fn option_map(v: Option<TextMap<String>>) -> Option<Seq<(Seq<char>, Seq<char>)>> {
    match v {
        Some(m) => Some(m@),
        None => None,
    }
}

impl View for NodeSpec {
    type V = SpecModel;

    open spec fn view(&self) -> SpecModel {
        SpecModel {
            run: option_text(self.run),
            cwd: option_text(self.cwd),
            env: option_map(self.env),
            after: option_texts(self.after),
            no_dev: self.no_dev,
            optimize: self.optimize,
            fused: self.fused,
            hardlink: self.hardlink,
            cache_root: option_text(self.cache_root),
            themes: option_texts(self.themes),
            locales: option_texts(self.locales),
            areas: option_texts(self.areas),
            no_parent: self.no_parent,
            no_less: self.no_less,
            no_js_bundle: self.no_js_bundle,
            no_html_minify: self.no_html_minify,
            symlink: self.symlink,
            deployed_version: option_text(self.deployed_version),
            exclude_from: option_text(self.exclude_from),
            output: option_text(self.output),
        }
    }
}

/// The settings that change nothing.
pub open spec fn no_settings() -> SpecModel {
    SpecModel {
        run: None,
        cwd: None,
        env: None,
        after: None,
        no_dev: None,
        optimize: None,
        fused: None,
        hardlink: None,
        cache_root: None,
        themes: None,
        locales: None,
        areas: None,
        no_parent: None,
        no_less: None,
        no_js_bundle: None,
        no_html_minify: None,
        symlink: None,
        deployed_version: None,
        exclude_from: None,
        output: None,
    }
}

impl Default for NodeSpec {
    fn default() -> (r: NodeSpec)
        ensures
            r@ == no_settings(),
    {
        NodeSpec {
            run: None,
            cwd: None,
            env: None,
            after: None,
            no_dev: None,
            optimize: None,
            fused: None,
            hardlink: None,
            cache_root: None,
            themes: None,
            locales: None,
            areas: None,
            no_parent: None,
            no_less: None,
            no_js_bundle: None,
            no_html_minify: None,
            symlink: None,
            deployed_version: None,
            exclude_from: None,
            output: None,
        }
    }
}

fn clone_texts_option(v: &Option<Vec<String>>) -> (r: Option<Vec<String>>)
    ensures
        option_texts(r) == option_texts(*v),
{
    match v {
        Some(v) => Some(clone_texts(v)),
        None => None,
    }
}

impl Clone for NodeSpec {
    fn clone(&self) -> (r: NodeSpec)
        ensures
            r@ == self@,
    {
        let env = match &self.env {
            Some(m) => Some(m.clone()),
            None => None,
        };
        NodeSpec {
            run: clone_text_option(&self.run),
            cwd: clone_text_option(&self.cwd),
            env,
            after: clone_texts_option(&self.after),
            no_dev: self.no_dev,
            optimize: self.optimize,
            fused: self.fused,
            hardlink: self.hardlink,
            cache_root: clone_text_option(&self.cache_root),
            themes: clone_texts_option(&self.themes),
            locales: clone_texts_option(&self.locales),
            areas: clone_texts_option(&self.areas),
            no_parent: self.no_parent,
            no_less: self.no_less,
            no_js_bundle: self.no_js_bundle,
            no_html_minify: self.no_html_minify,
            symlink: self.symlink,
            deployed_version: clone_text_option(&self.deployed_version),
            exclude_from: clone_text_option(&self.exclude_from),
            output: clone_text_option(&self.output),
        }
    }
}

impl Clone for TextMap<NodeSpec> {
    fn clone(&self) -> (r: TextMap<NodeSpec>)
        ensures
            r@ == self@,
    {
        let mut r: TextMap<NodeSpec> = TextMap::new();
        let n = self.len();
        let ghost all = self@;
        for i in 0..n
            invariant
                n == all.len(),
                all == self@,
                keys_ascend(all),
                r@ == all.take(i as int),
        {
            proof {
                if i > 0 {
                    assert(all.take(i as int).last() == all[i - 1]);
                }
                assert(all.take(i + 1) =~= all.take(i as int).push(all[i as int]));
            }
            r.insert(self.key(i).to_owned(), self.value(i).clone());
        }
        assert(all.take(n as int) =~= all);
        r
    }
}

/// The new value where there is one, else the old.
pub open spec fn chosen<A>(new: Option<A>, old_value: A) -> A {
    match new {
        Some(v) => v,
        None => old_value,
    }
}

/// The first of two optional values that is there.
pub open spec fn either<A>(first: Option<A>, second: Option<A>) -> Option<A> {
    match first {
        Some(v) => Some(v),
        None => second,
    }
}

/// A step with the fields that are set for it.
pub open spec fn overridden(step: StepModel, spec: SpecModel) -> StepModel {
    match step {
        StepModel::ComposerInstall { no_dev, cache_root, hardlink } => StepModel::ComposerInstall {
            no_dev: chosen(spec.no_dev, no_dev),
            cache_root: either(spec.cache_root, cache_root),
            hardlink: chosen(spec.hardlink, hardlink),
        },
        StepModel::DiCompile { fused } => StepModel::DiCompile { fused: chosen(spec.fused, fused) },
        StepModel::StaticDeploy {
            themes,
            locales,
            areas,
            no_parent,
            no_less,
            no_js_bundle,
            no_html_minify,
            symlink,
            deployed_version,
            command,
        } => StepModel::StaticDeploy {
            themes: chosen(spec.themes, themes),
            locales: chosen(spec.locales, locales),
            areas: chosen(spec.areas, areas),
            no_parent: chosen(spec.no_parent, no_parent),
            no_less: chosen(spec.no_less, no_less),
            no_js_bundle: chosen(spec.no_js_bundle, no_js_bundle),
            no_html_minify: chosen(spec.no_html_minify, no_html_minify),
            symlink: chosen(spec.symlink, symlink),
            deployed_version: either(spec.deployed_version, deployed_version),
            command,
        },
        StepModel::AutoloadDump { no_dev, optimize } => StepModel::AutoloadDump {
            no_dev: chosen(spec.no_dev, no_dev),
            optimize: chosen(spec.optimize, optimize),
        },
        StepModel::Package { output, exclude_from } => StepModel::Package {
            output: chosen(spec.output, output),
            exclude_from: either(spec.exclude_from, exclude_from),
        },
    }
}

fn set_flag(slot: &mut bool, new: Option<bool>)
    ensures
        *final(slot) == chosen(new, *old(slot)),
{
    if let Some(v) = new {
        *slot = v;
    }
}

fn set_texts(slot: &mut Vec<String>, new: &Option<Vec<String>>)
    ensures
        texts(final(slot)@) == chosen(option_texts(*new), texts(old(slot)@)),
{
    if let Some(v) = new {
        *slot = clone_texts(v);
    }
}

fn set_option(slot: &mut Option<String>, new: &Option<String>)
    ensures
        option_text(*final(slot)) == either(option_text(*new), option_text(*old(slot))),
{
    if let Some(v) = new {
        *slot = Some(v.clone());
    }
}

fn set_text(slot: &mut String, new: &Option<String>)
    ensures
        final(slot)@ == chosen(option_text(*new), old(slot)@),
{
    if let Some(v) = new {
        *slot = v.clone();
    }
}

fn set_map(slot: &mut TextMap<String>, new: &Option<TextMap<String>>)
    ensures
        final(slot)@ == chosen(option_map(*new), old(slot)@),
{
    if let Some(m) = new {
        *slot = m.clone();
    }
}

/// Lays the fields that are set over a built-in step.
pub fn override_step(step: &mut BuiltinStep, spec: &NodeSpec)
    ensures
        final(step)@ == overridden(old(step)@, spec@),
{
    match step {
        BuiltinStep::ComposerInstall { no_dev, cache_root, hardlink } => {
            set_flag(no_dev, spec.no_dev);
            set_option(cache_root, &spec.cache_root);
            set_flag(hardlink, spec.hardlink);
        },
        BuiltinStep::DiCompile { fused } => {
            set_flag(fused, spec.fused);
        },
        BuiltinStep::StaticDeploy {
            themes,
            locales,
            areas,
            no_parent,
            no_less,
            no_js_bundle,
            no_html_minify,
            symlink,
            deployed_version,
            ..
        } => {
            set_texts(themes, &spec.themes);
            set_texts(locales, &spec.locales);
            set_texts(areas, &spec.areas);
            set_flag(no_parent, spec.no_parent);
            set_flag(no_less, spec.no_less);
            set_flag(no_js_bundle, spec.no_js_bundle);
            set_flag(no_html_minify, spec.no_html_minify);
            set_flag(symlink, spec.symlink);
            set_option(deployed_version, &spec.deployed_version);
        },
        BuiltinStep::AutoloadDump { no_dev, optimize } => {
            set_flag(no_dev, spec.no_dev);
            set_flag(optimize, spec.optimize);
        },
        BuiltinStep::Package { output, exclude_from } => {
            set_text(output, &spec.output);
            set_option(exclude_from, &spec.exclude_from);
        },
    }
}

/// The command that a spec with a `run` defines.
pub open spec fn command_of(spec: SpecModel) -> KindModel {
    KindModel::Command { run: spec.run->0, cwd: spec.cwd, env: chosen(spec.env, seq![]) }
}

/// A kind after a spec has been laid over it: a command keeps what the spec does not
/// set, a built-in step becomes a command where the spec has a `run`, and takes the
/// fields that are set for it otherwise.
pub open spec fn respecified_kind(kind: KindModel, spec: SpecModel) -> KindModel {
    match kind {
        KindModel::Command { run, cwd, env } => KindModel::Command {
            run: chosen(spec.run, run),
            cwd: either(spec.cwd, cwd),
            env: chosen(spec.env, env),
        },
        KindModel::Native(step) => if spec.run is Some {
            command_of(spec)
        } else {
            KindModel::Native(overridden(step, spec))
        },
    }
}

/// An existing node after a spec has been laid over it. A built-in packaging step
/// that is given an archive runs.
pub open spec fn respecified(node: NodeModel, spec: SpecModel) -> NodeModel {
    NodeModel {
        after: chosen(spec.after, node.after),
        kind: respecified_kind(node.kind, spec),
        when: if node.kind is Native && node.kind->Native_0 is Package && spec.run is None && spec.output is Some {
            When::Always
        } else {
            node.when
        },
        ..node
    }
}

/// The graph with another node in the place of the first one with the id.
pub open spec fn replaced(g: Seq<NodeModel>, id: Seq<char>, node: NodeModel) -> Seq<NodeModel> {
    if declares(g, id) {
        g.update(first_at(g, id), node)
    } else {
        g
    }
}

/// The first node with the id, where there is one.
pub open spec fn found(g: Seq<NodeModel>, id: Seq<char>) -> NodeModel {
    g[first_at(g, id)]
}

/// The graph after the spec for `id` has been applied: it changes the node, or
/// adds a command. `None` where a new node has no `run`.
pub open spec fn with_spec(g: Seq<NodeModel>, id: Seq<char>, spec: SpecModel) -> Option<Seq<NodeModel>> {
    if declares(g, id) {
        Some(replaced(g, id, respecified(found(g, id), spec)))
    } else if spec.run is Some {
        Some(
            g.push(
                NodeModel {
                    id,
                    after: chosen(spec.after, seq![]),
                    kind: command_of(spec),
                    when: When::Always,
                },
            ),
        )
    } else {
        None
    }
}

fn command_kind(run: &String, spec: &NodeSpec) -> (r: NodeKind)
    requires
        option_text(spec.run) == Some(run@),
    ensures
        r@ == command_of(spec@),
{
    let env = match &spec.env {
        Some(m) => m.clone(),
        None => TextMap::new(),
    };
    NodeKind::Command { run: run.clone(), cwd: clone_text_option(&spec.cwd), env }
}

/// Why settings are refused.
#[derive(Debug, Clone, PartialEq, Eq)]
pub enum ConfigError {
    /// A node that the graph does not have is described without a `run`.
    NewNodeNeedsRun(String),
    /// The graph that the settings give is not valid.
    Invalid(GraphError),
}

/// The view of a [`ConfigError`].
#[verifier::ext_equal]
pub enum ConfigErrorModel {
    NewNodeNeedsRun(Seq<char>),
    Invalid(ErrorModel),
}

impl View for ConfigError {
    type V = ConfigErrorModel;

    open spec fn view(&self) -> ConfigErrorModel {
        match *self {
            ConfigError::NewNodeNeedsRun(id) => ConfigErrorModel::NewNodeNeedsRun(id@),
            ConfigError::Invalid(e) => ConfigErrorModel::Invalid(e@),
        }
    }
}

/// The sentence that reports refused settings.
pub open spec fn config_message(e: ConfigErrorModel) -> Seq<char> {
    match e {
        ConfigErrorModel::NewNodeNeedsRun(id) => "new node `"@ + id
            + "` needs a `run` (only built-in nodes can be field-tuned)"@,
        ConfigErrorModel::Invalid(e) => "invalid build graph: "@ + error_message(e),
    }
}

impl ConfigError {
    /// The sentence that reports this error.
    pub fn message(&self) -> (r: String)
        ensures
            r@ == config_message(self@),
    {
        match self {
            ConfigError::NewNodeNeedsRun(id) => {
                let mut out = "new node `".to_owned();
                out.append(id.as_str());
                out.append("` needs a `run` (only built-in nodes can be field-tuned)");
                out
            },
            ConfigError::Invalid(e) => {
                let mut out = "invalid build graph: ".to_owned();
                out.append(e.message().as_str());
                out
            },
        }
    }
}

/// Applies the spec for `id`: changes the node, or adds a command. A new node
/// without a `run` is refused, and leaves the graph alone.
pub fn apply_spec(graph: &mut Graph, id: &str, spec: &NodeSpec) -> (r: Result<(), ConfigError>)
    ensures
        match with_spec(old(graph)@, id@, spec@) {
            Some(g) => r is Ok && final(graph)@ == g,
            None => r is Err && r->Err_0@ == ConfigErrorModel::NewNodeNeedsRun(id@) && final(graph)@ == old(graph)@,
        },
{
    let ghost g = graph@;
    match graph.get_mut(id) {
        Some(node) => {
            let ghost before = node@;
            set_texts(&mut node.after, &spec.after);
            match &mut node.kind {
                NodeKind::Command { run, cwd, env } => {
                    set_text(run, &spec.run);
                    set_option(cwd, &spec.cwd);
                    set_map(env, &spec.env);
                },
                NodeKind::Native(step) => match &spec.run {
                    Some(run) => {
                        node.kind = command_kind(run, spec);
                    },
                    None => {
                        override_step(step, spec);
                        if matches!(step, BuiltinStep::Package { .. }) && spec.output.is_some() {
                            node.when = When::Always;
                        }
                    },
                },
            }
            assert(node@ =~= respecified(before, spec@));
            Ok(())
        },
        None => match &spec.run {
            Some(run) => {
                let after = match &spec.after {
                    Some(v) => clone_texts(v),
                    None => Vec::new(),
                };
                assert(texts(after@) =~= chosen(spec@.after, seq![]));
                let kind = command_kind(run, spec);
                graph.push(Node { id: id.to_owned(), after, kind, when: When::Always });
                Ok(())
            },
            None => Err(ConfigError::NewNodeNeedsRun(id.to_owned())),
        },
    }
}

/// The general section of the settings file.
#[derive(Debug, Clone)]
pub struct BuildSection {
    pub jobs: Option<usize>,
}

impl Default for BuildSection {
    fn default() -> (r: BuildSection)
        ensures
            r.jobs is None,
    {
        BuildSection { jobs: None }
    }
}

/// The settings file.
#[derive(Debug)]
pub struct FileConfig {
    pub build: BuildSection,
    pub nodes: TextMap<NodeSpec>,
}

impl Default for FileConfig {
    fn default() -> (r: FileConfig)
        ensures
            r.build.jobs is None,
            r.nodes@ == Seq::<(Seq<char>, SpecModel)>::empty(),
    {
        FileConfig { build: BuildSection::default(), nodes: TextMap::new() }
    }
}

impl Clone for FileConfig {
    fn clone(&self) -> (r: FileConfig)
        ensures
            r.build.jobs == self.build.jobs,
            r.nodes@ == self.nodes@,
    {
        FileConfig { build: BuildSection { jobs: self.build.jobs }, nodes: self.nodes.clone() }
    }
}

/// What the command line asks for.
#[derive(Debug, Clone)]
pub struct BuildOptions {
    /// Makes the `package` node run, with this archive.
    pub artifact: Option<String>,
    /// The file of exclude patterns for `package`.
    pub exclude_from: Option<String>,
    pub jobs: Option<usize>,
    /// The content version that the static deploy writes.
    pub deployed_version: Option<String>,
    pub preset: Option<Preset>,
}

/// The view of [`BuildOptions`].
#[verifier::ext_equal]
pub struct OptionsModel {
    pub artifact: Option<Seq<char>>,
    pub exclude_from: Option<Seq<char>>,
    pub jobs: Option<usize>,
    pub deployed_version: Option<Seq<char>>,
    pub preset: Option<Preset>,
}

impl View for BuildOptions {
    type V = OptionsModel;

    open spec fn view(&self) -> OptionsModel {
        OptionsModel {
            artifact: option_text(self.artifact),
            exclude_from: option_text(self.exclude_from),
            jobs: self.jobs,
            deployed_version: option_text(self.deployed_version),
            preset: self.preset,
        }
    }
}

impl Default for BuildOptions {
    fn default() -> (r: BuildOptions)
        ensures
            r@ == (OptionsModel {
                artifact: None,
                exclude_from: None,
                jobs: None,
                deployed_version: None,
                preset: None,
            }),
    {
        BuildOptions { artifact: None, exclude_from: None, jobs: None, deployed_version: None, preset: None }
    }
}

/// The default graph, shaped by a preset if there is one.
pub open spec fn base_graph(preset: Option<Preset>, dirs: Seq<Seq<char>>) -> Seq<NodeModel> {
    match preset {
        Some(p) => preset_applied(default_nodes(), p, dirs),
        None => default_nodes(),
    }
}

/// The graph after the specs have been applied one after the other, or the id of
/// the first one that is refused.
pub open spec fn with_specs(g: Seq<NodeModel>, specs: Seq<(Seq<char>, SpecModel)>) -> Result<
    Seq<NodeModel>,
    Seq<char>,
>
    decreases specs.len(),
{
    if specs.len() == 0 {
        Ok(g)
    } else {
        match with_specs(g, specs.drop_last()) {
            Err(id) => Err(id),
            Ok(h) => match with_spec(h, specs.last().0, specs.last().1) {
                Some(k) => Ok(k),
                None => Err(specs.last().0),
            },
        }
    }
}

/// The packaging node after the command line has been laid over it: an archive makes
/// it run, whatever it does, and a built-in packaging step takes the archive and the
/// excludes file.
pub open spec fn packaged(node: NodeModel, opts: OptionsModel) -> NodeModel {
    NodeModel {
        kind: match node.kind {
            KindModel::Native(StepModel::Package { output, exclude_from }) => KindModel::Native(
                StepModel::Package {
                    output: chosen(opts.artifact, output),
                    exclude_from: either(opts.exclude_from, exclude_from),
                },
            ),
            other => other,
        },
        when: if opts.artifact is Some {
            When::Always
        } else {
            node.when
        },
        ..node
    }
}

/// A static deploy with the content version of the command line; any other node
/// as it is.
pub open spec fn versioned(node: NodeModel, opts: OptionsModel) -> NodeModel {
    match node.kind {
        KindModel::Native(
            StepModel::StaticDeploy {
                themes,
                locales,
                areas,
                no_parent,
                no_less,
                no_js_bundle,
                no_html_minify,
                symlink,
                deployed_version,
                command,
            },
        ) => NodeModel {
            kind: KindModel::Native(
                StepModel::StaticDeploy {
                    themes,
                    locales,
                    areas,
                    no_parent,
                    no_less,
                    no_js_bundle,
                    no_html_minify,
                    symlink,
                    deployed_version: either(opts.deployed_version, deployed_version),
                    command,
                },
            ),
            ..node
        },
        _ => node,
    }
}

/// The graph after the command line has been applied.
pub open spec fn with_options(g: Seq<NodeModel>, opts: OptionsModel) -> Seq<NodeModel> {
    let h = replaced(g, "package"@, packaged(found(g, "package"@), opts));
    replaced(h, "static-deploy"@, versioned(found(h, "static-deploy"@), opts))
}

/// The graph that all settings together give, or why they are refused.
pub open spec fn resolved_graph(
    specs: Seq<(Seq<char>, SpecModel)>,
    opts: OptionsModel,
    dirs: Seq<Seq<char>>,
) -> Result<Seq<NodeModel>, ConfigErrorModel> {
    match with_specs(base_graph(opts.preset, dirs), specs) {
        Err(id) => Err(ConfigErrorModel::NewNodeNeedsRun(id)),
        Ok(g) => match graph_error(with_options(g, opts)) {
            Some(e) => Err(ConfigErrorModel::Invalid(e)),
            None => Ok(with_options(g, opts)),
        },
    }
}

/// How many nodes may run at once: what the command line says, else the settings
/// file, else the default; at least one.
pub open spec fn effective_jobs(cli: Option<usize>, file: Option<usize>, default_jobs: usize) -> usize {
    let jobs = chosen(either(cli, file), default_jobs);
    if jobs == 0 {
        1
    } else {
        jobs
    }
}

/// Lays the command line over the graph.
pub fn apply_options(graph: &mut Graph, opts: &BuildOptions)
    ensures
        final(graph)@ == with_options(old(graph)@, opts@),
{
    if let Some(node) = graph.get_mut("package") {
        let ghost before = node@;
        if let NodeKind::Native(BuiltinStep::Package { output, exclude_from }) = &mut node.kind {
            set_text(output, &opts.artifact);
            set_option(exclude_from, &opts.exclude_from);
        }
        if opts.artifact.is_some() {
            node.when = When::Always;
        }
        assert(node@ =~= packaged(before, opts@));
    }
    if let Some(node) = graph.get_mut("static-deploy") {
        let ghost before = node@;
        if let NodeKind::Native(BuiltinStep::StaticDeploy { deployed_version, .. }) = &mut node.kind {
            set_option(deployed_version, &opts.deployed_version);
        }
        assert(node@ =~= versioned(before, opts@));
    }
}

/// The graph that the defaults, the preset, the settings file and the command
/// line give together, and how many nodes may run at once. `tailwind_dirs` are
/// the directories that a preset builds, `default_jobs` the number of jobs where
/// nothing else is said.
pub fn resolve(
    file: &FileConfig,
    opts: &BuildOptions,
    tailwind_dirs: &Vec<String>,
    default_jobs: usize,
) -> (r: Result<(Graph, usize), ConfigError>)
    ensures
        match r {
            Ok((graph, jobs)) => {
                &&& resolved_graph(file.nodes@, opts@, texts(tailwind_dirs@)) == Ok::<
                    Seq<NodeModel>,
                    ConfigErrorModel,
                >(graph@)
                &&& jobs == effective_jobs(opts.jobs, file.build.jobs, default_jobs)
                &&& jobs >= 1
                &&& graph_error(graph@) is None
            },
            Err(e) => resolved_graph(file.nodes@, opts@, texts(tailwind_dirs@)) == Err::<
                Seq<NodeModel>,
                ConfigErrorModel,
            >(e@),
        },
{
    let mut graph = default_graph();
    if let Some(preset) = opts.preset {
        apply_preset(&mut graph, preset, tailwind_dirs);
    }
    let ghost base = graph@;
    let ghost specs = file.nodes@;
    let n = file.nodes.len();
    for i in 0..n
        invariant
            n == specs.len(),
            specs == file.nodes@,
            base == base_graph(opts@.preset, texts(tailwind_dirs@)),
            with_specs(base, specs.take(i as int)) == Ok::<Seq<NodeModel>, Seq<char>>(graph@),
    {
        proof {
            assert(specs.take(i + 1).drop_last() =~= specs.take(i as int));
            assert(specs.take(i + 1).last() == specs[i as int]);
        }
        match apply_spec(&mut graph, file.nodes.key(i), file.nodes.value(i)) {
            Ok(()) => {},
            Err(e) => {
                proof {
                    lemma_refused_early(base, specs, i + 1);
                }
                return Err(e);
            },
        }
    }
    assert(specs.take(n as int) =~= specs);
    apply_options(&mut graph, opts);
    match graph.validate() {
        Ok(()) => {},
        Err(e) => {
            return Err(ConfigError::Invalid(e));
        },
    }
    let jobs = match opts.jobs {
        Some(j) => j,
        None => match file.build.jobs {
            Some(j) => j,
            None => default_jobs,
        },
    };
    if jobs == 0 {
        Ok((graph, 1))
    } else {
        Ok((graph, jobs))
    }
}

/// A refused spec settles the result, whatever comes behind it.
proof fn lemma_refused_early(g: Seq<NodeModel>, specs: Seq<(Seq<char>, SpecModel)>, n: int)
    requires
        0 <= n <= specs.len(),
        with_specs(g, specs.take(n)) is Err,
    ensures
        with_specs(g, specs) == with_specs(g, specs.take(n)),
    decreases specs.len(),
{
    if n == specs.len() {
        assert(specs.take(n) =~= specs);
    } else {
        assert(specs.drop_last().take(n) =~= specs.take(n));
        lemma_refused_early(g, specs.drop_last(), n);
    }
}

/// The number of jobs where nothing else is said.
pub open spec fn jobs_by_default(available: Option<usize>) -> usize {
    match available {
        Some(n) => if n == 0 {
            1
        } else {
            n
        },
        None => 4,
    }
}

/// The number of jobs where nothing else is said: one per available processor,
/// and four where that is unknown.
pub fn default_jobs(available: Option<usize>) -> (r: usize)
    ensures
        r >= 1,
        r == match available {
            Some(0) => 1,
            Some(n) => n,
            None => 4,
        },
        r == jobs_by_default(available),
{
    let n: usize = match available {
        Some(n) => n,
        None => 4,
    };
    if n == 0 {
        1
    } else {
        n
    }
}

} // verus!
