//! The build graph: its nodes, what each of them does, and the edges by which
//! one waits for another.
//!
//! The graph knows ids, edges and kinds, and never executes anything. Paths are
//! text whose parts are separated by `/`.
use vstd::prelude::*;
use vstd::string::StringExecFns;

use crate::text::{contains_text, join_texts, joined, option_text, same_text, texts};
use crate::textmap::TextMap;

verus! {

/// Where a node runs: CPU-bound work shares one worker pool, everything else
/// gets a thread of its own so that waiting never pins a worker.
#[derive(Debug, Clone, Copy, PartialEq, Eq, Structural)]
pub enum Cost {
    CpuBound,
    IoBound,
}

/// A built-in step.
#[derive(Debug, Clone, PartialEq, Eq)]
pub enum BuiltinStep {
    /// `composer install` from `composer.lock`.
    ComposerInstall {
        no_dev: bool,
        /// Directory of cached archives; `None` stands for the user's cache.
        cache_root: Option<String>,
        /// Hard-link packages out of a store instead of extracting each one.
        hardlink: bool,
    },
    /// `setup:di:compile`.
    DiCompile { fused: bool },
    /// `setup:static-content:deploy` over themes, locales and areas.
    StaticDeploy {
        themes: Vec<String>,
        locales: Vec<String>,
        areas: Vec<String>,
        /// Do not deploy the parents of a theme.
        no_parent: bool,
        /// Do not compile LESS.
        no_less: bool,
        /// Do not generate RequireJS bundles.
        no_js_bundle: bool,
        /// Do not minify HTML.
        no_html_minify: bool,
        /// Turn pure copies into relative links to their source.
        symlink: bool,
        /// Contents of `pub/static/deployed_version.txt`; `None` writes no file.
        deployed_version: Option<String>,
        /// A shell command to run in place of the deploy engine.
        command: Option<String>,
    },
    /// `composer dump-autoload`.
    AutoloadDump { no_dev: bool, optimize: bool },
    /// Packing the tree into an archive.
    Package {
        /// The archive; its extension chooses the compression.
        output: String,
        /// A file with one exclude pattern per line.
        exclude_from: Option<String>,
    },
}

/// The view of a [`BuiltinStep`].
#[verifier::ext_equal]
pub enum StepModel {
    ComposerInstall { no_dev: bool, cache_root: Option<Seq<char>>, hardlink: bool },
    DiCompile { fused: bool },
    StaticDeploy {
        themes: Seq<Seq<char>>,
        locales: Seq<Seq<char>>,
        areas: Seq<Seq<char>>,
        no_parent: bool,
        no_less: bool,
        no_js_bundle: bool,
        no_html_minify: bool,
        symlink: bool,
        deployed_version: Option<Seq<char>>,
        command: Option<Seq<char>>,
    },
    AutoloadDump { no_dev: bool, optimize: bool },
    Package { output: Seq<char>, exclude_from: Option<Seq<char>> },
}

impl View for BuiltinStep {
    type V = StepModel;

    open spec fn view(&self) -> StepModel {
        match *self {
            BuiltinStep::ComposerInstall { no_dev, cache_root, hardlink } => {
                StepModel::ComposerInstall { no_dev, cache_root: option_text(cache_root), hardlink }
            },
            BuiltinStep::DiCompile { fused } => StepModel::DiCompile { fused },
            BuiltinStep::StaticDeploy {
                themes,
                locales,
                areas,
                no_parent,
                no_less,
                no_js_bundle,
                no_html_minify,
                symlink,
                deployed_version,
                command,
            } => StepModel::StaticDeploy {
                themes: texts(themes@),
                locales: texts(locales@),
                areas: texts(areas@),
                no_parent,
                no_less,
                no_js_bundle,
                no_html_minify,
                symlink,
                deployed_version: option_text(deployed_version),
                command: option_text(command),
            },
            BuiltinStep::AutoloadDump { no_dev, optimize } => StepModel::AutoloadDump {
                no_dev,
                optimize,
            },
            BuiltinStep::Package { output, exclude_from } => StepModel::Package {
                output: output@,
                exclude_from: option_text(exclude_from),
            },
        }
    }
}

/// `s` where `on`, and nothing otherwise.
pub open spec fn flag(on: bool, s: Seq<char>) -> Seq<char> {
    if on {
        s
    } else {
        seq![]
    }
}

/// The flag text as a string slice.
fn flag_text(on: bool, s: &'static str) -> (r: &'static str)
    ensures
        r@ == flag(on, s@),
{
    if on {
        s
    } else {
        proof {
            reveal_strlit("");
            assert(""@ =~= seq![]);
        }
        ""
    }
}

/// The one-line description of a step.
pub open spec fn step_label(step: StepModel) -> Seq<char> {
    match step {
        StepModel::ComposerInstall { no_dev, cache_root, hardlink } => {
            "composer-install"@ + flag(no_dev, " --no-dev"@) + flag(hardlink, " hardlink"@)
        },
        StepModel::DiCompile { fused } => "di-compile"@ + flag(fused, " --fused"@),
        StepModel::StaticDeploy {
            themes,
            locales,
            areas,
            no_parent,
            no_less,
            no_js_bundle,
            no_html_minify,
            symlink,
            deployed_version,
            command,
        } => {
            "static-deploy themes="@ + joined(themes, ","@) + " locales="@ + joined(locales, ","@)
                + " areas="@ + joined(areas, ","@) + flag(no_parent, " --no-parent"@) + flag(
                no_less,
                " --no-less"@,
            ) + flag(no_js_bundle, " --no-js-bundle"@) + flag(no_html_minify, " --no-html-minify"@)
                + flag(symlink, " --symlink=file"@) + match deployed_version {
                Some(v) => " version="@ + v,
                None => seq![],
            }
        },
        StepModel::AutoloadDump { no_dev, optimize } => {
            "autoload-dump"@ + flag(optimize, " -o"@) + flag(no_dev, " --no-dev"@)
        },
        StepModel::Package { output, exclude_from } => "package -> "@ + output,
    }
}

/// Which kind of worker a step wants.
pub open spec fn step_cost(step: StepModel) -> Cost {
    match step {
        StepModel::DiCompile { .. } => Cost::CpuBound,
        _ => Cost::IoBound,
    }
}

impl BuiltinStep {
    /// Only the DI compile is CPU-bound: the deploy fans out over a pool of its
    /// own, and everything else waits for I/O.
    pub fn cost(&self) -> (r: Cost)
        ensures
            r == step_cost(self@),
    {
        match self {
            BuiltinStep::DiCompile { .. } => Cost::CpuBound,
            _ => Cost::IoBound,
        }
    }

    /// The step's name and the options that are set.
    pub fn label(&self) -> (r: String)
        ensures
            r@ == step_label(self@),
    {
        match self {
            BuiltinStep::ComposerInstall { no_dev, hardlink, .. } => {
                let mut out = "composer-install".to_owned();
                out.append(flag_text(*no_dev, " --no-dev"));
                out.append(flag_text(*hardlink, " hardlink"));
                out
            },
            BuiltinStep::DiCompile { fused } => {
                let mut out = "di-compile".to_owned();
                out.append(flag_text(*fused, " --fused"));
                out
            },
            BuiltinStep::StaticDeploy {
                themes,
                locales,
                areas,
                no_parent,
                no_less,
                no_js_bundle,
                no_html_minify,
                symlink,
                deployed_version,
                ..
            } => {
                let mut out = "static-deploy themes=".to_owned();
                out.append(join_texts(themes, ",").as_str());
                out.append(" locales=");
                out.append(join_texts(locales, ",").as_str());
                out.append(" areas=");
                out.append(join_texts(areas, ",").as_str());
                out.append(flag_text(*no_parent, " --no-parent"));
                out.append(flag_text(*no_less, " --no-less"));
                out.append(flag_text(*no_js_bundle, " --no-js-bundle"));
                out.append(flag_text(*no_html_minify, " --no-html-minify"));
                out.append(flag_text(*symlink, " --symlink=file"));
                let ghost head = out@;
                if let Some(v) = deployed_version {
                    out.append(" version=");
                    out.append(v.as_str());
                    assert(out@ =~= head + (" version="@ + v@));
                } else {
                    assert(out@ =~= head + Seq::<char>::empty());
                }
                out
            },
            BuiltinStep::AutoloadDump { no_dev, optimize } => {
                let mut out = "autoload-dump".to_owned();
                out.append(flag_text(*optimize, " -o"));
                out.append(flag_text(*no_dev, " --no-dev"));
                out
            },
            BuiltinStep::Package { output, .. } => {
                let mut out = "package -> ".to_owned();
                out.append(output.as_str());
                out
            },
        }
    }
}

/// What a node does.
#[derive(Debug, Clone, PartialEq, Eq)]
pub enum NodeKind {
    /// A built-in step.
    Native(BuiltinStep),
    /// A shell command.
    Command { run: String, cwd: Option<String>, env: TextMap<String> },
}

/// The view of a [`NodeKind`].
#[verifier::ext_equal]
pub enum KindModel {
    Native(StepModel),
    Command { run: Seq<char>, cwd: Option<Seq<char>>, env: Seq<(Seq<char>, Seq<char>)> },
}

impl View for NodeKind {
    type V = KindModel;

    open spec fn view(&self) -> KindModel {
        match *self {
            NodeKind::Native(step) => KindModel::Native(step@),
            NodeKind::Command { run, cwd, env } => KindModel::Command {
                run: run@,
                cwd: option_text(cwd),
                env: env@,
            },
        }
    }
}

/// Which kind of worker a node wants.
pub open spec fn kind_cost(kind: KindModel) -> Cost {
    match kind {
        KindModel::Native(step) => step_cost(step),
        KindModel::Command { .. } => Cost::IoBound,
    }
}

/// The one-line description of what a node does.
pub open spec fn description(kind: KindModel) -> Seq<char> {
    match kind {
        KindModel::Native(step) => "native: "@ + step_label(step),
        KindModel::Command { run, .. } => "command: "@ + run,
    }
}

impl NodeKind {
    /// A step's own cost; a command waits for its process.
    pub fn cost(&self) -> (r: Cost)
        ensures
            r == kind_cost(self@),
    {
        match self {
            NodeKind::Native(step) => step.cost(),
            NodeKind::Command { .. } => Cost::IoBound,
        }
    }

    /// A one-line human description, used by plans and progress.
    pub fn describe(&self) -> (r: String)
        ensures
            r@ == description(self@),
    {
        match self {
            NodeKind::Native(step) => {
                let mut out = "native: ".to_owned();
                out.append(step.label().as_str());
                out
            },
            NodeKind::Command { run, .. } => {
                let mut out = "command: ".to_owned();
                out.append(run.as_str());
                out
            },
        }
    }
}

/// Whether a node runs. A node that never runs still satisfies those that wait
/// for it.
#[derive(Debug, Clone, Copy, PartialEq, Eq, Structural)]
pub enum When {
    Always,
    Never,
}

/// A node of the graph.
#[derive(Debug, Clone, PartialEq, Eq)]
pub struct Node {
    pub id: String,
    pub after: Vec<String>,
    pub kind: NodeKind,
    pub when: When,
}

/// The view of a [`Node`].
#[verifier::ext_equal]
pub struct NodeModel {
    pub id: Seq<char>,
    pub after: Seq<Seq<char>>,
    pub kind: KindModel,
    pub when: When,
}

impl View for Node {
    type V = NodeModel;

    open spec fn view(&self) -> NodeModel {
        NodeModel { id: self.id@, after: texts(self.after@), kind: self.kind@, when: self.when }
    }
}

impl Node {
    /// An active node for a built-in step.
    pub fn native(id: &str, after: &[&str], step: BuiltinStep) -> (r: Node)
        ensures
            r@ == (NodeModel {
                id: id@,
                after: after@.map_values(|s: &str| s@),
                kind: KindModel::Native(step@),
                when: When::Always,
            }),
    {
        let mut list: Vec<String> = Vec::new();
        for i in 0..after.len()
            invariant
                list@.len() == i,
                forall|j: int| 0 <= j < i ==> (#[trigger] list@[j])@ == after@[j]@,
        {
            list.push(after[i].to_owned());
        }
        proof {
            assert(texts(list@) =~= after@.map_values(|s: &str| s@));
        }
        Node { id: id.to_owned(), after: list, kind: NodeKind::Native(step), when: When::Always }
    }

    /// Whether the node is declared but does not run.
    pub fn is_skipped(&self) -> (r: bool)
        ensures
            r == (self@.when == When::Never),
    {
        self.when == When::Never
    }
}

/// Why a graph or a request on it is refused.
#[derive(Debug, Clone, PartialEq, Eq)]
pub enum GraphError {
    DuplicateId(String),
    UnknownDep { node: String, dep: String },
    /// A dependency cycle; the ids that no order can place, in declaration order.
    Cycle(Vec<String>),
    UnknownNode(String),
}

/// The view of a [`GraphError`].
#[verifier::ext_equal]
pub enum ErrorModel {
    DuplicateId(Seq<char>),
    UnknownDep { node: Seq<char>, dep: Seq<char> },
    Cycle(Seq<Seq<char>>),
    UnknownNode(Seq<char>),
}

impl View for GraphError {
    type V = ErrorModel;

    open spec fn view(&self) -> ErrorModel {
        match *self {
            GraphError::DuplicateId(id) => ErrorModel::DuplicateId(id@),
            GraphError::UnknownDep { node, dep } => ErrorModel::UnknownDep { node: node@, dep: dep@ },
            GraphError::Cycle(ids) => ErrorModel::Cycle(texts(ids@)),
            GraphError::UnknownNode(id) => ErrorModel::UnknownNode(id@),
        }
    }
}

/// The sentence that reports an error.
pub open spec fn error_message(e: ErrorModel) -> Seq<char> {
    match e {
        ErrorModel::DuplicateId(id) => "duplicate node id: "@ + id,
        ErrorModel::UnknownDep { node, dep } => {
            "node `"@ + node + "` depends on unknown node `"@ + dep + "`"@
        },
        ErrorModel::Cycle(ids) => "dependency cycle among: "@ + joined(ids, ", "@),
        ErrorModel::UnknownNode(id) => "unknown node id: "@ + id,
    }
}

impl GraphError {
    /// The sentence that reports this error.
    pub fn message(&self) -> (r: String)
        ensures
            r@ == error_message(self@),
    {
        match self {
            GraphError::DuplicateId(id) => {
                let mut out = "duplicate node id: ".to_owned();
                out.append(id.as_str());
                out
            },
            GraphError::UnknownDep { node, dep } => {
                let mut out = "node `".to_owned();
                out.append(node.as_str());
                out.append("` depends on unknown node `");
                out.append(dep.as_str());
                out.append("`");
                out
            },
            GraphError::Cycle(ids) => {
                let mut out = "dependency cycle among: ".to_owned();
                out.append(join_texts(ids, ", ").as_str());
                out
            },
            GraphError::UnknownNode(id) => {
                let mut out = "unknown node id: ".to_owned();
                out.append(id.as_str());
                out
            },
        }
    }
}

/// The views of a list of nodes.
pub open spec fn node_models(s: Seq<Node>) -> Seq<NodeModel> {
    s.map_values(|n: Node| n@)
}

/// Whether a node of `g` has the id.
pub open spec fn declares(g: Seq<NodeModel>, id: Seq<char>) -> bool {
    exists|i: int| 0 <= i < g.len() && (#[trigger] g[i]).id == id
}

/// The place of the first node with the id, or -1.
pub open spec fn first_at(g: Seq<NodeModel>, id: Seq<char>) -> int
    decreases g.len(),
{
    if g.len() == 0 {
        -1
    } else {
        let k = first_at(g.drop_last(), id);
        if k >= 0 {
            k
        } else if g.last().id == id {
            g.len() - 1
        } else {
            -1
        }
    }
}

/// The place of the last node with the id, or -1: an edge leads there.
pub open spec fn last_at(g: Seq<NodeModel>, id: Seq<char>) -> int
    decreases g.len(),
{
    if g.len() == 0 {
        -1
    } else if g.last().id == id {
        g.len() - 1
    } else {
        last_at(g.drop_last(), id)
    }
}

/// What [`first_at`] finds.
pub proof fn lemma_first_at(g: Seq<NodeModel>, id: Seq<char>)
    ensures
        -1 <= first_at(g, id) < g.len(),
        first_at(g, id) >= 0 <==> declares(g, id),
        first_at(g, id) >= 0 ==> g[first_at(g, id)].id == id,
        forall|j: int| 0 <= j < first_at(g, id) ==> (#[trigger] g[j]).id != id,
    decreases g.len(),
{
    if g.len() > 0 {
        let t = g.drop_last();
        lemma_first_at(t, id);
        assert forall|j: int| 0 <= j < t.len() implies (#[trigger] g[j]) == t[j] by {}
        if declares(g, id) && g.last().id != id {
            let i = choose|i: int| 0 <= i < g.len() && (#[trigger] g[i]).id == id;
            assert(t[i].id == id);
        }
        if declares(t, id) {
            let i = choose|i: int| 0 <= i < t.len() && (#[trigger] t[i]).id == id;
            assert(g[i].id == id);
        }
    }
}

/// What [`last_at`] finds.
pub proof fn lemma_last_at(g: Seq<NodeModel>, id: Seq<char>)
    ensures
        -1 <= last_at(g, id) < g.len(),
        last_at(g, id) >= 0 <==> declares(g, id),
        last_at(g, id) >= 0 ==> g[last_at(g, id)].id == id,
        forall|j: int| last_at(g, id) < j < g.len() ==> (#[trigger] g[j]).id != id,
    decreases g.len(),
{
    if g.len() > 0 {
        let t = g.drop_last();
        lemma_last_at(t, id);
        assert forall|j: int| 0 <= j < t.len() implies (#[trigger] g[j]) == t[j] by {}
        if declares(g, id) && g.last().id != id {
            let i = choose|i: int| 0 <= i < g.len() && (#[trigger] g[i]).id == id;
            assert(t[i].id == id);
        }
        if declares(t, id) {
            let i = choose|i: int| 0 <= i < t.len() && (#[trigger] t[i]).id == id;
            assert(g[i].id == id);
        }
    }
}

/// The first index at which the id stands is the only candidate.
pub proof fn lemma_first_at_is(g: Seq<NodeModel>, id: Seq<char>, i: int)
    requires
        0 <= i < g.len(),
        g[i].id == id,
        forall|j: int| 0 <= j < i ==> (#[trigger] g[j]).id != id,
    ensures
        first_at(g, id) == i,
{
    lemma_first_at(g, id);
    assert(declares(g, id));
}

/// A build graph, validated on demand.
#[derive(Debug, Clone)]
pub struct Graph {
    nodes: Vec<Node>,
}

impl View for Graph {
    type V = Seq<NodeModel>;

    closed spec fn view(&self) -> Seq<NodeModel> {
        node_models(self.nodes@)
    }
}

impl Default for Graph {
    fn default() -> (r: Graph)
        ensures
            r@ == Seq::<NodeModel>::empty(),
    {
        let r = Graph { nodes: Vec::new() };
        assert(r@ =~= Seq::<NodeModel>::empty());
        r
    }
}

impl Graph {
    /// The graph with these nodes, in this order.
    pub fn new(nodes: Vec<Node>) -> (r: Graph)
        ensures
            r@ == node_models(nodes@),
    {
        Graph { nodes }
    }

    /// The nodes in declaration order.
    pub fn nodes(&self) -> (r: &[Node])
        ensures
            node_models(r@) == self@,
            r@.len() == self@.len(),
    {
        self.nodes.as_slice()
    }

    /// The place of the first node with the id.
    fn find(&self, id: &str) -> (r: Option<usize>)
        ensures
            match r {
                Some(i) => i == first_at(self@, id@) && i < self@.len(),
                None => first_at(self@, id@) == -1,
            },
    {
        for i in 0..self.nodes.len()
            invariant
                forall|j: int| 0 <= j < i ==> (#[trigger] self@[j]).id != id@,
                self@ == node_models(self.nodes@),
        {
            if same_text(self.nodes[i].id.as_str(), id) {
                proof {
                    lemma_first_at_is(self@, id@, i as int);
                }
                return Some(i);
            }
        }
        proof {
            lemma_first_at(self@, id@);
        }
        None
    }

    /// The place that an edge to the id leads to: the last node with it.
    pub(crate) fn target(&self, id: &str) -> (r: Option<usize>)
        ensures
            match r {
                Some(i) => i == last_at(self@, id@) && i < self@.len(),
                None => last_at(self@, id@) == -1,
            },
    {
        let mut i: usize = self.nodes.len();
        while i > 0
            invariant
                i <= self.nodes.len(),
                self@ == node_models(self.nodes@),
                forall|j: int| i <= j < self.nodes.len() ==> (#[trigger] self@[j]).id != id@,
            decreases i,
        {
            i -= 1;
            if same_text(self.nodes[i].id.as_str(), id) {
                proof {
                    lemma_last_at(self@, id@);
                    assert(self@[i as int].id == id@);
                    assert(declares(self@, id@));
                }
                return Some(i);
            }
        }
        proof {
            lemma_last_at(self@, id@);
        }
        None
    }

    /// The first node with the id.
    pub fn get(&self, id: &str) -> (r: Option<&Node>)
        ensures
            match r {
                Some(n) => declares(self@, id@) && n@ == self@[first_at(self@, id@)],
                None => !declares(self@, id@),
            },
    {
        proof {
            lemma_first_at(self@, id@);
        }
        match self.find(id) {
            Some(i) => Some(&self.nodes[i]),
            None => None,
        }
    }

    /// The first node with the id, to be changed in place.
    pub fn get_mut(&mut self, id: &str) -> (r: Option<&mut Node>)
        ensures
            match r {
                Some(n) => {
                    &&& declares(old(self)@, id@)
                    &&& n@ == old(self)@[first_at(old(self)@, id@)]
                    &&& final(self)@ == old(self)@.update(first_at(old(self)@, id@), final(n)@)
                },
                None => !declares(old(self)@, id@) && final(self)@ == old(self)@,
            },
    {
        proof {
            lemma_first_at(self@, id@);
        }
        match self.find(id) {
            Some(i) => {
                let r = &mut self.nodes[i];
                Some(r)
            },
            None => None,
        }
    }

    /// Adds a node at the end.
    pub fn push(&mut self, node: Node)
        ensures
            final(self)@ == old(self)@.push(node@),
    {
        self.nodes.push(node);
        assert(self@ =~= old(self)@.push(node@));
    }

    /// Drops every node whose id is not in `keep`.
    pub(crate) fn retain_ids(&mut self, keep: &Vec<String>)
        ensures
            final(self)@ == nodes_among(old(self)@, texts(keep@), old(self)@.len() as int),
    {
        let ghost g = self@;
        let mut rest: Vec<Node> = Vec::new();
        std::mem::swap(&mut rest, &mut self.nodes);
        let mut kept: Vec<Node> = Vec::new();
        let total = rest.len();
        for i in 0..total
            invariant
                rest@.len() == total - i,
                total == g.len(),
                node_models(rest@) == g.skip(i as int),
                node_models(kept@) == nodes_among(g, texts(keep@), i as int),
        {
            let ghost before = node_models(kept@);
            let ghost were = node_models(rest@);
            let node = rest.remove(0);
            proof {
                assert(node@ == were[0]);
                assert forall|k: int| 0 <= k < rest@.len() implies #[trigger] node_models(rest@)[k] == g.skip(i + 1)[k] by {
                    assert(node_models(rest@)[k] == were[k + 1]);
                }
                assert(node_models(rest@) =~= g.skip(i + 1));
            }
            if contains_text(keep, node.id.as_str()) {
                kept.push(node);
                assert(node_models(kept@) =~= before.push(g[i as int]));
            }
        }
        self.nodes = kept;
    }
}

/// The first `n` nodes of `g`, without those whose id is not in `ids`.
pub open spec fn nodes_among(g: Seq<NodeModel>, ids: Seq<Seq<char>>, n: int) -> Seq<NodeModel>
    decreases n,
{
    if n <= 0 {
        seq![]
    } else if ids.contains(g[n - 1].id) {
        nodes_among(g, ids, n - 1).push(g[n - 1])
    } else {
        nodes_among(g, ids, n - 1)
    }
}

} // verus!
