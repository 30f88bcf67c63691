//! From a resolved graph and the command line to what a session does.
use vstd::prelude::*;
use vstd::string::StringExecFns;

use crate::graph::{
    error_message, node_models, BuiltinStep, ErrorModel, Graph, GraphError, NodeKind, NodeModel,
    When,
};
use crate::laws::{law_known_everywhere, law_restrict_keeps_valid, law_skip_keeps_order};
use crate::order::{graph_error, law_valid_iff};
use crate::reach::{known_from, marked, restricted, unknown_at};
use crate::text::{clone_texts, option_text, texts};

verus! {

/// The nodes that a session is restricted to: the one that a subcommand names,
/// else the ones that `--only` lists, if it lists any.
pub open spec fn restriction(node: Option<Seq<char>>, only: Seq<Seq<char>>) -> Option<Seq<Seq<char>>> {
    match node {
        Some(id) => Some(seq![id]),
        None => if only.len() > 0 {
            Some(only)
        } else {
            None
        },
    }
}

/// The view of an optional list of strings.
pub open spec fn option_list(v: Option<Vec<String>>) -> Option<Seq<Seq<char>>> {
    match v {
        Some(v) => Some(texts(v@)),
        None => None,
    }
}

/// The nodes that a session is restricted to.
pub fn select_targets(node: &Option<String>, only: &Vec<String>) -> (r: Option<Vec<String>>)
    ensures
        option_list(r) == restriction(option_text(*node), texts(only@)),
{
    match node {
        Some(id) => {
            let mut r: Vec<String> = Vec::new();
            r.push(id.clone());
            assert(texts(r@) =~= seq![id@]);
            Some(r)
        },
        None => if only.len() > 0 {
            Some(clone_texts(only))
        } else {
            None
        },
    }
}

/// Why a session is refused.
#[derive(Debug, Clone, PartialEq, Eq)]
pub enum SessionError {
    /// A node that the session is to be restricted to is not known.
    Target(GraphError),
    /// A node that is to be skipped is not known.
    Skip(GraphError),
    /// What is left of the graph is not valid.
    Invalid(GraphError),
}

/// The view of a [`SessionError`].
#[verifier::ext_equal]
pub enum SessionErrorModel {
    Target(ErrorModel),
    Skip(ErrorModel),
    Invalid(ErrorModel),
}

impl View for SessionError {
    type V = SessionErrorModel;

    open spec fn view(&self) -> SessionErrorModel {
        match *self {
            SessionError::Target(e) => SessionErrorModel::Target(e@),
            SessionError::Skip(e) => SessionErrorModel::Skip(e@),
            SessionError::Invalid(e) => SessionErrorModel::Invalid(e@),
        }
    }
}

/// The sentence that reports a refused session.
pub open spec fn session_message(e: SessionErrorModel) -> Seq<char> {
    match e {
        SessionErrorModel::Target(e) => "resolving --only / node target: "@ + error_message(e),
        SessionErrorModel::Skip(e) => "applying --skip: "@ + error_message(e),
        SessionErrorModel::Invalid(e) => "invalid build graph: "@ + error_message(e),
    }
}

impl SessionError {
    /// The sentence that reports this error.
    pub fn message(&self) -> (r: String)
        ensures
            r@ == session_message(self@),
    {
        match self {
            SessionError::Target(e) => {
                let mut out = "resolving --only / node target: ".to_owned();
                out.append(e.message().as_str());
                out
            },
            SessionError::Skip(e) => {
                let mut out = "applying --skip: ".to_owned();
                out.append(e.message().as_str());
                out
            },
            SessionError::Invalid(e) => {
                let mut out = "invalid build graph: ".to_owned();
                out.append(e.message().as_str());
                out
            },
        }
    }
}

/// The graph with the skipped nodes marked, where all of them are known and the
/// graph is valid.
pub open spec fn skipping(g: Seq<NodeModel>, skip: Seq<Seq<char>>) -> Result<Seq<NodeModel>, SessionErrorModel> {
    let k = unknown_at(g, skip);
    if k < skip.len() {
        Err(SessionErrorModel::Skip(ErrorModel::UnknownNode(skip[k])))
    } else {
        match graph_error(marked(g, skip)) {
            Some(e) => Err(SessionErrorModel::Invalid(e)),
            None => Ok(marked(g, skip)),
        }
    }
}

/// The graph that a session runs: restricted to the targets and what they wait
/// for, where there are targets, and with the skipped nodes marked.
pub open spec fn session_graph(
    g: Seq<NodeModel>,
    targets: Option<Seq<Seq<char>>>,
    skip: Seq<Seq<char>>,
) -> Result<Seq<NodeModel>, SessionErrorModel> {
    match targets {
        Some(names) => {
            let k = unknown_at(g, names);
            if k < names.len() {
                Err(SessionErrorModel::Target(ErrorModel::UnknownNode(names[k])))
            } else {
                skipping(restricted(g, names), skip)
            }
        },
        None => skipping(g, skip),
    }
}

/// Restricts the graph to the targets, marks what is skipped, and checks what is
/// left.
pub fn prepare(graph: Graph, targets: &Option<Vec<String>>, skip: &Vec<String>) -> (r: Result<Graph, SessionError>)
    requires
        option_list(*targets) matches Some(names) ==> unknown_at(graph@, names) == names.len() ==> known_from(
            graph@,
            names,
        ),
    ensures
        match r {
            Ok(g) => session_graph(graph@, option_list(*targets), texts(skip@)) == Ok::<
                Seq<NodeModel>,
                SessionErrorModel,
            >(g@),
            Err(e) => session_graph(graph@, option_list(*targets), texts(skip@)) == Err::<
                Seq<NodeModel>,
                SessionErrorModel,
            >(e@),
        },
{
    let mut graph = graph;
    if let Some(names) = targets {
        match graph.restrict_to(names.as_slice()) {
            Ok(()) => {},
            Err(e) => {
                return Err(SessionError::Target(e));
            },
        }
    }
    let ghost g = graph@;
    let ghost ids = texts(skip@);
    match graph.skip(skip.as_slice()) {
        Ok(()) => {},
        Err(e) => {
            return Err(SessionError::Skip(e));
        },
    }
    assert(ids.take(ids.len() as int) =~= ids);
    match graph.validate() {
        Ok(()) => Ok(graph),
        Err(e) => Err(SessionError::Invalid(e)),
    }
}

/// A valid graph stays valid: a session is refused only for ids that are not
/// known, and restricting a valid graph never runs into unknown nodes.
pub proof fn law_sessions_stay_valid(g: Seq<NodeModel>, targets: Option<Seq<Seq<char>>>, skip: Seq<Seq<char>>)
    requires
        graph_error(g) is None,
    ensures
        targets matches Some(names) ==> known_from(g, names),
        match session_graph(g, targets, skip) {
            Ok(h) => graph_error(h) is None,
            Err(e) => !(e is Invalid),
        },
{
    law_valid_iff(g);
    match targets {
        Some(names) => {
            law_known_everywhere(g, names);
            law_restrict_keeps_valid(g, names);
            law_skip_keeps_order(restricted(g, names), skip);
        },
        None => {
            law_skip_keeps_order(g, skip);
        },
    }
}

/// Whether a run of the graph installs the packages.
pub open spec fn installs(g: Seq<NodeModel>) -> bool {
    exists|i: int|
        0 <= i < g.len() && (#[trigger] g[i]).when != When::Never && g[i].kind is Native && g[i].kind->Native_0
            is ComposerInstall
}

/// Whether a run of `graph` installs the packages: some installing step is not
/// skipped.
pub fn installs_vendor(graph: &Graph) -> (r: bool)
    ensures
        r == installs(graph@),
{
    let nodes = graph.nodes();
    let ghost g = graph@;
    for i in 0..nodes.len()
        invariant
            g == graph@,
            g == node_models(nodes@),
            forall|k: int|
                0 <= k < i ==> !((#[trigger] g[k]).when != When::Never && g[k].kind is Native && g[k].kind->Native_0
                    is ComposerInstall),
    {
        assert(g[i as int] == nodes@[i as int]@);
        if !nodes[i].is_skipped() {
            if let NodeKind::Native(BuiltinStep::ComposerInstall { .. }) = &nodes[i].kind {
                return true;
            }
        }
    }
    false
}

} // verus!
