use std::collections::BTreeSet;

use magebuild::graph::{BuiltinStep, Cost, Graph, GraphError, Node, NodeKind, When};
use magebuild::textmap::TextMap;

fn step() -> BuiltinStep {
    BuiltinStep::DiCompile { fused: false }
}

fn g(edges: &[(&str, &[&str])]) -> Graph {
    Graph::new(edges.iter().map(|(id, after)| Node::native(id, after, step())).collect())
}

fn ids(graph: &Graph) -> Vec<&str> {
    graph.nodes().iter().map(|n| n.id.as_str()).collect()
}

#[test]
fn topo_is_stable_and_respects_edges() {
    let graph = g(&[("a", &[]), ("b", &["a"]), ("c", &["a"]), ("d", &["b", "c"])]);
    let order = graph.topo().unwrap();
    let pos = |x: &str| order.iter().position(|y| y == x).unwrap();
    assert!(pos("a") < pos("b"));
    assert!(pos("a") < pos("c"));
    assert!(pos("d") > pos("b") && pos("d") > pos("c"));
    // Declaration order breaks ties: b before c.
    assert!(pos("b") < pos("c"));
}

#[test]
fn detects_cycle() {
    let graph = g(&[("a", &["c"]), ("b", &["a"]), ("c", &["b"])]);
    match graph.validate() {
        Err(GraphError::Cycle(ids)) => {
            assert_eq!(ids.len(), 3);
        }
        other => panic!("expected cycle, got {other:?}"),
    }
}

#[test]
fn detects_dangling_dep() {
    let graph = g(&[("a", &["missing"])]);
    assert_eq!(
        graph.validate(),
        Err(GraphError::UnknownDep { node: "a".into(), dep: "missing".into() })
    );
}

#[test]
fn detects_duplicate_id() {
    let graph = g(&[("a", &[]), ("a", &[])]);
    assert_eq!(graph.validate(), Err(GraphError::DuplicateId("a".into())));
}

#[test]
fn waves_group_parallel_work() {
    let graph = g(&[
        ("composer", &[]),
        ("di", &["composer"]),
        ("dump", &["di"]),
        ("scd", &["composer"]),
        ("package", &["dump", "scd"]),
    ]);
    let waves = graph.waves().unwrap();
    assert_eq!(waves[0], vec!["composer"]);
    // di and scd overlap.
    assert_eq!(waves[1], vec!["di", "scd"]);
    assert_eq!(waves[2], vec!["dump"]);
    assert_eq!(waves[3], vec!["package"]);
}

#[test]
fn restrict_to_keeps_deps() {
    let mut graph = g(&[
        ("composer", &[]),
        ("di", &["composer"]),
        ("dump", &["di"]),
        ("scd", &["composer"]),
    ]);
    graph.restrict_to(&["dump".into()]).unwrap();
    let ids: BTreeSet<&str> = graph.nodes().iter().map(|n| n.id.as_str()).collect();
    assert_eq!(ids, BTreeSet::from(["composer", "di", "dump"]));
}

#[test]
fn skip_marks_never() {
    let mut graph = g(&[("a", &[]), ("b", &["a"])]);
    graph.skip(&["a".into()]).unwrap();
    assert!(graph.get("a").unwrap().is_skipped());
    assert!(graph.skip(&["nope".into()]).is_err());
}

#[test]
fn ready_nodes_are_drained_in_declaration_order() {
    let graph = g(&[("x", &[]), ("y", &[]), ("c", &["y"]), ("d", &["x"])]);
    assert_eq!(graph.topo().unwrap(), vec!["x", "y", "c", "d"]);
    // Once a is out, b is ready and was declared before c.
    let graph = g(&[("a", &[]), ("b", &["a"]), ("c", &[])]);
    assert_eq!(graph.topo().unwrap(), vec!["a", "b", "c"]);
    // What is released late still comes before what was declared behind it.
    let graph = g(&[("p", &["r"]), ("q", &[]), ("r", &[]), ("s", &[])]);
    assert_eq!(graph.topo().unwrap(), vec!["q", "r", "p", "s"]);
}

#[test]
fn topo_of_nothing_is_empty() {
    let graph = Graph::default();
    assert!(graph.topo().unwrap().is_empty());
    assert_eq!(graph.validate(), Ok(()));
    assert_eq!(graph.waves().unwrap(), vec![Vec::<String>::new()]);
}

#[test]
fn cycle_names_what_cannot_be_placed() {
    let graph = g(&[("z", &[]), ("b", &["a", "z"]), ("a", &["b"]), ("c", &["a"])]);
    let expected = GraphError::Cycle(vec!["b".into(), "a".into(), "c".into()]);
    assert_eq!(graph.topo(), Err(expected.clone()));
    assert_eq!(graph.validate(), Err(expected.clone()));
    assert_eq!(graph.waves(), Err(expected));
}

#[test]
fn self_dependency_is_a_cycle() {
    let graph = g(&[("a", &["a"])]);
    assert_eq!(graph.validate(), Err(GraphError::Cycle(vec!["a".into()])));
}

#[test]
fn duplicates_come_before_unknown_edges() {
    let graph = g(&[("a", &["nope"]), ("a", &[])]);
    assert_eq!(graph.validate(), Err(GraphError::DuplicateId("a".into())));
}

#[test]
fn a_repeated_edge_counts_once() {
    let graph = g(&[("a", &[]), ("b", &["a", "a"])]);
    assert_eq!(graph.topo().unwrap(), vec!["a", "b"]);
    assert_eq!(graph.waves().unwrap(), vec![vec!["a"], vec!["b"]]);
}

#[test]
fn a_wave_is_sorted_by_id() {
    let graph = g(&[("b", &[]), ("a", &[]), ("A", &[]), ("é", &[])]);
    assert_eq!(graph.waves().unwrap(), vec![vec!["A", "a", "b", "é"]]);
}

#[test]
fn messages_name_the_ids() {
    assert_eq!(GraphError::DuplicateId("a".into()).message(), "duplicate node id: a");
    assert_eq!(
        GraphError::UnknownDep { node: "a".into(), dep: "b".into() }.message(),
        "node `a` depends on unknown node `b`"
    );
    assert_eq!(
        GraphError::Cycle(vec!["a".into(), "b".into()]).message(),
        "dependency cycle among: a, b"
    );
    assert_eq!(GraphError::UnknownNode("a".into()).message(), "unknown node id: a");
}

#[test]
fn ancestors_are_sorted_and_complete() {
    let graph = g(&[("z", &[]), ("m", &["z"]), ("b", &["m", "z"]), ("c", &[])]);
    assert_eq!(graph.ancestors_of(&["b".into()]).unwrap(), vec!["b", "m", "z"]);
    assert_eq!(graph.ancestors_of(&["c".into(), "z".into()]).unwrap(), vec!["c", "z"]);
    assert!(graph.ancestors_of(&[]).unwrap().is_empty());
    assert_eq!(
        graph.ancestors_of(&["c".into(), "nope".into(), "no".into()]),
        Err(GraphError::UnknownNode("nope".into()))
    );
}

#[test]
fn restrict_to_keeps_declaration_order() {
    let mut graph = g(&[("d", &["c"]), ("c", &["b"]), ("b", &[]), ("a", &["b"])]);
    graph.restrict_to(&["d".into()]).unwrap();
    assert_eq!(ids(&graph), vec!["d", "c", "b"]);
    assert_eq!(graph.validate(), Ok(()));
    assert_eq!(
        graph.restrict_to(&["a".into()]),
        Err(GraphError::UnknownNode("a".into()))
    );
    assert_eq!(ids(&graph), vec!["d", "c", "b"]);
}

#[test]
fn skip_marks_up_to_the_unknown_id() {
    let mut graph = g(&[("a", &[]), ("b", &["a"]), ("c", &["b"])]);
    assert_eq!(
        graph.skip(&["b".into(), "nope".into(), "c".into()]),
        Err(GraphError::UnknownNode("nope".into()))
    );
    assert!(!graph.get("a").unwrap().is_skipped());
    assert!(graph.get("b").unwrap().is_skipped());
    assert!(!graph.get("c").unwrap().is_skipped());
}

#[test]
fn skipping_keeps_order_and_waves() {
    let mut graph = g(&[("a", &[]), ("b", &["a"]), ("c", &["a"])]);
    let order = graph.topo();
    let waves = graph.waves();
    graph.skip(&["a".into(), "c".into()]).unwrap();
    assert_eq!(graph.topo(), order);
    assert_eq!(graph.waves(), waves);
}

#[test]
fn get_finds_the_first_and_mut_changes_it() {
    let mut graph = g(&[("a", &[]), ("a", &["x"])]);
    assert!(graph.get("a").unwrap().after.is_empty());
    graph.get_mut("a").unwrap().when = When::Never;
    assert!(graph.nodes()[0].is_skipped());
    assert!(!graph.nodes()[1].is_skipped());
    assert!(graph.get_mut("b").is_none());
    graph.push(Node::native("b", &["a"], step()));
    assert_eq!(graph.get("b").unwrap().after, vec!["a"]);
}

#[test]
fn descriptions_show_the_options_that_are_set() {
    let label = |s: BuiltinStep| NodeKind::Native(s).describe();
    assert_eq!(
        label(BuiltinStep::ComposerInstall { no_dev: true, cache_root: None, hardlink: true }),
        "native: composer-install --no-dev hardlink"
    );
    assert_eq!(
        label(BuiltinStep::ComposerInstall { no_dev: false, cache_root: None, hardlink: false }),
        "native: composer-install"
    );
    assert_eq!(label(BuiltinStep::DiCompile { fused: true }), "native: di-compile --fused");
    assert_eq!(
        label(BuiltinStep::AutoloadDump { no_dev: true, optimize: true }),
        "native: autoload-dump -o --no-dev"
    );
    assert_eq!(
        label(BuiltinStep::Package { output: "a.tar".into(), exclude_from: None }),
        "native: package -> a.tar"
    );
    assert_eq!(
        label(BuiltinStep::StaticDeploy {
            themes: vec!["*".into()],
            locales: vec!["en_US".into(), "nl_NL".into()],
            areas: vec!["frontend".into(), "adminhtml".into()],
            no_parent: true,
            no_less: true,
            no_js_bundle: true,
            no_html_minify: true,
            symlink: true,
            deployed_version: Some("7".into()),
            command: None,
        }),
        "native: static-deploy themes=* locales=en_US,nl_NL areas=frontend,adminhtml --no-parent --no-less \
         --no-js-bundle --no-html-minify --symlink=file version=7"
    );
    let kind = NodeKind::Command { run: "npm run build".into(), cwd: None, env: TextMap::new() };
    assert_eq!(kind.describe(), "command: npm run build");
}

#[test]
fn only_the_di_compile_is_cpu_bound() {
    assert_eq!(step().cost(), Cost::CpuBound);
    assert_eq!(NodeKind::Native(step()).cost(), Cost::CpuBound);
    assert_eq!(BuiltinStep::AutoloadDump { no_dev: true, optimize: true }.cost(), Cost::IoBound);
    let kind = NodeKind::Command { run: "true".into(), cwd: None, env: TextMap::new() };
    assert_eq!(kind.cost(), Cost::IoBound);
}

#[test]
fn skipping_twice_is_skipping_once() {
    let mut once = g(&[("a", &[]), ("b", &["a"])]);
    once.skip(&["b".into()]).unwrap();
    let mut twice = once.clone();
    twice.skip(&["b".into(), "b".into()]).unwrap();
    assert_eq!(once.nodes(), twice.nodes());
}

#[test]
fn a_restricted_graph_is_valid() {
    let mut graph = g(&[("a", &[]), ("b", &["a"]), ("c", &["b", "a"]), ("d", &["c"]), ("e", &[])]);
    graph.restrict_to(&["c".into(), "e".into()]).unwrap();
    assert_eq!(ids(&graph), vec!["a", "b", "c", "e"]);
    assert_eq!(graph.validate(), Ok(()));
}
