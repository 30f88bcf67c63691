use magebuild::config::default_graph;
use magebuild::graph::{BuiltinStep, Graph, Node};
use magebuild::render::{plan_json, plan_text, summary_json, summary_text, ProgressObserver};
use magebuild::scheduler::{NodeOutcome, NodeState, RunReport};

fn strings(v: &[&str]) -> Vec<String> {
    v.iter().map(|s| s.to_string()).collect()
}

fn di(id: &str, after: &[&str]) -> Node {
    Node::native(id, after, BuiltinStep::DiCompile { fused: false })
}

fn report() -> RunReport {
    let outcome = |id: &str, state: NodeState, duration: u128| NodeOutcome { id: id.into(), state, duration };
    RunReport {
        outcomes: vec![
            outcome("a", NodeState::Done, 1_500_000),
            outcome("quite-a-long-node-name", NodeState::Failed("boom \"x\"".into()), 2_000_000_000),
            outcome("c", NodeState::Skipped, 0),
            outcome("d", NodeState::Cancelled, 0),
            outcome("é", NodeState::Done, 1_500_000),
        ],
        failed: true,
        wall: 2_100_999_999,
    }
}

#[test]
fn the_plan_shows_waves() {
    let mut graph = Graph::new(vec![di("a", &[]), di("c", &["a"]), di("b", &["a"])]);
    graph.skip(&["c".into()]).unwrap();
    assert_eq!(
        plan_text(&graph, 4),
        "build plan — 3 node(s), 2 wave(s), jobs=4\n\n\
         wave 0\n  - a\n      native: di-compile\n\n\
         wave 1  (parallel)\n  - b\n      native: di-compile  (after a)\n  - c  [skipped]\n      native: di-compile  (after a)\n\n\
         critical path length: 2 wave(s); 2 node(s) will run, 1 skipped.\n"
    );
}

#[test]
fn the_plan_joins_what_a_node_waits_for() {
    let page = plan_text(&default_graph(), 12);
    assert!(page.starts_with("build plan — 5 node(s), 4 wave(s), jobs=12\n\nwave 0\n  - composer-install\n"));
    assert!(page.contains("  - package  [skipped]\n      native: package -> artifact.tar.gz  (after autoload-dump, static-deploy)\n"));
    assert!(page.ends_with("critical path length: 4 wave(s); 4 node(s) will run, 1 skipped.\n"));
}

#[test]
fn the_plan_of_an_invalid_graph_says_so() {
    let graph = Graph::new(vec![di("a", &["b"])]);
    assert_eq!(plan_text(&graph, 1), "invalid graph: node `a` depends on unknown node `b`\n");
    assert!(plan_json(&graph, 1).to_pretty().contains("\"waves\": []"));
}

#[test]
fn the_plan_for_programs() {
    let mut graph = Graph::new(vec![di("a", &[]), di("b", &["a"])]);
    graph.skip(&["b".into()]).unwrap();
    assert_eq!(
        plan_json(&graph, 2).to_pretty(),
        r#"{
  "jobs": 2,
  "nodes": [
    {
      "id": "a",
      "after": [],
      "kind": "native: di-compile",
      "cost": "CpuBound",
      "skipped": false
    },
    {
      "id": "b",
      "after": [
        "a"
      ],
      "kind": "native: di-compile",
      "cost": "CpuBound",
      "skipped": true
    }
  ],
  "waves": [
    [
      "a"
    ],
    [
      "b"
    ]
  ]
}
"#
    );
    assert!(plan_json(&default_graph(), 2).to_pretty().contains("\"cost\": \"IoBound\""));
}

#[test]
fn progress_is_shown_line_by_line() {
    let p = ProgressObserver::new(false);
    assert_eq!(p.start_line("a").unwrap(), "▶  a  running");
    assert_eq!(p.skip_line("a").unwrap(), "∘  a  skipped");
    assert_eq!(p.finish_line("a", &NodeState::Done, "5ms").unwrap(), "✓  a  done  5ms");
    assert_eq!(
        p.finish_line("a", &NodeState::Failed("boom".into()), "1.00s").unwrap(),
        "✗  a  FAILED  1.00s\n     boom"
    );
    assert_eq!(p.finish_line("a", &NodeState::Cancelled, "0ms").unwrap(), "-  a  cancelled");
    assert_eq!(p.finish_line("a", &NodeState::Skipped, "0ms"), None);
}

#[test]
fn progress_for_programs_is_silent() {
    let p = ProgressObserver::new(true);
    assert_eq!(p.start_line("a"), None);
    assert_eq!(p.skip_line("a"), None);
    assert_eq!(p.finish_line("a", &NodeState::Done, "5ms"), None);
}

#[test]
fn the_summary_counts_states() {
    let spent = strings(&["2ms", "2.00s", "", "", "1ms"]);
    assert_eq!(
        summary_text(&report(), false, "2.10s", &spent),
        "BUILD FAILED in 2.10s — 2 done, 1 skipped, 1 failed, 1 cancelled\n"
    );
    let empty = RunReport { outcomes: Vec::new(), failed: false, wall: 0 };
    assert_eq!(
        summary_text(&empty, false, "0ms", &Vec::new()),
        "build ok in 0ms — 0 done, 0 skipped, 0 failed, 0 cancelled\n"
    );
}

#[test]
fn the_profile_lists_the_longest_first() {
    let spent = strings(&["2ms", "2.00s", "", "", "1ms"]);
    assert_eq!(
        summary_text(&report(), true, "2.10s", &spent),
        "per-node timings:\n  quite-a-long-node-name 2.00s\n  a                    2ms\n  é                    1ms\n\n\
         BUILD FAILED in 2.10s — 2 done, 1 skipped, 1 failed, 1 cancelled\n"
    );
}

#[test]
fn the_summary_for_programs() {
    let out = summary_json(&report()).to_pretty();
    assert!(out.starts_with("{\n  \"failed\": true,\n  \"wall_ms\": 2100,\n  \"nodes\": [\n"));
    assert!(out.contains("      \"id\": \"a\",\n      \"state\": \"done\",\n      \"ms\": 1\n"));
    assert!(out.contains("\"state\": \"failed: boom \\\"x\\\"\",\n      \"ms\": 2000\n"));
    assert!(out.contains("\"state\": \"skipped\""));
    assert!(out.contains("\"state\": \"cancelled\""));
}
