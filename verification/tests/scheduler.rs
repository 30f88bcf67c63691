use magebuild::graph::{BuiltinStep, Graph, Node, NodeKind, When};
use magebuild::scheduler::{NodeState, Observer, RunReport, Scheduler, SilentObserver};
use magebuild::textmap::TextMap;

fn cpu(id: &str, after: &[&str]) -> Node {
    Node::native(id, after, BuiltinStep::DiCompile { fused: false })
}

fn io(id: &str, after: &[&str]) -> Node {
    Node {
        id: id.into(),
        after: after.iter().map(|s| s.to_string()).collect(),
        kind: NodeKind::Command { run: "true".into(), cwd: None, env: TextMap::new() },
        when: When::Always,
    }
}

/// Runs a graph to its end; the node that has been running longest finishes first.
fn run(graph: &Graph, jobs: usize, runner: &mut dyn FnMut(&Node, usize) -> Result<(), String>) -> RunReport {
    let (mut scheduler, _) = Scheduler::new(graph, jobs);
    let mut running: Vec<usize> = Vec::new();
    loop {
        while let Some(i) = scheduler.start_next() {
            running.push(i);
        }
        if running.is_empty() {
            break;
        }
        let live = scheduler.in_flight();
        assert_eq!(live, running.len());
        let i = running.remove(0);
        let result = runner(&graph.nodes()[i], live);
        assert!(scheduler.is_running(i));
        scheduler.finish(i, result, 5);
        assert!(!scheduler.is_running(i));
    }
    scheduler.into_report(7).0
}

#[test]
fn runs_all_in_dependency_order() {
    let graph = Graph::new(vec![cpu("a", &[]), cpu("b", &["a"]), cpu("c", &["a"]), cpu("d", &["b", "c"])]);
    let mut seen: Vec<String> = Vec::new();
    let report = run(&graph, 4, &mut |node, _| {
        seen.push(node.id.clone());
        Ok(())
    });
    assert!(!report.failed);
    let pos = |x: &str| seen.iter().position(|y| y == x).unwrap();
    assert!(pos("a") < pos("b") && pos("a") < pos("c"));
    assert!(pos("d") > pos("b") && pos("d") > pos("c"));
    assert_eq!(seen.len(), 4);
}

#[test]
fn respects_the_job_limit() {
    // Fan of 6 independent nodes, jobs=2: never more than 2 at once.
    let graph = Graph::new((0..6).map(|i| io(&format!("n{i}"), &[])).collect());
    let mut peak = 0;
    let report = run(&graph, 2, &mut |_, live| {
        peak = peak.max(live);
        Ok(())
    });
    assert!(!report.failed);
    assert!(peak <= 2, "peak concurrency exceeded jobs");
    assert_eq!(peak, 2);
}

#[test]
fn first_failure_cancels_downstream_but_drains_inflight() {
    let graph = Graph::new(vec![cpu("a", &[]), cpu("b", &["a"]), cpu("c", &["b"])]);
    let report = run(&graph, 4, &mut |node, _| {
        if node.id == "b" {
            return Err("boom".into());
        }
        Ok(())
    });
    assert!(report.failed);
    assert_eq!(report.get("a").unwrap().state, NodeState::Done);
    assert!(matches!(report.get("b").unwrap().state, NodeState::Failed(_)));
    assert_eq!(report.get("c").unwrap().state, NodeState::Cancelled);
}

#[test]
fn skipped_nodes_satisfy_dependents() {
    let mut graph = Graph::new(vec![cpu("a", &[]), cpu("b", &["a"])]);
    graph.skip(&["a".into()]).unwrap();
    let mut ran = 0;
    let report = run(&graph, 2, &mut |_, _| {
        ran += 1;
        Ok(())
    });
    assert!(!report.failed);
    assert_eq!(report.get("a").unwrap().state, NodeState::Skipped);
    assert_eq!(report.get("b").unwrap().state, NodeState::Done);
    assert_eq!(ran, 1); // only b ran
}

#[test]
fn independent_nodes_run_at_once() {
    let graph = Graph::new(vec![io("x", &[]), io("y", &[])]);
    let (mut s, skipped) = Scheduler::new(&graph, 2);
    assert!(skipped.is_empty());
    // The node declared last starts first.
    assert_eq!(s.start_next(), Some(1));
    assert_eq!(s.start_next(), Some(0));
    assert_eq!(s.start_next(), None);
    assert_eq!(s.in_flight(), 2);
    assert!(s.is_running(0) && s.is_running(1) && !s.is_running(2));
}

#[test]
fn zero_jobs_means_one() {
    let graph = Graph::new(vec![io("x", &[]), io("y", &[])]);
    let (mut s, _) = Scheduler::new(&graph, 0);
    assert!(s.start_next().is_some());
    assert_eq!(s.start_next(), None);
}

#[test]
fn in_flight_nodes_finish_after_a_failure() {
    let graph = Graph::new(vec![io("x", &[]), io("y", &[]), io("z", &["x"]), io("w", &[])]);
    let (mut s, _) = Scheduler::new(&graph, 2);
    assert_eq!(s.start_next(), Some(3));
    assert_eq!(s.start_next(), Some(1));
    assert!(s.finish(3, Err("boom".into()), 10).is_empty());
    assert_eq!(s.start_next(), None);
    assert_eq!(s.in_flight(), 1);
    assert!(s.finish(1, Ok(()), 20).is_empty());
    assert_eq!(s.start_next(), None);
    let (report, cancelled) = s.into_report(30);
    assert_eq!(cancelled, vec![0, 2]);
    assert!(report.failed);
    assert_eq!(report.wall, 30);
    let states: Vec<NodeState> = report.outcomes.iter().map(|o| o.state.clone()).collect();
    assert_eq!(
        states,
        vec![
            NodeState::Cancelled,
            NodeState::Done,
            NodeState::Cancelled,
            NodeState::Failed("boom".into()),
        ]
    );
    let spent: Vec<u128> = report.outcomes.iter().map(|o| o.duration).collect();
    assert_eq!(spent, vec![0, 20, 0, 10]);
}

#[test]
fn skips_cascade_in_order() {
    let mut graph = Graph::new(vec![
        io("a", &[]),
        io("b", &["a"]),
        io("c", &["b"]),
        io("d", &["a"]),
        io("e", &["c", "d"]),
    ]);
    graph.skip(&["b".into(), "c".into(), "d".into()]).unwrap();
    let (mut s, skipped) = Scheduler::new(&graph, 1);
    assert!(skipped.is_empty());
    assert_eq!(s.start_next(), Some(0));
    assert_eq!(s.finish(0, Ok(()), 1), vec![1, 2, 3]);
    assert_eq!(s.start_next(), Some(4));
    assert!(s.finish(4, Ok(()), 1).is_empty());
    let (report, cancelled) = s.into_report(2);
    assert!(cancelled.is_empty());
    assert!(!report.failed);
    assert_eq!(report.get("e").unwrap().state, NodeState::Done);
}

#[test]
fn skipped_roots_are_reported_at_once() {
    let mut graph = Graph::new(vec![io("a", &[]), io("b", &["a"]), io("c", &["b"])]);
    graph.skip(&["a".into(), "b".into()]).unwrap();
    let (mut s, skipped) = Scheduler::new(&graph, 1);
    assert_eq!(skipped, vec![0, 1]);
    assert_eq!(s.start_next(), Some(2));
}

#[test]
fn a_repeated_edge_is_satisfied_once() {
    let graph = Graph::new(vec![io("a", &[]), io("b", &["a", "a"])]);
    let report = run(&graph, 1, &mut |_, _| Ok(()));
    assert_eq!(report.get("b").unwrap().state, NodeState::Done);
}

#[test]
fn nodes_on_a_cycle_are_cancelled() {
    let graph = Graph::new(vec![io("a", &["b"]), io("b", &["a"]), io("c", &[])]);
    let report = run(&graph, 1, &mut |_, _| Ok(()));
    assert!(!report.failed);
    assert_eq!(report.get("a").unwrap().state, NodeState::Cancelled);
    assert_eq!(report.get("c").unwrap().state, NodeState::Done);
}

#[test]
fn report_gives_the_first_outcome_with_the_id() {
    let graph = Graph::new(vec![io("a", &[]), io("a", &["nope"])]);
    let report = run(&graph, 1, &mut |_, _| Ok(()));
    assert_eq!(report.outcomes.len(), 2);
    assert_eq!(report.get("a").unwrap().duration, 5);
    assert!(report.get("b").is_none());
}

#[test]
fn the_silent_observer_ignores_everything() {
    let observer: &dyn Observer = &SilentObserver;
    observer.on_start("a");
    observer.on_skip("a");
    observer.on_finish("a", &NodeState::Done, 1);
}

#[test]
fn every_node_starts_once() {
    let graph = Graph::new(vec![
        io("a", &[]),
        io("b", &["a", "c"]),
        io("c", &["a"]),
        io("d", &["b", "b", "a"]),
        io("e", &[]),
    ]);
    for jobs in 1..4 {
        let mut seen: Vec<String> = Vec::new();
        let report = run(&graph, jobs, &mut |node, live| {
            assert!(live <= jobs);
            seen.push(node.id.clone());
            Ok(())
        });
        seen.sort();
        assert_eq!(seen, vec!["a", "b", "c", "d", "e"]);
        assert!(report.outcomes.iter().all(|o| o.state == NodeState::Done));
        assert_eq!(report.wall, 7);
    }
}
