use magebuild::config::default_graph;
use magebuild::graph::{GraphError, When};
use magebuild::preflight::check;
use magebuild::session::{installs_vendor, prepare, select_targets, SessionError};

fn strings(v: &[&str]) -> Vec<String> {
    v.iter().map(|s| s.to_string()).collect()
}

#[test]
fn a_named_node_wins_over_only() {
    assert_eq!(select_targets(&Some("a".into()), &strings(&["b"])), Some(strings(&["a"])));
    assert_eq!(select_targets(&None, &strings(&["b", "c"])), Some(strings(&["b", "c"])));
    assert_eq!(select_targets(&None, &Vec::new()), None);
}

#[test]
fn a_session_restricts_and_skips() {
    let g = prepare(default_graph(), &Some(strings(&["autoload-dump"])), &strings(&["composer-install"])).unwrap();
    let ids: Vec<&str> = g.nodes().iter().map(|n| n.id.as_str()).collect();
    assert_eq!(ids, vec!["composer-install", "di-compile", "autoload-dump"]);
    assert_eq!(g.get("composer-install").unwrap().when, When::Never);
    assert!(!installs_vendor(&g));
    assert!(installs_vendor(&default_graph()));
}

#[test]
fn unknown_ids_are_refused() {
    let e = prepare(default_graph(), &Some(strings(&["nope"])), &Vec::new()).err().unwrap();
    assert_eq!(e, SessionError::Target(GraphError::UnknownNode("nope".into())));
    assert_eq!(e.message(), "resolving --only / node target: unknown node id: nope");
    // A node that the restriction dropped cannot be skipped any more.
    let e = prepare(default_graph(), &Some(strings(&["di-compile"])), &strings(&["package"])).err().unwrap();
    assert_eq!(e, SessionError::Skip(GraphError::UnknownNode("package".into())));
    assert_eq!(e.message(), "applying --skip: unknown node id: package");
}

#[test]
fn an_invalid_graph_is_found_out() {
    let mut g = default_graph();
    g.get_mut("composer-install").unwrap().after = strings(&["package"]);
    let e = prepare(g, &None, &Vec::new()).err().unwrap();
    assert!(matches!(&e, SessionError::Invalid(GraphError::Cycle(_))));
    assert_eq!(
        e.message(),
        "invalid build graph: dependency cycle among: composer-install, di-compile, autoload-dump, static-deploy, package"
    );
}

#[test]
fn a_root_is_checked() {
    assert_eq!(
        check("x", false, None, true, true).err().unwrap(),
        "no Magento root found at or above x (need app/etc/config.php)"
    );
    assert!(check("x", true, Some("['scopes' => [], 'themes' => []]"), true, false).unwrap().is_empty());
    assert!(check("x", true, Some("[\"scopes\", \"themes\"]"), false, true).unwrap().is_empty());
    assert!(check("x", true, None, true, false).unwrap().is_empty());
    let w = check("x", true, Some("['scope' => 'scopes\"', themes]"), false, false).unwrap();
    let dump = "a DB-less static-content deploy needs `bin/magento app:config:dump scopes themes` committed";
    assert_eq!(
        w,
        vec![
            format!("app/etc/config.php has no `scopes` node — {dump}"),
            format!("app/etc/config.php has no `themes` node — {dump}"),
            "vendor/ is absent and composer-install is not in this run — native di-compile/static-deploy \
             need it; install dependencies first"
                .to_string(),
        ]
    );
}

#[test]
fn dumped_scopes_without_themes_are_a_gap() {
    let w = check("x", true, Some("<?php return ['modules' => [], 'scopes' => []];"), true, true).unwrap();
    assert_eq!(w.len(), 1);
    assert!(w[0].contains("`themes` node"));
    let w = check("x", true, Some("['themes' => []]"), true, true).unwrap();
    assert_eq!(w.len(), 1);
    assert!(w[0].contains("`scopes` node"));
}
