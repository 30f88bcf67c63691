use magebuild::config::{
    apply_options, apply_spec, default_graph, default_jobs, override_step, resolve, BuildOptions, ConfigError, FileConfig,
    NodeSpec,
};
use magebuild::graph::{BuiltinStep, Graph, GraphError, NodeKind, When};
use magebuild::preset::{
    add_tailwind_builds, apply_preset, preset_warning, select_tailwind_dirs, tailwind_id_of, tailwind_node_id, Preset,
};
use magebuild::textmap::TextMap;

fn strings(v: &[&str]) -> Vec<String> {
    v.iter().map(|s| s.to_string()).collect()
}

fn text_of(v: &toml::Value) -> Option<String> {
    Some(v.as_str().unwrap().to_string())
}

fn list_of(v: &toml::Value) -> Option<Vec<String>> {
    Some(v.as_array().unwrap().iter().map(|x| x.as_str().unwrap().to_string()).collect())
}

/// The settings in a piece of TOML.
fn settings(text: &str) -> FileConfig {
    let table: toml::Table = text.parse().unwrap();
    let mut file = FileConfig::default();
    if let Some(build) = table.get("build") {
        file.build.jobs = build.get("jobs").map(|j| j.as_integer().unwrap() as usize);
    }
    if let Some(nodes) = table.get("nodes") {
        for (id, fields) in nodes.as_table().unwrap() {
            let mut spec = NodeSpec::default();
            for (key, v) in fields.as_table().unwrap() {
                match key.as_str() {
                    "run" => spec.run = text_of(v),
                    "after" => spec.after = list_of(v),
                    "locales" => spec.locales = list_of(v),
                    "fused" => spec.fused = v.as_bool(),
                    "output" => spec.output = text_of(v),
                    other => panic!("unexpected key {other}"),
                }
            }
            file.nodes.insert(id.clone(), spec);
        }
    }
    file
}

fn plain(file: &FileConfig) -> Result<(Graph, usize), ConfigError> {
    resolve(file, &BuildOptions::default(), &Vec::new(), 8)
}

#[test]
fn default_graph_is_valid_and_shaped_right() {
    let g = default_graph();
    g.validate().unwrap();
    let waves = g.waves().unwrap();
    assert_eq!(waves[0], vec!["composer-install"]);
    // di-compile and static-deploy overlap.
    assert_eq!(waves[1], vec!["di-compile", "static-deploy"]);
    // package is present but skipped by default.
    assert!(g.get("package").unwrap().is_skipped());
}

#[test]
fn artifact_flag_activates_package() {
    let (g, _) = resolve(
        &FileConfig::default(),
        &BuildOptions { artifact: Some("out.tar.gz".into()), ..Default::default() },
        &Vec::new(),
        8,
    )
    .unwrap();
    let pkg = g.get("package").unwrap();
    assert!(!pkg.is_skipped());
    match &pkg.kind {
        NodeKind::Native(BuiltinStep::Package { output, .. }) => {
            assert_eq!(output, "out.tar.gz");
        }
        _ => panic!("package is not a Package step"),
    }
}

#[test]
fn toml_overrides_builtin_fields() {
    let file = settings(
        r#"
        [build]
        jobs = 3
        [nodes.di-compile]
        fused = true
        [nodes.static-deploy]
        locales = ["en_US", "nl_NL"]
        "#,
    );
    let (g, jobs) = plain(&file).unwrap();
    assert_eq!(jobs, 3);
    match &g.get("di-compile").unwrap().kind {
        NodeKind::Native(BuiltinStep::DiCompile { fused }) => assert!(*fused),
        _ => panic!(),
    }
    match &g.get("static-deploy").unwrap().kind {
        NodeKind::Native(BuiltinStep::StaticDeploy { locales, .. }) => {
            assert_eq!(locales, &vec!["en_US".to_string(), "nl_NL".to_string()]);
        }
        _ => panic!(),
    }
}

#[test]
fn toml_can_convert_node_to_command() {
    let file = settings(
        r#"
        [nodes.autoload-dump]
        run = "composer dump-autoload -o --no-dev"
        "#,
    );
    let (g, _) = plain(&file).unwrap();
    match &g.get("autoload-dump").unwrap().kind {
        NodeKind::Command { run, .. } => {
            assert_eq!(run, "composer dump-autoload -o --no-dev");
        }
        _ => panic!("expected a command node"),
    }
}

#[test]
fn toml_can_add_and_hook_a_node() {
    let file = settings(
        r#"
        [nodes.my-assets]
        after = ["composer-install"]
        run = "php bin/generate.php"
        [nodes.package]
        after = ["autoload-dump", "static-deploy", "my-assets"]
        output = "release.tar"
        "#,
    );
    let (g, _) = plain(&file).unwrap();
    assert!(g.get("my-assets").is_some());
    let pkg = g.get("package").unwrap();
    assert!(pkg.after.contains(&"my-assets".to_string()));
    // output set via toml also activates package.
    assert!(!pkg.is_skipped());
}

#[test]
fn new_node_without_run_errors() {
    let file = settings(
        r#"
        [nodes.bogus]
        after = ["composer-install"]
        "#,
    );
    assert!(plain(&file).is_err());
    let e = plain(&file).err().unwrap();
    assert_eq!(e, ConfigError::NewNodeNeedsRun("bogus".into()));
    assert_eq!(
        e.message(),
        "new node `bogus` needs a `run` (only built-in nodes can be field-tuned)"
    );
}

#[test]
fn hyva_preset_sets_flags_and_wires_tailwind_build() {
    let tw = "/srv/shop/vendor/hyva-themes/acme-theme/web/tailwind";
    let opts = BuildOptions { preset: Some(Preset::Hyva), ..Default::default() };
    let (g, _) = resolve(&FileConfig::default(), &opts, &strings(&[tw]), 8).unwrap();

    // Every Hyvä deploy flag is set on static-deploy.
    match &g.get("static-deploy").unwrap().kind {
        NodeKind::Native(BuiltinStep::StaticDeploy {
            no_parent,
            no_less,
            no_js_bundle,
            no_html_minify,
            symlink,
            ..
        }) => assert!(
            *no_parent && *no_less && *no_js_bundle && *no_html_minify && *symlink,
            "all Hyvä deploy flags must be on"
        ),
        _ => panic!("static-deploy is not a StaticDeploy step"),
    }

    // A Tailwind build node that the deploy depends on, with its cwd at the theme.
    let id = "hyva-tailwind-acme-theme";
    let node = g.get(id).expect("tailwind node added");
    match &node.kind {
        NodeKind::Command { run, cwd, .. } => {
            assert_eq!(run, "npm ci --ignore-scripts && npm run build");
            assert_eq!(cwd.as_deref(), Some(tw));
        }
        _ => panic!("tailwind node is not a command"),
    }
    assert!(node.after.contains(&"composer-install".to_string()));
    assert!(
        g.get("static-deploy").unwrap().after.contains(&id.to_string()),
        "static-deploy must wait for the tailwind build"
    );
}

#[test]
fn the_file_wins_over_the_preset() {
    let mut file = FileConfig::default();
    file.nodes.insert(
        "static-deploy".into(),
        NodeSpec { symlink: Some(false), no_less: Some(false), ..NodeSpec::default() },
    );
    let opts = BuildOptions { preset: Some(Preset::Hyva), ..Default::default() };
    let (g, _) = resolve(&file, &opts, &Vec::new(), 8).unwrap();
    match &g.get("static-deploy").unwrap().kind {
        NodeKind::Native(BuiltinStep::StaticDeploy { symlink, no_less, no_parent, no_js_bundle, .. }) => {
            assert!(!symlink && !no_less && *no_parent && *no_js_bundle);
        }
        _ => panic!(),
    }
}

#[test]
fn the_command_line_wins_over_the_file() {
    let mut file = FileConfig::default();
    file.build.jobs = Some(3);
    file.nodes.insert(
        "package".into(),
        NodeSpec {
            output: Some("file.tar".into()),
            exclude_from: Some("file.txt".into()),
            ..NodeSpec::default()
        },
    );
    file.nodes.insert(
        "static-deploy".into(),
        NodeSpec { deployed_version: Some("1".into()), ..NodeSpec::default() },
    );
    let opts = BuildOptions {
        artifact: Some("cli.tar".into()),
        exclude_from: Some("cli.txt".into()),
        jobs: Some(5),
        deployed_version: Some("2".into()),
        preset: None,
    };
    let (g, jobs) = resolve(&file, &opts, &Vec::new(), 8).unwrap();
    assert_eq!(jobs, 5);
    assert_eq!(
        g.get("package").unwrap().kind,
        NodeKind::Native(BuiltinStep::Package {
            output: "cli.tar".into(),
            exclude_from: Some("cli.txt".into()),
        })
    );
    match &g.get("static-deploy").unwrap().kind {
        NodeKind::Native(BuiltinStep::StaticDeploy { deployed_version, .. }) => {
            assert_eq!(deployed_version.as_deref(), Some("2"));
        }
        _ => panic!(),
    }
}

#[test]
fn excludes_alone_do_not_activate_package() {
    let mut g = default_graph();
    apply_options(
        &mut g,
        &BuildOptions { exclude_from: Some("x".into()), ..Default::default() },
    );
    let pkg = g.get("package").unwrap();
    assert!(pkg.is_skipped());
    assert_eq!(
        pkg.kind,
        NodeKind::Native(BuiltinStep::Package {
            output: "artifact.tar.gz".into(),
            exclude_from: Some("x".into()),
        })
    );
}

#[test]
fn an_artifact_activates_a_package_command() {
    let mut file = FileConfig::default();
    file.nodes.insert("package".into(), NodeSpec { run: Some("make dist".into()), ..NodeSpec::default() });
    let command = NodeKind::Command { run: "make dist".into(), cwd: None, env: TextMap::new() };
    let opts = BuildOptions {
        artifact: Some("o.tar".into()),
        exclude_from: Some("x".into()),
        ..Default::default()
    };
    let (g, _) = resolve(&file, &opts, &Vec::new(), 8).unwrap();
    let pkg = g.get("package").unwrap();
    assert!(!pkg.is_skipped());
    assert_eq!(pkg.kind, command);
    // Without an artifact it stays inactive.
    let (g, _) = plain(&file).unwrap();
    assert_eq!(g.get("package").unwrap().when, When::Never);
    assert_eq!(g.get("package").unwrap().kind, command);
}

#[test]
fn the_file_overrides_the_fields_of_a_preset_command() {
    let id = "hyva-tailwind-x";
    let dirs = strings(&["/a/x/web/tailwind"]);
    let with = |spec: NodeSpec| {
        let mut file = FileConfig::default();
        file.nodes.insert(id.into(), spec);
        let opts = BuildOptions { preset: Some(Preset::Hyva), ..Default::default() };
        let (g, _) = resolve(&file, &opts, &dirs, 8).unwrap();
        g.get(id).unwrap().clone()
    };
    let build = "npm ci --ignore-scripts && npm run build";
    let node = with(NodeSpec { cwd: Some("/b".into()), ..NodeSpec::default() });
    assert_eq!(
        node.kind,
        NodeKind::Command { run: build.into(), cwd: Some("/b".into()), env: TextMap::new() }
    );
    assert_eq!(node.after, vec!["composer-install"]);
    let node = with(NodeSpec { run: Some("make".into()), ..NodeSpec::default() });
    assert_eq!(
        node.kind,
        NodeKind::Command { run: "make".into(), cwd: Some(dirs[0].clone()), env: TextMap::new() }
    );
    let mut env = TextMap::new();
    env.insert("NODE_ENV".to_string(), "production".to_string());
    let node = with(NodeSpec { env: Some(env.clone()), ..NodeSpec::default() });
    assert_eq!(
        node.kind,
        NodeKind::Command { run: build.into(), cwd: Some(dirs[0].clone()), env }
    );
}

#[test]
fn an_invalid_graph_is_refused() {
    let mut file = FileConfig::default();
    file.nodes.insert(
        "di-compile".into(),
        NodeSpec { after: Some(strings(&["autoload-dump"])), ..NodeSpec::default() },
    );
    let e = plain(&file).err().unwrap();
    assert_eq!(
        e,
        ConfigError::Invalid(GraphError::Cycle(strings(&["di-compile", "autoload-dump", "package"])))
    );
    assert_eq!(
        e.message(),
        "invalid build graph: dependency cycle among: di-compile, autoload-dump, package"
    );
}

#[test]
fn a_refused_node_comes_before_an_invalid_graph() {
    let mut file = FileConfig::default();
    file.nodes.insert("z".into(), NodeSpec::default());
    file.nodes.insert("b".into(), NodeSpec::default());
    file.nodes.insert("a".into(), NodeSpec { after: Some(strings(&["nope"])), run: Some("x".into()), ..NodeSpec::default() });
    assert_eq!(plain(&file).err(), Some(ConfigError::NewNodeNeedsRun("b".into())));
}

#[test]
fn jobs_are_at_least_one() {
    let mut file = FileConfig::default();
    assert_eq!(plain(&file).unwrap().1, 8);
    file.build.jobs = Some(0);
    assert_eq!(plain(&file).unwrap().1, 1);
    assert_eq!(default_jobs(None), 4);
    assert_eq!(default_jobs(Some(0)), 1);
    assert_eq!(default_jobs(Some(16)), 16);
}

#[test]
fn each_step_takes_its_own_fields() {
    let spec = NodeSpec {
        no_dev: Some(false),
        optimize: Some(false),
        fused: Some(true),
        hardlink: Some(true),
        cache_root: Some("/c".into()),
        themes: Some(strings(&["T"])),
        locales: Some(strings(&["l"])),
        areas: Some(strings(&["frontend"])),
        no_parent: Some(true),
        no_html_minify: Some(true),
        deployed_version: Some("9".into()),
        exclude_from: Some("e".into()),
        output: Some("o.tar".into()),
        ..NodeSpec::default()
    };
    let over = |mut s: BuiltinStep| {
        override_step(&mut s, &spec);
        s
    };
    assert_eq!(
        over(BuiltinStep::ComposerInstall { no_dev: true, cache_root: None, hardlink: false }),
        BuiltinStep::ComposerInstall { no_dev: false, cache_root: Some("/c".into()), hardlink: true }
    );
    assert_eq!(over(BuiltinStep::DiCompile { fused: false }), BuiltinStep::DiCompile { fused: true });
    assert_eq!(
        over(BuiltinStep::AutoloadDump { no_dev: true, optimize: true }),
        BuiltinStep::AutoloadDump { no_dev: false, optimize: false }
    );
    assert_eq!(
        over(BuiltinStep::Package { output: "a".into(), exclude_from: None }),
        BuiltinStep::Package { output: "o.tar".into(), exclude_from: Some("e".into()) }
    );
    assert_eq!(
        over(BuiltinStep::StaticDeploy {
            themes: strings(&["*"]),
            locales: strings(&["en_US"]),
            areas: strings(&["adminhtml"]),
            no_parent: false,
            no_less: true,
            no_js_bundle: false,
            no_html_minify: false,
            symlink: true,
            deployed_version: None,
            command: Some("c".into()),
        }),
        BuiltinStep::StaticDeploy {
            themes: strings(&["T"]),
            locales: strings(&["l"]),
            areas: strings(&["frontend"]),
            no_parent: true,
            no_less: true,
            no_js_bundle: false,
            no_html_minify: true,
            symlink: true,
            deployed_version: Some("9".into()),
            command: Some("c".into()),
        }
    );
}

#[test]
fn a_new_node_is_an_active_command() {
    let mut g = default_graph();
    let mut env = TextMap::new();
    env.insert("B".to_string(), "2".to_string());
    env.insert("A".to_string(), "1".to_string());
    let spec = NodeSpec {
        run: Some("make".into()),
        cwd: Some("sub".into()),
        env: Some(env.clone()),
        fused: Some(true),
        ..NodeSpec::default()
    };
    assert_eq!(apply_spec(&mut g, "assets", &spec), Ok(()));
    let node = g.get("assets").unwrap();
    assert!(node.after.is_empty() && !node.is_skipped());
    assert_eq!(
        node.kind,
        NodeKind::Command { run: "make".into(), cwd: Some("sub".into()), env }
    );
    // A second spec changes what it sets, and nothing else.
    let spec = NodeSpec { after: Some(strings(&["package"])), cwd: Some("other".into()), ..NodeSpec::default() };
    assert_eq!(apply_spec(&mut g, "assets", &spec), Ok(()));
    let node = g.get("assets").unwrap();
    assert_eq!(node.after, vec!["package"]);
    assert!(matches!(
        &node.kind,
        NodeKind::Command { run, cwd: Some(c), env } if run == "make" && c == "other" && env.len() == 2
    ));
}

#[test]
fn a_text_map_is_ordered_and_binds_once() {
    let mut m = TextMap::new();
    for (k, v) in [("b", "1"), ("a", "2"), ("c", "3"), ("b", "4"), ("ab", "5")] {
        m.insert(k.to_string(), v.to_string());
    }
    let all: Vec<(&str, &str)> = (0..m.len()).map(|i| (m.key(i), m.value(i).as_str())).collect();
    assert_eq!(all, vec![("a", "2"), ("ab", "5"), ("b", "4"), ("c", "3")]);
}

#[test]
fn theme_ids_are_slugs() {
    assert_eq!(tailwind_node_id("/r/app/design/frontend/Acme/My_Théme/web/tailwind"), "hyva-tailwind-my-th-me");
    // The Kelvin sign has an ASCII letter as its lowercase form.
    assert_eq!(tailwind_node_id("x/\u{212a}9/web/tailwind"), "hyva-tailwind-k9");
    assert_eq!(tailwind_node_id("web/tailwind"), "hyva-tailwind-theme");
    assert_eq!(tailwind_node_id("/web/tailwind"), "hyva-tailwind-theme");
    assert_eq!(tailwind_node_id("../web/tailwind"), "hyva-tailwind-theme");
    assert_eq!(tailwind_id_of("a b.C"), "hyva-tailwind-a-b-C");
}

#[test]
fn clashing_themes_get_underscores() {
    let mut g = default_graph();
    let dirs = strings(&["/a/x/web/tailwind", "/b/X/web/tailwind", "/c/x/web/tailwind"]);
    apply_preset(&mut g, Preset::Hyva, &dirs);
    let ids: Vec<&str> = g.nodes()[5..].iter().map(|n| n.id.as_str()).collect();
    assert_eq!(ids, vec!["hyva-tailwind-x", "hyva-tailwind-x_", "hyva-tailwind-x__"]);
    assert_eq!(
        g.get("static-deploy").unwrap().after,
        vec!["composer-install", "hyva-tailwind-x", "hyva-tailwind-x_", "hyva-tailwind-x__"]
    );
    assert_eq!(g.validate(), Ok(()));
}

#[test]
fn builds_under_given_ids() {
    let mut g = default_graph();
    add_tailwind_builds(&mut g, strings(&["package", "t"]), &strings(&["/p", "/t"]));
    assert_eq!(g.get("package_").unwrap().after, vec!["composer-install"]);
    assert_eq!(
        g.get("static-deploy").unwrap().after,
        vec!["composer-install", "package_", "t"]
    );
}

#[test]
fn project_themes_are_preferred_and_sorted_by_component() {
    let project = strings(&["/r/b/web", "/r/a-b/web", "/r/a/web", "/r/a//web/"]);
    let vendor = strings(&["/r/v/web"]);
    assert_eq!(
        select_tailwind_dirs(project, vendor.clone()),
        strings(&["/r/a/web", "/r/a-b/web", "/r/b/web"])
    );
    assert_eq!(select_tailwind_dirs(Vec::new(), vendor.clone()), vendor);
    assert!(select_tailwind_dirs(Vec::new(), Vec::new()).is_empty());
}

#[test]
fn a_preset_without_themes_warns() {
    let warning = preset_warning(Some(Preset::Hyva), &Vec::new()).unwrap();
    assert!(warning.starts_with("--preset hyva found no Hyvä theme web/tailwind"));
    assert!(warning.ends_with("if your Tailwind lives elsewhere."));
    assert_eq!(preset_warning(Some(Preset::Hyva), &strings(&["/x"])), None);
    assert_eq!(preset_warning(None, &Vec::new()), None);
}

#[test]
fn unmentioned_nodes_stay_as_they_are() {
    let mut file = FileConfig::default();
    file.nodes.insert("di-compile".into(), NodeSpec { fused: Some(true), ..NodeSpec::default() });
    file.nodes.insert("extra".into(), NodeSpec { run: Some("true".into()), ..NodeSpec::default() });
    let (g, _) = plain(&file).unwrap();
    let d = default_graph();
    assert_eq!(g.nodes().len(), 6);
    for id in ["composer-install", "autoload-dump", "static-deploy", "package"] {
        assert_eq!(g.get(id), d.get(id));
    }
    // Nothing but the field that was set has changed.
    let node = g.get("di-compile").unwrap();
    assert_eq!(node.after, d.get("di-compile").unwrap().after);
    assert_eq!(node.kind, NodeKind::Native(BuiltinStep::DiCompile { fused: true }));
}

#[test]
fn every_preset_graph_is_valid() {
    let dirs = strings(&["/a/static-deploy/web/tailwind", "/", "", "package", "/a/b/c", "/a/b/c"]);
    let opts = BuildOptions {
        preset: Some(Preset::Hyva),
        artifact: Some("a.tar".into()),
        ..Default::default()
    };
    let (g, _) = resolve(&FileConfig::default(), &opts, &dirs, 1).unwrap();
    assert_eq!(g.validate(), Ok(()));
    assert_eq!(g.nodes().len(), 11);
    assert_eq!(g.get("static-deploy").unwrap().after.len(), 7);
}

#[test]
fn a_copy_of_the_settings_resolves_the_same() {
    let mut file = FileConfig::default();
    file.build.jobs = Some(3);
    let mut env = TextMap::new();
    env.insert("K".to_string(), "v".to_string());
    file.nodes.insert("z".into(), NodeSpec { run: Some("z".into()), env: Some(env), ..NodeSpec::default() });
    file.nodes.insert("di-compile".into(), NodeSpec { fused: Some(true), ..NodeSpec::default() });
    let copy = file.clone();
    let (a, b) = (plain(&file).unwrap(), plain(&copy).unwrap());
    assert_eq!(a.0.nodes(), b.0.nodes());
    assert_eq!((a.1, b.1), (3, 3));
}
