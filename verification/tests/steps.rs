use magebuild::excludes::{exclude_pattern, parse_excludes, ExcludeMatcher};
use magebuild::graph::{BuiltinStep, Node, NodeKind, When};
use magebuild::packing::{matcher_for, prepare_archive, Preparation};
use magebuild::path::{components_of, file_name_of, join_path, parent_of, portable, same_path, sort_paths, Part};
use magebuild::preset::tailwind_node_id;
use magebuild::steps::{
    composer_cache_dir, compression_of, execute, generated_code_dir, package_line, unresolved_note, Action, Compress, Ctx,
    Environment,
};
use magebuild::text::{chars_of, join_texts, same_text, sort_texts, split_text};
use magebuild::textmap::TextMap;
use magebuild::walk::{Entry, EntryKind, Walk};

fn strings(v: &[&str]) -> Vec<String> {
    v.iter().map(|s| s.to_string()).collect()
}

fn bare() -> Environment {
    Environment { cache_dir: None, xdg_cache_home: None, home: None, hardlink: false, symlink: false }
}

fn ctx() -> Ctx {
    Ctx { root: "/srv/shop".into(), jobs: 6 }
}

fn native(step: BuiltinStep) -> Node {
    Node::native("n", &[], step)
}

fn deploy(symlink: bool, command: Option<&str>) -> BuiltinStep {
    BuiltinStep::StaticDeploy {
        themes: strings(&["*", "Acme/x", "*"]),
        locales: strings(&["en_US"]),
        areas: strings(&["frontend"]),
        no_parent: true,
        no_less: false,
        no_js_bundle: true,
        no_html_minify: false,
        symlink,
        deployed_version: Some("7".into()),
        command: command.map(|s| s.to_string()),
    }
}

#[test]
fn exclude_matcher_matches_dir_prefix_and_suffix() {
    let m = ExcludeMatcher::new(vec!["var".into(), "generated/".into(), "*.log".into(), ".git".into()]);
    assert!(m.excluded("var", true));
    assert!(m.excluded("var/cache/x", false));
    assert!(m.excluded("generated/code/Foo.php", false));
    assert!(m.excluded("app/error.log", false));
    assert!(m.excluded(".git/HEAD", false));
    assert!(!m.excluded("app/code/Vendor/Module/registration.php", false));
    // A prefix must be a whole path component, not a substring.
    assert!(!m.excluded("variables/x", false));
}

#[test]
fn patterns_are_trimmed_lines() {
    let text = "# comment\r\n\n  var  \n././/pub/media/\n/generated\n\u{3000}*.log\u{a0}\r\n #x\n./\nlast";
    assert_eq!(
        parse_excludes(text),
        strings(&["var", "pub/media/", "generated", "*.log", "", "last"])
    );
    assert_eq!(exclude_pattern("/./x"), Some("./x".to_string()));
    assert_eq!(exclude_pattern(" \t "), None);
    assert!(parse_excludes("").is_empty());
}

#[test]
fn white_space_is_what_unicode_says() {
    for u in 0..=0x10ffffu32 {
        if let Some(c) = char::from_u32(u) {
            let line = format!("{c}a{c}");
            let expected = line.trim();
            if !expected.starts_with('#') {
                let expected = expected.trim_start_matches("./").trim_start_matches('/');
                assert_eq!(exclude_pattern(&line).as_deref(), Some(expected), "U+{u:04X}");
            }
        }
    }
}

#[test]
fn an_empty_pattern_excludes_nothing_in_the_tree() {
    let m = ExcludeMatcher::new(strings(&["", "*."]));
    assert!(!m.excluded("a", false));
    assert!(m.excluded("a.", false));
}

#[test]
fn the_cache_is_found_in_order() {
    let cache = |c: Option<&str>, x: Option<&str>, h: Option<&str>| {
        composer_cache_dir(&Environment {
            cache_dir: c.map(|s| s.to_string()),
            xdg_cache_home: x.map(|s| s.to_string()),
            home: h.map(|s| s.to_string()),
            hardlink: false,
            symlink: false,
        })
    };
    assert_eq!(cache(Some("/c"), Some("/x"), Some("/h")), "/c");
    assert_eq!(cache(Some(""), Some("/x/"), Some("/h")), "/x/magebuild/composer-dist");
    assert_eq!(cache(None, Some(""), Some("/h")), "/h/.cache/magebuild/composer-dist");
    assert_eq!(cache(None, None, Some("")), ".magebuild-cache/magebuild/composer-dist");
}

#[test]
fn compression_goes_by_extension() {
    assert_eq!(compression_of("a.tar.gz"), Compress::Gzip);
    assert_eq!(compression_of("x/a.TGZ"), Compress::Gzip);
    assert_eq!(compression_of("a.tar.zst"), Compress::Zstd);
    assert_eq!(compression_of("a.TzSt"), Compress::Zstd);
    assert_eq!(compression_of("a.tar"), Compress::Plain);
    assert_eq!(compression_of(".gz"), Compress::Plain);
    assert_eq!(compression_of("gz"), Compress::Plain);
    assert_eq!(compression_of("a.gz/"), Compress::Gzip);
    assert_eq!(compression_of("a.gz/.."), Compress::Plain);
    assert_eq!(compression_of("a."), Compress::Plain);
    assert_eq!(compression_of(""), Compress::Plain);
}

#[test]
fn composer_install_heeds_the_environment() {
    let node = native(BuiltinStep::ComposerInstall { no_dev: true, cache_root: None, hardlink: false });
    let mut env = bare();
    env.home = Some("/h".into());
    assert!(matches!(
        execute(&node, &ctx(), &env),
        Action::ComposerInstall { no_dev: true, hardlink: false, cache } if cache == "/h/.cache/magebuild/composer-dist"
    ));
    env.hardlink = true;
    assert!(matches!(execute(&node, &ctx(), &env), Action::ComposerInstall { hardlink: true, .. }));
    let node = native(BuiltinStep::ComposerInstall { no_dev: false, cache_root: Some("/c".into()), hardlink: true });
    assert!(matches!(
        execute(&node, &ctx(), &bare()),
        Action::ComposerInstall { no_dev: false, hardlink: true, cache } if cache == "/c"
    ));
}

#[test]
fn static_deploy_carries_its_flags() {
    match execute(&native(deploy(false, None)), &ctx(), &bare()) {
        Action::StaticDeploy {
            themes,
            locales,
            areas,
            no_parent,
            no_less,
            no_js_bundle,
            no_html_minify,
            symlink,
            deployed_version,
        } => {
            assert_eq!(themes, vec!["Acme/x"]);
            assert_eq!(locales, vec!["en_US"]);
            assert_eq!(areas, vec!["frontend"]);
            assert!(no_parent && !no_less && no_js_bundle && !no_html_minify && !symlink);
            assert_eq!(deployed_version.as_deref(), Some("7"));
        }
        other => panic!("unexpected {other:?}"),
    }
    let mut env = bare();
    env.symlink = true;
    assert!(matches!(
        execute(&native(deploy(false, None)), &ctx(), &env),
        Action::StaticDeploy { symlink: true, .. }
    ));
    assert!(matches!(
        execute(&native(deploy(true, None)), &ctx(), &bare()),
        Action::StaticDeploy { symlink: true, .. }
    ));
}

#[test]
fn a_deploy_command_replaces_the_engine() {
    assert!(matches!(
        execute(&native(deploy(true, Some("make static"))), &ctx(), &bare()),
        Action::Shell { run, dir, env } if run == "make static" && dir == "/srv/shop" && env.len() == 0
    ));
}

#[test]
fn commands_run_in_their_directory_or_the_root() {
    let mut vars = TextMap::new();
    vars.insert("K".to_string(), "v".to_string());
    let mut node = Node {
        id: "c".into(),
        after: Vec::new(),
        kind: NodeKind::Command { run: "ls".into(), cwd: None, env: vars.clone() },
        when: When::Always,
    };
    assert!(matches!(
        execute(&node, &ctx(), &bare()),
        Action::Shell { run, dir, env } if run == "ls" && dir == "/srv/shop" && env == vars
    ));
    node.kind = NodeKind::Command { run: "ls".into(), cwd: Some("sub".into()), env: TextMap::new() };
    assert!(matches!(execute(&node, &ctx(), &bare()), Action::Shell { dir, .. } if dir == "sub"));
}

#[test]
fn packaging_is_planned() {
    let node = native(BuiltinStep::Package { output: "out/rel.tar.zst".into(), exclude_from: Some("x".into()) });
    match execute(&node, &ctx(), &bare()) {
        Action::Package(plan) => {
            assert_eq!(plan.output, "out/rel.tar.zst");
            assert_eq!(plan.exclude_from.as_deref(), Some("x"));
            assert_eq!(plan.directory.as_deref(), Some("out"));
            assert_eq!(plan.compress, Compress::Zstd);
            assert_eq!(plan.threads, 6);
        }
        other => panic!("unexpected {other:?}"),
    }
    let node = native(BuiltinStep::Package { output: "rel.tar".into(), exclude_from: None });
    let idle = Ctx { root: ".".into(), jobs: 0 };
    match execute(&node, &idle, &bare()) {
        Action::Package(plan) => {
            assert_eq!(plan.directory, None);
            assert_eq!(plan.threads, 1);
        }
        other => panic!("unexpected {other:?}"),
    }
}

#[test]
fn the_other_steps_carry_over() {
    assert!(matches!(
        execute(&native(BuiltinStep::DiCompile { fused: true }), &ctx(), &bare()),
        Action::DiCompile { fused: true }
    ));
    assert!(matches!(
        execute(&native(BuiltinStep::AutoloadDump { no_dev: true, optimize: false }), &ctx(), &bare()),
        Action::AutoloadDump { no_dev: true, optimize: false }
    ));
}

#[test]
fn notes_of_steps() {
    assert_eq!(package_line(1, "a.tar"), "  package: 1 entry -> a.tar");
    assert_eq!(package_line(0, "a.tar"), "  package: 0 entries -> a.tar");
    assert_eq!(package_line(12, "a.tar"), "  package: 12 entries -> a.tar");
    assert_eq!(unresolved_note(&Vec::new()), None);
    assert_eq!(
        unresolved_note(&strings(&["A\\B", "C"])).unwrap(),
        "  note (di): 2 class name(s) unresolvable via autoload maps (first: A\\B)"
    );
    assert_eq!(generated_code_dir("/r", true), "/r/generated/_code");
    assert_eq!(generated_code_dir("/r", false), "/r/generated/code");
}

#[test]
fn a_path_has_components() {
    let name = |s: &str| Part::Name(s.to_string());
    assert_eq!(components_of("/a//b/./c/"), vec![Part::Root, name("a"), name("b"), name("c")]);
    assert_eq!(components_of("./a/../b"), vec![Part::Here, name("a"), Part::Up, name("b")]);
    assert_eq!(components_of("."), vec![Part::Here]);
    assert_eq!(components_of("/."), vec![Part::Root]);
    assert!(components_of("").is_empty());
}

#[test]
fn paths_agree_with_the_standard_library() {
    let paths = [
        "", "/", ".", "..", "a", "a/", "/a", "//a", "a/b", "a//b", "a/./b", "./a", "././a", "/a/b/", "../a", "a/..", "/..",
        "a.b/c.d", "/.", "./", "a/b/c", "a-b/c", "a/b.c", "é/ü",
    ];
    for a in paths {
        let p = std::path::Path::new(a);
        let parent = parent_of(a);
        assert_eq!(parent.as_deref().map(std::path::Path::new), p.parent(), "parent of {a:?}");
        assert_eq!(
            file_name_of(a),
            p.file_name().map(|n| n.to_str().unwrap().to_string()),
            "name of {a:?}"
        );
        assert_eq!(components_of(a).len(), p.components().count(), "components of {a:?}");
        for b in paths {
            let q = std::path::Path::new(b);
            assert_eq!(same_path(a, b), p == q, "{a:?} and {b:?}");
            assert_eq!(magebuild::path::is_path_le(a, b), p <= q, "{a:?} and {b:?}");
            assert_eq!(join_path(a, b), p.join(q).to_str().unwrap(), "{a:?} joined with {b:?}");
        }
    }
    let mut sorted: Vec<&str> = paths.to_vec();
    sorted.sort_by(|a, b| std::path::Path::new(a).cmp(std::path::Path::new(b)));
    assert_eq!(sort_paths(strings(&paths)), strings(&sorted));
}

#[test]
fn texts_are_sorted_split_and_joined() {
    assert_eq!(sort_texts(strings(&["b", "", "a", "ab", "B", "é", "z"])), strings(&["", "B", "a", "ab", "b", "z", "é"]));
    assert_eq!(split_text("/a//b/", '/'), strings(&["", "a", "", "b", ""]));
    assert_eq!(split_text("", '/'), strings(&[""]));
    assert_eq!(join_texts(&strings(&["", "a", "", "b", ""]), "/"), "/a//b/");
    assert_eq!(join_texts(&Vec::new(), ", "), "");
    assert_eq!(chars_of("aé"), vec!['a', 'é']);
}

fn entry(token: usize, name: &str, kind: EntryKind) -> Entry {
    Entry { token, name: name.into(), kind, is_output: false }
}

#[test]
fn a_walk_is_ordered_and_excludes() {
    let matcher = ExcludeMatcher::new(strings(&["var", "*.log", "sub/skip"]));
    let mut walk = Walk::new(0);
    let root = walk.next_dir().unwrap();
    assert_eq!((root.token, root.rel.as_str()), (0, ""));
    let mut output = entry(9, "out.tar", EntryKind::Other);
    output.is_output = true;
    let listing = vec![
        entry(1, "z.txt", EntryKind::Other),
        entry(2, "sub", EntryKind::Directory),
        entry(3, "var", EntryKind::Directory),
        entry(4, "a.log", EntryKind::Other),
        entry(5, "b", EntryKind::Directory),
        entry(6, "a.txt", EntryKind::Other),
        entry(7, "gone", EntryKind::Unreadable),
        output,
    ];
    let files = walk.visit(&root.rel, &listing, &matcher);
    let seen: Vec<(usize, &str)> = files.iter().map(|p| (p.token, p.rel.as_str())).collect();
    assert_eq!(seen, vec![(6, "a.txt"), (1, "z.txt")]);
    // The directory found last is listed first.
    let dir = walk.next_dir().unwrap();
    assert_eq!((dir.token, dir.rel.as_str()), (2, "sub"));
    let listing = vec![
        entry(10, "skip", EntryKind::Other),
        entry(11, "keep", EntryKind::Other),
        entry(12, "in\\er", EntryKind::Directory),
    ];
    let files = walk.visit(&dir.rel, &listing, &matcher);
    let seen: Vec<(usize, &str)> = files.iter().map(|p| (p.token, p.rel.as_str())).collect();
    assert_eq!(seen, vec![(11, "sub/keep")]);
    assert_eq!(walk.next_dir().unwrap().rel, "sub/in\\er");
    assert_eq!(walk.next_dir().unwrap().rel, "b");
    assert!(walk.next_dir().is_none());
}

#[test]
fn patterns_see_backslashes_as_slashes() {
    let matcher = ExcludeMatcher::new(strings(&["a/b"]));
    let mut walk = Walk::new(0);
    let root = walk.next_dir().unwrap();
    let files = walk.visit(&root.rel, &vec![entry(1, "a\\b", EntryKind::Other)], &matcher);
    assert!(files.is_empty());
}

#[test]
fn a_matcher_comes_from_the_excludes_file() {
    let m = matcher_for(Some("# no logs\n*.log\n/var\n"));
    assert!(m.excluded("a/b.log", false) && m.excluded("var/x", false));
    assert!(!m.excluded("a/b.txt", false));
    assert!(!matcher_for(None).excluded("a/b.log", false));
}

#[test]
fn plans_differ_in_the_compression_alone() {
    let plan = |output: &str, jobs: usize| {
        let node = native(BuiltinStep::Package { output: output.into(), exclude_from: Some("e".into()) });
        match execute(&node, &Ctx { root: "/r".into(), jobs }, &bare()) {
            Action::Package(plan) => plan,
            other => panic!("unexpected {other:?}"),
        }
    };
    let (gz, zst) = (plan("out/a.tar.gz", 3), plan("out/a.tar.zst", 3));
    assert_eq!((gz.compress, zst.compress), (Compress::Gzip, Compress::Zstd));
    assert_eq!((&gz.exclude_from, &gz.directory, gz.threads), (&zst.exclude_from, &zst.directory, zst.threads));
    assert_eq!(plan("a.tar", 0).threads, plan("a.tar", 1).threads);
}

#[test]
fn the_excludes_file_is_read_before_the_archive_is_touched() {
    let prepared = |output: &str, exclude_from: Option<&str>| {
        let node = native(BuiltinStep::Package {
            output: output.into(),
            exclude_from: exclude_from.map(|s| s.to_string()),
        });
        match execute(&node, &ctx(), &bare()) {
            Action::Package(plan) => prepare_archive(&plan),
            other => panic!("unexpected {other:?}"),
        }
    };
    assert_eq!(
        prepared("out/a.tgz", Some("ex.txt")),
        vec![
            Preparation::ReadExcludes("ex.txt".into()),
            Preparation::MakeDirectory("out".into()),
            Preparation::CreateArchive { output: "out/a.tgz".into(), compress: Compress::Gzip, threads: 6 },
        ]
    );
    assert_eq!(
        prepared("a.tar", None),
        vec![Preparation::CreateArchive { output: "a.tar".into(), compress: Compress::Plain, threads: 6 }]
    );
}

#[test]
fn paths_of_other_machines_are_made_portable() {
    let theme = portable("C:\\shop\\vendor/hyva-themes\\acme\\web/tailwind", '\\');
    assert_eq!(theme, "C:/shop/vendor/hyva-themes/acme/web/tailwind");
    assert_eq!(tailwind_node_id(&theme), "hyva-tailwind-acme");
    assert_eq!(parent_of(&portable("dist\\a.tar", '\\')).as_deref(), Some("dist"));
    assert_eq!(compression_of(&portable("dist.d\\a.tar.GZ", '\\')), Compress::Gzip);
    // A backslash is an ordinary character where `/` separates.
    assert_eq!(portable("a\\b/c", '/'), "a\\b/c");
}

#[test]
fn texts_are_the_same_character_by_character() {
    assert!(same_text("", "") && same_text("aé", "aé"));
    assert!(!same_text("a", "ab") && !same_text("ab", "aB") && !same_text("e\u{301}", "é"));
}

#[test]
fn a_whole_walk_archives_each_file_once() {
    // Token 0 is the root; "d" and "d/e" are directories.
    let tree = |token: usize| match token {
        0 => vec![entry(1, "d", EntryKind::Directory), entry(2, "f", EntryKind::Other)],
        1 => vec![
            entry(3, "f", EntryKind::Other),
            entry(4, "e", EntryKind::Directory),
            entry(5, "x.log", EntryKind::Other),
        ],
        4 => vec![entry(6, "f", EntryKind::Other)],
        _ => panic!("not a directory"),
    };
    let matcher = matcher_for(Some("*.log"));
    let mut walk = Walk::new(0);
    let mut seen: Vec<(usize, String)> = Vec::new();
    while let Some(dir) = walk.next_dir() {
        for file in walk.visit(&dir.rel, &tree(dir.token), &matcher) {
            seen.push((file.token, file.rel));
        }
    }
    assert_eq!(seen, vec![(2, "f".to_string()), (3, "d/f".to_string()), (6, "d/e/f".to_string())]);
}
