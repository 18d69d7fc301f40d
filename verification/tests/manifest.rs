use mnemosyne::config::{patterns_of, within_nesting, Config, ConfigError, Json, DEFAULT_IGNORE_FILENAME, MAX_OVERLAY_NESTING};
use mnemosyne::deps::{build, hint_of_line, hints_of_text};
use mnemosyne::fs_walk::{describe, FileEntry};
use mnemosyne::git::ensure_gitignore;
use mnemosyne::output::{build_env, project_name, push_decimal, write_manifest, OsVersion};

fn entry(path: &str, text: &str) -> FileEntry {
    describe(path, text.len(), &[1, 2, 3], text.to_string())
}

fn names(v: &[&str]) -> Vec<String> {
    v.iter().map(|s| s.to_string()).collect()
}

#[test]
fn environment_names_system_and_version() {
    let at = "2025-02-03T04:05:06.789+00:00";
    assert_eq!(build_env("Ubuntu", &OsVersion::Semantic(22, 4, 0), "x86_64", at).os, "Ubuntu 22.4.0");
    assert_eq!(build_env("Mac OS", &OsVersion::Semantic(0, 10, 105), "aarch64", at).os, "Mac OS 0.10.105");
    assert_eq!(
        build_env("Arch Linux", &OsVersion::Rolling(Some(String::from("2024.01.01"))), "x86_64", at).os,
        "Arch Linux rolling-2024.01.01"
    );
    assert_eq!(build_env("Arch Linux", &OsVersion::Rolling(None), "x86_64", at).os, "Arch Linux rolling");
    assert_eq!(build_env("Windows", &OsVersion::Custom(String::from("10 Pro")), "x86_64", at).os, "Windows 10 Pro");
    assert_eq!(build_env("Unknown", &OsVersion::Unknown, "riscv64", at).os, "Unknown unknown");
    let env = build_env("Linux", &OsVersion::Semantic(u64::MAX, 0, 7), "riscv64", at);
    assert_eq!(env.os, "Linux 18446744073709551615.0.7");
    assert_eq!(env.arch, "riscv64");
    assert_eq!(env.generated_at, at);
}

#[test]
fn decimal_digits() {
    for n in [0u64, 1, 9, 10, 11, 99, 100, 101, 12345, 1_000_000, u64::MAX] {
        let mut s = String::from("v");
        push_decimal(&mut s, n);
        assert_eq!(s, format!("v{}", n));
    }
}

#[test]
fn project_is_named_after_its_root() {
    assert_eq!(project_name("/home/me/projects/demo"), "demo");
    assert_eq!(project_name("/home/me/projects/demo/"), "demo");
    assert_eq!(project_name("/"), "unknown");
    assert_eq!(project_name(""), "unknown");
    assert_eq!(project_name(".."), "unknown");
    let cfg = Config::load("../rel/proj", "o.json", &Vec::new(), None, false, None).unwrap();
    assert_eq!(cfg.project_name(Some("/abs/rel/proj")), "proj");
    assert_eq!(cfg.project_name(Some("/")), "unknown");
    assert_eq!(cfg.project_name(None), "proj");
    let dot = Config::load(".", "o.json", &Vec::new(), None, false, None).unwrap();
    assert_eq!(dot.project_name(None), "unknown");
    assert_eq!(dot.project_name(Some("/srv/app")), "app");
}

#[test]
fn configuration_without_overlay_is_the_callers() {
    let extra = names(&["a", "b"]);
    let cfg = Config::load("root", "out.json", &extra, None, true, None).unwrap();
    assert_eq!(cfg.root, "root");
    assert_eq!(cfg.output_file, "out.json");
    assert_eq!(cfg.extra_ignores, vec!["a", "b"]);
    assert_eq!(cfg.ignore_filename, DEFAULT_IGNORE_FILENAME);
    assert_eq!(cfg.ignore_filename, ".mnemosyne.ignore");
    assert!(cfg.dependency_graph);
    let named = Config::load("root", "out.json", &extra, Some(".myignore"), false, None).unwrap();
    assert_eq!(named.ignore_filename, ".myignore");
    assert!(!named.dependency_graph);
}

#[test]
fn overlay_gives_more_patterns() {
    let extra = names(&["first"]);
    let overlay = "// user settings\n{\n  /* patterns */\n  \"ignore\": [\"*.log\", 42, 'dist/', null, {a: 1}, \"\"],\n}\n";
    let cfg = Config::load("root", "out.json", &extra, None, false, Some(overlay)).unwrap();
    assert_eq!(cfg.extra_ignores, vec!["first", "*.log", "dist/", ""]);
}

#[test]
fn overlay_without_a_list_gives_nothing() {
    for overlay in ["{}", "{ ignore: 'x' }", "{ other: ['a'] }", "[1, 2]", "'text'", "{ ignore: { a: ['b'] } }", "null"] {
        let cfg = Config::load("root", "out.json", &names(&["only"]), None, false, Some(overlay)).unwrap();
        assert_eq!(cfg.extra_ignores, vec!["only"], "{}", overlay);
    }
}

#[test]
fn malformed_overlay_is_an_error() {
    for overlay in ["{", "{ ignore: [ }", "", "{ a: 1 } trailing"] {
        match Config::load("root", "out.json", &Vec::new(), None, false, Some(overlay)) {
            Err(ConfigError::Malformed(text)) => assert!(!text.is_empty()),
            other => panic!("{:?} gave {:?}", overlay, other),
        }
    }
}

#[test]
fn overlay_nested_too_deep_is_refused() {
    let deep = "[".repeat(MAX_OVERLAY_NESTING + 1);
    assert!(!within_nesting(&deep));
    assert!(matches!(
        Config::load("root", "out.json", &Vec::new(), None, false, Some(&deep)),
        Err(ConfigError::TooDeep)
    ));
    let mut closed = deep.clone();
    closed.push_str(&"]".repeat(MAX_OVERLAY_NESTING + 1));
    assert!(matches!(
        Config::load("root", "out.json", &Vec::new(), None, false, Some(&closed)),
        Err(ConfigError::TooDeep)
    ));
    let mut fine = "[".repeat(MAX_OVERLAY_NESTING);
    assert!(within_nesting(&fine));
    fine.push_str(&"]".repeat(MAX_OVERLAY_NESTING));
    assert!(Config::load("root", "out.json", &Vec::new(), None, false, Some(&fine)).is_ok());
    let mixed = format!("{}{}", "{a:[".repeat(MAX_OVERLAY_NESTING / 2), "]}".repeat(MAX_OVERLAY_NESTING / 2));
    assert!(within_nesting(&mixed));
    assert!(Config::load("root", "out.json", &Vec::new(), None, false, Some(&mixed)).is_ok());
}

#[test]
fn many_arrays_side_by_side_are_not_deep() {
    let wide = format!("{{ ignore: ['a'], other: [{}] }}", "[], ".repeat(1000));
    assert!(within_nesting(&wide));
    let cfg = Config::load("root", "out.json", &Vec::new(), None, false, Some(&wide)).unwrap();
    assert_eq!(cfg.extra_ignores, vec!["a"]);
}

#[test]
fn brackets_in_strings_and_comments_do_not_nest() {
    let openers = "[".repeat(500);
    let closers = "]".repeat(500);
    for overlay in [
        format!("{{ ignore: [\"{}\"] }}", openers),
        format!("{{ ignore: ['{}'] }}", openers),
        format!("{{ ignore: ['{}\\'{}'] }}", openers, openers),
        format!("// {}\n{{ ignore: ['x'] }}", openers),
        format!("/* {} * / {} */ {{ ignore: ['x'] }}", openers, openers),
        format!("/* {} */ {{ ignore: ['x'] /* {} */ }} // {}", closers, openers, closers),
    ] {
        assert!(within_nesting(&overlay), "{}", overlay);
        let cfg = Config::load("root", "out.json", &Vec::new(), None, false, Some(&overlay)).unwrap();
        assert_eq!(cfg.extra_ignores.len(), 1);
    }
    let hidden_closers = format!("[\"{}\", {}1{}]", closers, "[".repeat(MAX_OVERLAY_NESTING), "]".repeat(MAX_OVERLAY_NESTING));
    assert!(!within_nesting(&hidden_closers));
    let in_comment = format!("[ /* {} */ {}1{}]", closers, "[".repeat(MAX_OVERLAY_NESTING), "]".repeat(MAX_OVERLAY_NESTING));
    assert!(!within_nesting(&in_comment));
    let after_line = format!("[ // {}\u{2028}{}", closers, "[".repeat(MAX_OVERLAY_NESTING));
    assert!(!within_nesting(&after_line));
}

#[test]
fn caller_patterns_then_overlay_patterns() {
    let extra = names(&["*.md", "secrets/*"]);
    let overlay = "{ ignore: [\"tmp/*\", \"*.log\"] }";
    let cfg = Config::load("root", "out.json", &extra, None, false, Some(overlay)).unwrap();
    assert_eq!(cfg.extra_ignores, vec!["*.md", "secrets/*", "tmp/*", "*.log"]);
    let twice = "{ ignore: [\"*.md\", \"*.md\"] }";
    let cfg = Config::load("root", "out.json", &extra, None, false, Some(twice)).unwrap();
    assert_eq!(cfg.extra_ignores, vec!["*.md", "secrets/*", "*.md", "*.md"]);
}

#[test]
fn patterns_of_a_json_value() {
    let text = |s: &str| Json::Text(s.to_string());
    let overlay = Json::Object(vec![
        (String::from("other"), Json::Array(vec![text("no")])),
        (
            String::from("ignore"),
            Json::Array(vec![
                text("tmp/*"),
                Json::Number(String::from("42")),
                text("*.log"),
                Json::Null,
                Json::Bool(true),
                Json::Array(vec![text("inner")]),
                Json::Object(Vec::new()),
                text(""),
            ]),
        ),
    ]);
    assert_eq!(patterns_of(&overlay), vec!["tmp/*", "*.log", ""]);
    assert!(patterns_of(&Json::Null).is_empty());
    assert!(patterns_of(&text("ignore")).is_empty());
    assert!(patterns_of(&Json::Array(vec![text("a")])).is_empty());
    assert!(patterns_of(&Json::Object(Vec::new())).is_empty());
    assert!(patterns_of(&Json::Object(vec![(String::from("ignore"), text("a"))])).is_empty());
    assert!(patterns_of(&Json::Object(vec![(String::from("Ignore"), Json::Array(vec![text("a")]))])).is_empty());
    let first_wins = Json::Object(vec![
        (String::from("ignore"), Json::Array(vec![text("first")])),
        (String::from("ignore"), Json::Array(vec![text("second")])),
    ]);
    assert_eq!(patterns_of(&first_wins), vec!["first"]);
}

#[test]
fn later_member_of_a_name_counts_in_the_text() {
    let overlay = "{ ignore: ['first'], ignore: ['second'] }";
    let cfg = Config::load("root", "out.json", &Vec::new(), None, false, Some(overlay)).unwrap();
    assert_eq!(cfg.extra_ignores, vec!["second"]);
}

#[test]
fn line_hints() {
    let hint = |line: &str| hint_of_line(&line.chars().collect::<Vec<char>>());
    assert_eq!(hint("use std::collections::HashMap;"), Some(String::from("src/std.rs")));
    assert_eq!(hint("    use crate::config::Config;"), Some(String::from("src/crate.rs")));
    assert_eq!(hint("use foo;"), Some(String::from("src/foo;.rs")));
    assert_eq!(hint("use  spaced ::x;"), Some(String::from("src/spaced.rs")));
    assert_eq!(hint("use ::leading;"), None);
    assert_eq!(hint("use "), None);
    assert_eq!(hint("use   "), None);
    assert_eq!(hint("use"), None);
    assert_eq!(hint("pub use a::b;"), None);
    assert_eq!(hint("user::x"), None);
    assert_eq!(hint("// use a::b"), None);
    assert_eq!(hint("use a:b::c;"), Some(String::from("src/a:b.rs")));
    assert_eq!(hint(""), None);
}

#[test]
fn hints_of_a_text() {
    let text = "use a::b;\nfn main() {}\n  use c;\r\nuse d::e";
    assert_eq!(hints_of_text(text), vec!["src/a.rs", "src/c;.rs", "src/d.rs"]);
    assert!(hints_of_text("").is_empty());
}

#[test]
fn graph_holds_rust_files_only() {
    let files = vec![
        entry("src/main.rs", "use config::load;\nuse std::fs;\n"),
        entry("notes.txt", "use this::not;\n"),
        entry("src/lib.RS", "use upper::case;\n"),
        entry("src/empty.rs", ""),
        entry("Makefile", "use x::y"),
    ];
    let graph = build(&files);
    let got: Vec<(String, Vec<String>)> = graph.into_iter().map(|h| (h.path, h.deps)).collect();
    assert_eq!(
        got,
        vec![
            (String::from("src/main.rs"), names(&["src/config.rs", "src/std.rs"])),
            (String::from("src/lib.RS"), names(&["src/upper.rs"])),
            (String::from("src/empty.rs"), Vec::new()),
        ]
    );
}

#[test]
fn later_file_of_a_path_replaces_the_hints() {
    let files = vec![
        entry("a.rs", "use one::x;\n"),
        entry("b.rs", "use two::x;\n"),
        entry("a.rs", "use three::x;\nuse four::x;\n"),
    ];
    let graph = build(&files);
    let got: Vec<(String, Vec<String>)> = graph.into_iter().map(|h| (h.path, h.deps)).collect();
    assert_eq!(
        got,
        vec![
            (String::from("a.rs"), names(&["src/three.rs", "src/four.rs"])),
            (String::from("b.rs"), names(&["src/two.rs"])),
        ]
    );
}

#[test]
fn manifest_carries_the_graph_it_is_given() {
    let cfg = Config::load("/p/demo", "o.json", &Vec::new(), None, true, None).unwrap();
    let files = vec![entry("src/main.rs", "use config::load;\n")];
    let graph = build(&files);
    let env = build_env("Linux", &OsVersion::Unknown, "x86_64", "t");
    let manifest = write_manifest(&cfg, "/p/demo", env, &files, Some(graph), &names(&["src"]));
    let graph = manifest.dependency_graph.expect("the graph was given");
    assert_eq!(graph.len(), 1);
    assert_eq!(graph[0].path, "src/main.rs");
    assert_eq!(graph[0].deps, vec!["src/config.rs"]);
    assert_eq!(manifest.files[0].sha256, "010203");
}

#[test]
fn ignore_list_gets_what_it_lacks() {
    let patterns = names(&[".mnemosyne.json", ".mnemosyne.ignore"]);
    assert_eq!(ensure_gitignore(true, "", &patterns), ".mnemosyne.json\n.mnemosyne.ignore\n");
    assert_eq!(ensure_gitignore(true, "target\n", &patterns), ".mnemosyne.json\n.mnemosyne.ignore\n");
    assert_eq!(ensure_gitignore(true, "target", &patterns), "\n.mnemosyne.json\n.mnemosyne.ignore\n");
    assert_eq!(ensure_gitignore(true, "target\n.mnemosyne.json\n", &patterns), ".mnemosyne.ignore\n");
    assert_eq!(ensure_gitignore(true, ".mnemosyne.ignore\r\n.mnemosyne.json", &patterns), "");
    assert_eq!(ensure_gitignore(true, "  .mnemosyne.json\n", &patterns), ".mnemosyne.json\n.mnemosyne.ignore\n");
    assert_eq!(ensure_gitignore(true, ".mnemosyne.jsonx\n", &patterns), ".mnemosyne.json\n.mnemosyne.ignore\n");
    assert_eq!(ensure_gitignore(true, "a\n", &Vec::new()), "");
}

#[test]
fn no_repository_no_ignore_list() {
    let patterns = names(&[".mnemosyne.json"]);
    assert_eq!(ensure_gitignore(false, "", &patterns), "");
    assert_eq!(ensure_gitignore(false, "target\n", &patterns), "");
}

#[test]
fn ignore_list_is_settled_after_one_run() {
    let patterns = names(&["out.json", ".myignore", "out.json"]);
    for existing in ["", "target\n", "target", "a\r\nb", "out.json", "x\n.myignore\n"] {
        let mut list = existing.to_string();
        list.push_str(&ensure_gitignore(true, &list, &patterns));
        for p in &patterns {
            assert!(list.lines().any(|l| l == p), "{:?} lacks {:?}", list, p);
        }
        assert_eq!(ensure_gitignore(true, &list, &patterns), "", "after {:?}", existing);
    }
}
