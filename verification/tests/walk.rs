use mnemosyne::config::Config;
use mnemosyne::fs_walk::{collect, Candidate, WalkError};
use mnemosyne::output::{ascii_tree, build_env, write_manifest, OsVersion, INSTRUCTION, SCHEMA_PATH};

fn config(extra: &[&str]) -> Config {
    let extra: Vec<String> = extra.iter().map(|s| s.to_string()).collect();
    Config::load("/work/demo", ".mnemosyne.json", &extra, Some(".mnemosyne.ignore"), false, None)
        .expect("no overlay, no failure")
}

fn readable(path: &str, raw: &[u8]) -> Candidate {
    Candidate { path: path.to_string(), content: Ok(raw.to_vec()) }
}

fn unreadable(path: &str, reason: &str) -> Candidate {
    Candidate { path: path.to_string(), content: Err(reason.to_string()) }
}

fn dirs(names: &[&str]) -> Vec<String> {
    names.iter().map(|s| s.to_string()).collect()
}

#[test]
fn small_project_gives_one_entry_and_a_clean_tree() {
    let cfg = config(&[]);
    let candidates = vec![
        readable("src/main.txt", b"a\nb\nc"),
        readable("logo.png", &[0x12, 0x34, 0x56, 0x78, 0x9a]),
        readable("build/out.txt", b"built\n"),
    ];
    let files = collect(&cfg, &candidates).expect("all files are readable");
    assert_eq!(files.len(), 1);
    assert_eq!(files[0].path, "src/main.txt");
    assert_eq!(files[0].chunks.len(), 1);
    assert_eq!(files[0].chunks[0].idx, 0);
    assert_eq!(files[0].chunks[0].start_line, 1);
    assert_eq!(files[0].chunks[0].end_line, 3);
    assert_eq!(files[0].chunks[0].text, "a\nb\nc");

    let env = build_env("Linux", &OsVersion::Semantic(6, 1, 0), "x86_64", "2024-01-01T00:00:00+00:00");
    let manifest = write_manifest(&cfg, "/work/demo", env, &files, None, &dirs(&["src", "build"]));
    assert_eq!(manifest.files.len(), 1);
    assert_eq!(manifest.files[0].path, "src/main.txt");
    assert_eq!(manifest.files[0].language, "txt");
    assert_eq!(manifest.files[0].bytes, 5);
    assert_eq!(manifest.files[0].tokens, 3);
    assert_eq!(manifest.files[0].sha256, "ea7fb08b7a2dc4619ffb7c7bb38d95a2047935fa165d71b12efd3852a2e6d0cc");
    assert_eq!(manifest.files[0].chunks.len(), 1);
    assert_eq!(manifest.files[0].chunks[0].start_line, 1);
    assert_eq!(manifest.files[0].chunks[0].end_line, 3);
    assert_eq!(manifest.files[0].chunks[0].text, "a\nb\nc");
    assert!(!manifest.files.iter().any(|f| f.path.contains("logo.png") || f.path.starts_with("build")));
    assert!(!manifest.directory_tree.contains("logo.png"));
    assert!(!manifest.directory_tree.contains("build"));
    assert!(!manifest.directory_tree.contains("out.txt"));
    assert_eq!(manifest.directory_tree, "demo\n├── src\n└── src/main.txt\n");
    assert_eq!(manifest.project_name, "demo");
    assert_eq!(manifest.schema, SCHEMA_PATH);
    assert_eq!(manifest.instruction, INSTRUCTION);
    assert_eq!(manifest.env.os, "Linux 6.1.0");
    assert_eq!(manifest.env.arch, "x86_64");
    assert_eq!(manifest.env.generated_at, "2024-01-01T00:00:00+00:00");
    assert!(manifest.dependency_graph.is_none());
    assert!(manifest.ignored_files.is_empty());
}

#[test]
fn extra_patterns_keep_files_out_and_are_listed() {
    let cfg = config(&["*.md", "secrets/*"]);
    let candidates = vec![
        readable("README.md", b"# readme\n"),
        readable("secrets/key.txt", b"hunter2\n"),
        readable("src/lib.rs", b"use std::fmt;\n"),
    ];
    let files = collect(&cfg, &candidates).expect("all files are readable");
    let paths: Vec<&str> = files.iter().map(|f| f.path.as_str()).collect();
    assert_eq!(paths, vec!["src/lib.rs"]);
    let env = build_env("Linux", &OsVersion::Unknown, "x86_64", "now");
    let manifest = write_manifest(&cfg, "/work/demo", env, &files, None, &dirs(&["secrets", "src"]));
    assert_eq!(manifest.ignored_files, vec!["*.md", "secrets/*"]);
    assert!(!manifest.files.iter().any(|f| f.path == "README.md" || f.path == "secrets/key.txt"));
    assert_eq!(manifest.directory_tree, "demo\n├── secrets\n├── src\n└── src/lib.rs\n");
}

#[test]
fn overlay_patterns_follow_those_of_the_caller() {
    let extra = vec![String::from("*.md"), String::from("secrets/*")];
    let overlay = "{ ignore: ['*.log', \"tmp/\"] }";
    let cfg = Config::load("/work/demo", "out.json", &extra, None, true, Some(overlay)).expect("the overlay parses");
    assert_eq!(cfg.extra_ignores, vec!["*.md", "secrets/*", "*.log", "tmp/"]);
    let candidates = vec![readable("a.log", b"x\n"), readable("tmp/x.txt", b"x\n"), readable("keep.txt", b"x\n")];
    let files = collect(&cfg, &candidates).expect("all files are readable");
    assert_eq!(files.len(), 1);
    assert_eq!(files[0].path, "keep.txt");
    let env = build_env("Linux", &OsVersion::Unknown, "x86_64", "now");
    let manifest = write_manifest(&cfg, "/work/demo", env, &files, None, &Vec::new());
    assert_eq!(manifest.ignored_files, vec!["*.md", "secrets/*", "*.log", "tmp/"]);
}

#[test]
fn nothing_below_a_pruned_directory_is_listed() {
    let cfg = config(&[]);
    let candidates = vec![
        readable("node_modules/pkg/readme.txt", b"text\n"),
        readable("src/node_modules/deep/a.rs", b"fn a() {}\n"),
        readable("target/debug/notes.txt", b"text\n"),
        readable(".git/config", b"[core]\n"),
        readable("src/a.rs", b"fn a() {}\n"),
    ];
    let files = collect(&cfg, &candidates).expect("all files are readable");
    let paths: Vec<&str> = files.iter().map(|f| f.path.as_str()).collect();
    assert_eq!(paths, vec!["src/a.rs"]);
    let tree = ascii_tree(
        &cfg,
        "/work/demo",
        &dirs(&["node_modules", "node_modules/pkg", "src", "src/node_modules", "target", ".git"]),
        &files,
    );
    assert_eq!(tree, "demo\n├── src\n└── src/a.rs\n");
}

#[test]
fn pruned_files_are_not_even_read() {
    let cfg = config(&["*.tmp"]);
    let candidates =
        vec![unreadable("build/locked.txt", "permission denied"), unreadable("x.tmp", "gone"), readable("a.txt", b"a\n")];
    let files = collect(&cfg, &candidates).expect("what is passed over cannot fail");
    assert_eq!(files.len(), 1);
}

#[test]
fn first_unreadable_file_ends_the_walk() {
    let cfg = config(&[]);
    let candidates = vec![
        readable("a.txt", b"a\n"),
        unreadable("b.txt", "permission denied"),
        unreadable("c.txt", "vanished"),
        readable("d.txt", b"d\n"),
    ];
    match collect(&cfg, &candidates) {
        Err(WalkError::Unreadable { path, reason }) => {
            assert_eq!(path, "b.txt");
            assert_eq!(reason, "permission denied");
        },
        Ok(_) => panic!("an unreadable file must fail the walk"),
    }
}

#[test]
fn unreadable_binary_fails_too() {
    let cfg = config(&[]);
    let candidates = vec![unreadable("logo.png", "permission denied")];
    assert!(collect(&cfg, &candidates).is_err());
}

#[test]
fn entries_keep_the_order_of_the_walk() {
    let cfg = config(&[]);
    let candidates = vec![readable("z.txt", b"z"), readable("a.txt", b"a"), readable("m/x.txt", b"m")];
    let files = collect(&cfg, &candidates).expect("all files are readable");
    let paths: Vec<&str> = files.iter().map(|f| f.path.as_str()).collect();
    assert_eq!(paths, vec!["z.txt", "a.txt", "m/x.txt"]);
    let tree = ascii_tree(&cfg, "/work/demo", &dirs(&["m"]), &files);
    assert_eq!(tree, "demo\n├── a.txt\n├── m\n└── m/x.txt\n├── z.txt\n");
}

#[test]
fn no_candidates_no_entries() {
    let cfg = config(&[]);
    let files = collect(&cfg, &Vec::new()).expect("nothing to fail on");
    assert!(files.is_empty());
    assert_eq!(ascii_tree(&cfg, "/work/demo", &Vec::new(), &files), "demo\n");
}

#[test]
fn tree_indents_by_depth() {
    let cfg = config(&[]);
    let candidates = vec![
        readable("a/b/c/d.txt", b"d"),
        readable("a/b/e.txt", b"e"),
        readable("top.txt", b"t"),
    ];
    let files = collect(&cfg, &candidates).expect("all files are readable");
    let tree = ascii_tree(&cfg, "/", &dirs(&["a", "a/b", "a/b/c"]), &files);
    let want = "\n├── a\n└── a/b\n│   └── a/b/c\n│   │   └── a/b/c/d.txt\n│   └── a/b/e.txt\n├── top.txt\n";
    assert_eq!(tree, want);
}

#[test]
fn tree_is_sorted_as_strings() {
    let cfg = config(&[]);
    let tree = ascii_tree(&cfg, "root", &dirs(&["b", "a-b", "a", "a/b", "B"]), &Vec::new());
    assert_eq!(tree, "root\n├── B\n├── a\n├── a-b\n└── a/b\n├── b\n");
}

#[test]
fn same_run_twice_same_manifest_but_for_the_time() {
    let cfg = config(&["*.md"]);
    let candidates = vec![readable("src/a.rs", b"use x::y;\n"), readable("b.txt", b"b\n"), readable("c.md", b"c\n")];
    let d = dirs(&["src"]);
    let run = |at: &str| {
        let files = collect(&cfg, &candidates).expect("all files are readable");
        let graph = mnemosyne::deps::build(&files);
        let env = build_env("Linux", &OsVersion::Rolling(None), "aarch64", at);
        write_manifest(&cfg, "/work/demo", env, &files, Some(graph), &d)
    };
    let first = run("2024-01-01T00:00:00+00:00");
    let second = run("2024-06-01T12:00:00+00:00");
    assert_ne!(first.env.generated_at, second.env.generated_at);
    assert_eq!(first.env.os, second.env.os);
    assert_eq!(first.env.arch, second.env.arch);
    assert_eq!(first.schema, second.schema);
    assert_eq!(first.project_name, second.project_name);
    assert_eq!(first.instruction, second.instruction);
    assert_eq!(first.directory_tree, second.directory_tree);
    assert_eq!(first.ignored_files, second.ignored_files);
    assert_eq!(format!("{:?}", first.files), format!("{:?}", second.files));
    assert_eq!(format!("{:?}", first.dependency_graph), format!("{:?}", second.dependency_graph));
}

#[test]
fn ignored_files_are_absent_and_the_others_present() {
    let cfg = config(&["*.md", "secrets/*"]);
    let candidates = vec![
        readable("README.md", b"# readme\n"),
        readable("secrets/key.txt", b"hunter2\n"),
        readable("src/a.txt", b"plain text\n"),
    ];
    let files = collect(&cfg, &candidates).expect("all files are readable");
    assert!(!files.iter().any(|f| f.path == "README.md"));
    assert!(!files.iter().any(|f| f.path == "secrets/key.txt"));
    assert_eq!(files.len(), 1);
    assert_eq!(files[0].path, "src/a.txt");
    assert_eq!(files[0].text, "plain text\n");
}

#[test]
fn pattern_beyond_the_bound_keeps_nothing_out() {
    let deep = format!("{}a{}", "{".repeat(100_000), "}".repeat(100_000));
    let cfg = config(&[&deep]);
    let candidates = vec![readable("a", b"a\n"), readable("b.txt", b"b\n")];
    let files = collect(&cfg, &candidates).expect("all files are readable");
    assert_eq!(files.len(), 2);
    let tree = ascii_tree(&cfg, "/work/demo", &Vec::new(), &files);
    assert_eq!(tree, "demo\n├── a\n├── b.txt\n");
}
