use mnemosyne::skip;
use mnemosyne::skip::{
    directory, file_given_mime, has_nul, ignored, matchable, skipped, strip_dots, MAX_PATTERN_BRACES, SNIFF_LEN,
};
use mnemosyne::fs_walk::to_entry;

#[test]
fn png_name_is_excluded_whatever_it_holds() {
    assert!(skip::file("a.png", b"plain text, nothing else"));
    assert!(skip::file("a.png", b""));
    assert!(skip::file("deep/down/a.PNG", b"still text"));
    assert!(file_given_mime("a.png", None, b"text"));
    assert!(file_given_mime("a.png", Some("text/plain"), b"text"));
}

#[test]
fn nul_byte_excludes_a_file_of_unknown_kind() {
    assert!(skip::file("data.xyz", b"abc\0def"));
    assert!(skip::file("noextension", &[b'a', 0]));
    assert!(!skip::file("data.xyz", b"abcdef"));
    assert!(file_given_mime("data.xyz", None, b"abc\0"));
    assert!(!file_given_mime("data.xyz", None, b"abc"));
}

#[test]
fn nul_byte_counts_only_among_the_first_bytes() {
    let mut raw = vec![b'a'; SNIFF_LEN];
    raw.push(0);
    assert!(to_entry("late.txt", &raw).is_some());
    raw[SNIFF_LEN - 1] = 0;
    assert!(to_entry("late.txt", &raw).is_none());
}

#[test]
fn content_type_excludes_a_misnamed_image() {
    let png = [0x89u8, b'P', b'N', b'G', 0x0d, 0x0a, 0x1a, 0x0a, 1, 2, 3, 4];
    assert!(skip::file("picture.txt", &png));
    let jpeg = [0xffu8, 0xd8, 0xff, 0xaa];
    assert!(skip::file("picture", &jpeg));
    let pdf = b"%PDF-1.7 and so on";
    assert!(skip::file("paper.txt", pdf));
}

#[test]
fn text_content_types_are_kept() {
    assert!(!skip::file("page.html", b"<html ><body>hi</body></html>"));
    assert!(!skip::file("run.sh", b"#!/bin/sh\necho hi\n"));
}

#[test]
fn denied_content_types_go_by_their_beginning() {
    for mime in [
        "image/png",
        "audio/mpeg",
        "video/mp4",
        "font/woff2",
        "application/zip",
        "application/x-bzip2",
        "application/x-xz",
        "application/x-7z-compressed",
        "application/x-rar-compressed",
        "application/gzip",
        "application/x-archive",
        "application/x-executable",
        "application/x-mach-binary",
        "application/x-sharedlib",
        "application/wasm",
        "application/octet-stream",
        "application/pdf",
        "application/vnd.ms-excel",
        "application/vnd.openxmlformats-officedocument.wordprocessingml.document",
    ] {
        assert!(file_given_mime("x", Some(mime), b"t"), "{}", mime);
    }
    for mime in ["text/html", "text/x-shellscript", "application/json", "imag", "", "application/vnd.m"] {
        assert!(!file_given_mime("x", Some(mime), b"t"), "{}", mime);
    }
}

#[test]
fn extensions_are_compared_in_lower_case() {
    for name in ["a.JPG", "b.Jpeg", "c.tar", "d.GZ", "e.so", "f.o", "g.a", "h.7z", "i.pyc", "j.bak", "k.woff2"] {
        assert!(skip::file(name, b"text"), "{}", name);
    }
    for name in ["a.rs", "b.txt", "c.md", "Makefile", ".png", "png", "d.pngx", "e.png.txt", "f.dSYM", "g."] {
        assert!(!skip::file(name, b"text"), "{}", name);
    }
}

#[test]
fn classifier_gives_equal_answers_to_equal_questions() {
    let cases: [(&str, &[u8]); 4] =
        [("a.png", b"x"), ("b.txt", b"x\0"), ("c.txt", b"plain"), ("d", &[0x89, b'P', b'N', b'G', 13, 10, 26, 10])];
    for (path, bytes) in cases {
        let first = skip::file(path, bytes);
        let _ = skip::file("other.bin", b"\0\0");
        let _ = directory("node_modules/x");
        assert_eq!(skip::file(path, bytes), first);
    }
    for path in ["src/a.rs", "target/debug/a", ".git", "a/.github/b"] {
        let first = directory(path);
        let _ = directory("build");
        assert_eq!(directory(path), first);
    }
}

#[test]
fn pruned_names_match_whole_segments() {
    for path in [
        ".git",
        "node_modules/pkg/index.js",
        "a/b/target/c",
        "x/build",
        "dist/",
        "./vendor/x",
        "a/__pycache__/m.pyc",
        ".DS_Store",
        "docs/.cache/x",
        "/abs/.venv/bin",
    ] {
        assert!(directory(path), "{}", path);
    }
    for path in ["", "src/main.rs", "targets/x", "my.git/x", ".Git/config", "Build/out", "a/buildx/b", "node_modules2"] {
        assert!(!directory(path), "{}", path);
    }
}

#[test]
fn has_nul_finds_a_zero_anywhere() {
    assert!(!has_nul(b""));
    assert!(!has_nul(b"abc"));
    assert!(has_nul(b"\0abc"));
    assert!(has_nul(b"abc\0"));
}

#[test]
fn patterns_ignore_as_ignore_files_do() {
    let patterns = vec![String::from("*.md"), String::from("secrets/*")];
    assert!(ignored(&patterns, "README.md", false));
    assert!(ignored(&patterns, "docs/guide.md", false));
    assert!(ignored(&patterns, "secrets/key.txt", false));
    assert!(ignored(&patterns, "secrets/deep/key.txt", false));
    assert!(!ignored(&patterns, "src/main.rs", false));
    assert!(!ignored(&patterns, "secrets", true));
    assert!(!ignored(&patterns, "mysecrets/key.txt", false));
    assert!(!ignored(&Vec::new(), "README.md", false));
}

#[test]
fn dot_slash_at_the_start_counts_for_nothing() {
    let patterns = vec![String::from("*.md"), String::from("secrets/*")];
    assert!(ignored(&patterns, "./README.md", false));
    assert!(ignored(&patterns, "././README.md", false));
    assert!(ignored(&patterns, "./secrets/key.txt", false));
    assert!(!ignored(&patterns, "./src/main.rs", false));
    assert!(!ignored(&patterns, "./", true));
    assert!(!ignored(&patterns, "", true));
    assert!(!ignored(&patterns, ".", true));
    assert!(ignored(&patterns, "a/./b.md", false));
}

#[test]
fn rooted_behind_dot_slash_is_rooted() {
    let patterns = vec![String::from("*.md")];
    for path in [".///x.md", ".//x.md", "././//x.md", "//x.md", "\\x.md", "C:/x.md", "c:\\x.md", "./C:/x.md"] {
        assert!(!ignored(&patterns, path, false), "{}", path);
    }
    assert!(ignored(&patterns, "C:x.md", false));
    assert!(ignored(&patterns, "a:/x.md", false) == false);
}

#[test]
fn rooted_paths_are_never_ignored() {
    let patterns = vec![String::from("*.md")];
    assert!(!ignored(&patterns, "/README.md", false));
    assert!(!skipped(&patterns, "/README.md", false));
    assert!(skipped(&patterns, "/x/target/README.md", false));
}

#[test]
fn directory_patterns_need_a_directory() {
    let patterns = vec![String::from("logs/")];
    assert!(ignored(&patterns, "logs", true));
    assert!(!ignored(&patterns, "logs", false));
    assert!(ignored(&patterns, "logs/today.txt", false));
}

#[test]
fn skipped_is_pruned_or_ignored() {
    let patterns = vec![String::from("*.log")];
    assert!(skipped(&patterns, "a.log", false));
    assert!(skipped(&patterns, "build/a.txt", false));
    assert!(!skipped(&patterns, "src/a.txt", false));
}

#[test]
fn strip_dots_takes_every_leading_dot_slash() {
    let text = |p: &str| strip_dots(p).into_iter().collect::<String>();
    assert_eq!(text("./a"), "a");
    assert_eq!(text("././a/./b"), "a/./b");
    assert_eq!(text(".///a"), "//a");
    assert_eq!(text("a"), "a");
    assert_eq!(text("."), ".");
    assert_eq!(text("./"), "");
    assert_eq!(text(""), "");
    assert_eq!(text(".a/b"), ".a/b");
    assert_eq!(text("../a"), "../a");
}

#[test]
fn pattern_with_too_many_braces_ignores_nothing() {
    let huge = format!("{}a{}", "{".repeat(200_000), "}".repeat(200_000));
    assert!(!matchable(&huge));
    assert!(!ignored(&vec![huge.clone()], "a", false));
    assert!(!skipped(&vec![huge.clone()], "src/a", false));
    let patterns = vec![huge, String::from("*.md")];
    assert!(ignored(&patterns, "README.md", false));
    assert!(!ignored(&patterns, "a", false));
    let over = format!("{}a{}", "{".repeat(MAX_PATTERN_BRACES + 1), "}".repeat(MAX_PATTERN_BRACES + 1));
    assert!(!matchable(&over));
    assert!(!ignored(&vec![over], "a", false));
    let side_by_side = "{a,b}".repeat(MAX_PATTERN_BRACES + 1);
    assert!(!matchable(&side_by_side));
}

#[test]
fn pattern_within_the_bound_is_matched() {
    let nested = format!("{}a{}", "{".repeat(MAX_PATTERN_BRACES), "}".repeat(MAX_PATTERN_BRACES));
    assert!(matchable(&nested));
    assert!(ignored(&vec![nested.clone()], "a", false));
    assert!(!ignored(&vec![nested], "b", false));
    assert!(matchable("*.{md,txt}"));
    assert!(matchable(""));
    let patterns = vec![String::from("*.{md,txt}")];
    assert!(ignored(&patterns, "README.md", false));
    assert!(ignored(&patterns, "docs/notes.txt", false));
    assert!(!ignored(&patterns, "src/main.rs", false));
}

#[test]
fn each_pattern_is_read_alone() {
    assert!(!ignored(&vec![String::from("!*.md")], "README.md", false));
    let patterns = vec![String::from("*.md"), String::from("!README.md")];
    assert!(ignored(&patterns, "README.md", false));
    let patterns = vec![String::from("!README.md"), String::from("*.md")];
    assert!(ignored(&patterns, "README.md", false));
    assert!(!ignored(&vec![String::from("# *.md")], "README.md", false));
    assert!(!ignored(&vec![String::from("")], "README.md", false));
}
