//! The classifier: which directories are pruned and which files are left out
//! of the manifest as not being text.
//!
//! Both answers depend only on the path and, for a file, on the first bytes
//! of its content.

use crate::path::{extension, extension_of, segments};
use crate::text::{
    begins_with, chars_of, copy_range, is_text, lower_chars, opt_text, split_chars, starts_with, string_of,
    string_views,
    to_ascii_lower, views,
};
use vstd::prelude::*;

verus! {

/// How many bytes from the start of a file the classifier looks at.
pub const SNIFF_LEN: usize = 4096;

/// The extensions, in lower case, of files that are never text: images, audio,
/// video, fonts, archives, executables and libraries, office documents,
/// compiled code, temporary and backup files.
pub open spec fn is_binary_extension(ext: Seq<char>) -> bool {
    ||| ext == "png"@
    ||| ext == "jpg"@
    ||| ext == "jpeg"@
    ||| ext == "gif"@
    ||| ext == "bmp"@
    ||| ext == "ico"@
    ||| ext == "webp"@
    ||| ext == "tif"@
    ||| ext == "tiff"@
    ||| ext == "svg"@
    ||| ext == "heic"@
    ||| ext == "psd"@
    ||| ext == "ai"@
    ||| ext == "mp3"@
    ||| ext == "wav"@
    ||| ext == "flac"@
    ||| ext == "ogg"@
    ||| ext == "m4a"@
    ||| ext == "aac"@
    ||| ext == "mp4"@
    ||| ext == "m4v"@
    ||| ext == "mov"@
    ||| ext == "avi"@
    ||| ext == "mkv"@
    ||| ext == "webm"@
    ||| ext == "ttf"@
    ||| ext == "otf"@
    ||| ext == "woff"@
    ||| ext == "woff2"@
    ||| ext == "zip"@
    ||| ext == "tar"@
    ||| ext == "gz"@
    ||| ext == "bz2"@
    ||| ext == "xz"@
    ||| ext == "lz"@
    ||| ext == "lzma"@
    ||| ext == "7z"@
    ||| ext == "rar"@
    ||| ext == "iso"@
    ||| ext == "exe"@
    ||| ext == "dll"@
    ||| ext == "so"@
    ||| ext == "dylib"@
    ||| ext == "a"@
    ||| ext == "lib"@
    ||| ext == "o"@
    ||| ext == "obj"@
    ||| ext == "class"@
    ||| ext == "jar"@
    ||| ext == "war"@
    ||| ext == "ear"@
    ||| ext == "wasm"@
    ||| ext == "pdf"@
    ||| ext == "doc"@
    ||| ext == "docx"@
    ||| ext == "odt"@
    ||| ext == "xls"@
    ||| ext == "xlsx"@
    ||| ext == "ods"@
    ||| ext == "ppt"@
    ||| ext == "pptx"@
    ||| ext == "odp"@
    ||| ext == "bin"@
    ||| ext == "dat"@
    ||| ext == "pdb"@
    ||| ext == "dSYM"@
    ||| ext == "dmg"@
    ||| ext == "pyc"@
    ||| ext == "pyo"@
    ||| ext == "pyd"@
    ||| ext == "tmp"@
    ||| ext == "temp"@
    ||| ext == "bak"@
}

/// The beginnings of the content types of files that are never text.
pub open spec fn is_binary_mime(mime: Seq<char>) -> bool {
    ||| starts_with(mime, "image/"@)
    ||| starts_with(mime, "audio/"@)
    ||| starts_with(mime, "video/"@)
    ||| starts_with(mime, "font/"@)
    ||| starts_with(mime, "application/zip"@)
    ||| starts_with(mime, "application/x-bzip2"@)
    ||| starts_with(mime, "application/x-xz"@)
    ||| starts_with(mime, "application/x-7z-compressed"@)
    ||| starts_with(mime, "application/x-rar-compressed"@)
    ||| starts_with(mime, "application/gzip"@)
    ||| starts_with(mime, "application/x-archive"@)
    ||| starts_with(mime, "application/x-executable"@)
    ||| starts_with(mime, "application/x-mach-binary"@)
    ||| starts_with(mime, "application/x-sharedlib"@)
    ||| starts_with(mime, "application/wasm"@)
    ||| starts_with(mime, "application/octet-stream"@)
    ||| starts_with(mime, "application/pdf"@)
    ||| starts_with(mime, "application/vnd.ms-"@)
    ||| starts_with(mime, "application/vnd.openxmlformats-officedocument"@)
}

/// The names of directories that are never entered: those of version control,
/// build output, dependency caches, editors, continuous integration and tool
/// caches.
pub open spec fn is_pruned_name(name: Seq<char>) -> bool {
    ||| name == ".git"@
    ||| name == ".hg"@
    ||| name == ".svn"@
    ||| name == "node_modules"@
    ||| name == "target"@
    ||| name == "build"@
    ||| name == "dist"@
    ||| name == "vendor"@
    ||| name == "coverage"@
    ||| name == ".cargo"@
    ||| name == ".gradle"@
    ||| name == ".mvn"@
    ||| name == ".venv"@
    ||| name == ".idea"@
    ||| name == ".vscode"@
    ||| name == ".classpath"@
    ||| name == ".settings"@
    ||| name == ".pytest_cache"@
    ||| name == ".mypy_cache"@
    ||| name == ".github"@
    ||| name == ".gitlab"@
    ||| name == ".circleci"@
    ||| name == "__pycache__"@
    ||| name == ".cache"@
    ||| name == ".DS_Store"@
}

/// Whether the extension of `path`, in lower case, is one of a file that is
/// never text.
pub open spec fn has_binary_extension(path: Seq<char>) -> bool {
    match extension(path) {
        Some(ext) => is_binary_extension(to_ascii_lower(ext)),
        None => false,
    }
}

/// Whether `path` lies in or below a pruned directory: one of its segments
/// is a pruned name, compared letter for letter.
pub open spec fn prunes(path: Seq<char>) -> bool {
    exists|i: int| 0 <= i < segments(path).len() && is_pruned_name(#[trigger] segments(path)[i])
}

/// Whether a file is left out, given its path, the content type found in its
/// first bytes, if any, and those bytes: its extension is binary, or the
/// content type is, or the bytes hold a zero.
pub open spec fn excludes(path: Seq<char>, mime: Option<Seq<char>>, prefix: Seq<u8>) -> bool {
    ||| has_binary_extension(path)
    ||| (mime matches Some(m) && is_binary_mime(m))
    ||| prefix.contains(0u8)
}

/// The content type that the signatures known to the `infer` crate find at the
/// start of `bytes`, if any.
pub uninterp spec fn sniffed_mime(bytes: Seq<u8>) -> Option<Seq<char>>;

/// The content type found in the first bytes of a file, if any. Content
/// types are looked for where `usize` has 64 bits, which holds the offsets
/// that the signatures compute from the bytes; on a narrower target none is
/// found.
pub open spec fn content_type(bytes: Seq<u8>) -> Option<Seq<char>> {
    if usize::BITS == 64 {
        sniffed_mime(bytes)
    } else {
        None
    }
}

/// `infer::get` tries its built-in signatures in a fixed order on the buffer
/// and returns the first that matches; `Type::mime_type` reads the content
/// type out of it. The result depends on the bytes alone. The matchers add
/// offsets that they read from the bytes in `usize`; with 64 bits these sums
/// cannot overflow.
#[verifier::external_body]
fn sniff(bytes: &[u8]) -> (mime: Option<&'static str>)
    requires
        usize::BITS == 64,
    ensures
        opt_text(mime) == sniffed_mime(bytes@),
{
    infer::get(bytes).map(|kind| kind.mime_type())
}

/// The content type found in `bytes`, if any.
fn find_content_type(bytes: &[u8]) -> (mime: Option<&'static str>)
    ensures
        opt_text(mime) == content_type(bytes@),
{
    if usize::BITS == 64 {
        sniff(bytes)
    } else {
        None
    }
}

fn binary_extension(ext: &[char]) -> (r: bool)
    ensures
        r == is_binary_extension(ext@),
{
    is_text(ext, "png")
        || is_text(ext, "jpg")
        || is_text(ext, "jpeg")
        || is_text(ext, "gif")
        || is_text(ext, "bmp")
        || is_text(ext, "ico")
        || is_text(ext, "webp")
        || is_text(ext, "tif")
        || is_text(ext, "tiff")
        || is_text(ext, "svg")
        || is_text(ext, "heic")
        || is_text(ext, "psd")
        || is_text(ext, "ai")
        || is_text(ext, "mp3")
        || is_text(ext, "wav")
        || is_text(ext, "flac")
        || is_text(ext, "ogg")
        || is_text(ext, "m4a")
        || is_text(ext, "aac")
        || is_text(ext, "mp4")
        || is_text(ext, "m4v")
        || is_text(ext, "mov")
        || is_text(ext, "avi")
        || is_text(ext, "mkv")
        || is_text(ext, "webm")
        || is_text(ext, "ttf")
        || is_text(ext, "otf")
        || is_text(ext, "woff")
        || is_text(ext, "woff2")
        || is_text(ext, "zip")
        || is_text(ext, "tar")
        || is_text(ext, "gz")
        || is_text(ext, "bz2")
        || is_text(ext, "xz")
        || is_text(ext, "lz")
        || is_text(ext, "lzma")
        || is_text(ext, "7z")
        || is_text(ext, "rar")
        || is_text(ext, "iso")
        || is_text(ext, "exe")
        || is_text(ext, "dll")
        || is_text(ext, "so")
        || is_text(ext, "dylib")
        || is_text(ext, "a")
        || is_text(ext, "lib")
        || is_text(ext, "o")
        || is_text(ext, "obj")
        || is_text(ext, "class")
        || is_text(ext, "jar")
        || is_text(ext, "war")
        || is_text(ext, "ear")
        || is_text(ext, "wasm")
        || is_text(ext, "pdf")
        || is_text(ext, "doc")
        || is_text(ext, "docx")
        || is_text(ext, "odt")
        || is_text(ext, "xls")
        || is_text(ext, "xlsx")
        || is_text(ext, "ods")
        || is_text(ext, "ppt")
        || is_text(ext, "pptx")
        || is_text(ext, "odp")
        || is_text(ext, "bin")
        || is_text(ext, "dat")
        || is_text(ext, "pdb")
        || is_text(ext, "dSYM")
        || is_text(ext, "dmg")
        || is_text(ext, "pyc")
        || is_text(ext, "pyo")
        || is_text(ext, "pyd")
        || is_text(ext, "tmp")
        || is_text(ext, "temp")
        || is_text(ext, "bak")
}

fn binary_mime(mime: &[char]) -> (r: bool)
    ensures
        r == is_binary_mime(mime@),
{
    begins_with(mime, "image/")
        || begins_with(mime, "audio/")
        || begins_with(mime, "video/")
        || begins_with(mime, "font/")
        || begins_with(mime, "application/zip")
        || begins_with(mime, "application/x-bzip2")
        || begins_with(mime, "application/x-xz")
        || begins_with(mime, "application/x-7z-compressed")
        || begins_with(mime, "application/x-rar-compressed")
        || begins_with(mime, "application/gzip")
        || begins_with(mime, "application/x-archive")
        || begins_with(mime, "application/x-executable")
        || begins_with(mime, "application/x-mach-binary")
        || begins_with(mime, "application/x-sharedlib")
        || begins_with(mime, "application/wasm")
        || begins_with(mime, "application/octet-stream")
        || begins_with(mime, "application/pdf")
        || begins_with(mime, "application/vnd.ms-")
        || begins_with(mime, "application/vnd.openxmlformats-officedocument")
}

fn pruned_name(name: &[char]) -> (r: bool)
    ensures
        r == is_pruned_name(name@),
{
    is_text(name, ".git")
        || is_text(name, ".hg")
        || is_text(name, ".svn")
        || is_text(name, "node_modules")
        || is_text(name, "target")
        || is_text(name, "build")
        || is_text(name, "dist")
        || is_text(name, "vendor")
        || is_text(name, "coverage")
        || is_text(name, ".cargo")
        || is_text(name, ".gradle")
        || is_text(name, ".mvn")
        || is_text(name, ".venv")
        || is_text(name, ".idea")
        || is_text(name, ".vscode")
        || is_text(name, ".classpath")
        || is_text(name, ".settings")
        || is_text(name, ".pytest_cache")
        || is_text(name, ".mypy_cache")
        || is_text(name, ".github")
        || is_text(name, ".gitlab")
        || is_text(name, ".circleci")
        || is_text(name, "__pycache__")
        || is_text(name, ".cache")
        || is_text(name, ".DS_Store")
}

fn binary_extension_of(path: &[char]) -> (r: bool)
    ensures
        r == has_binary_extension(path@),
{
    match extension_of(path) {
        Some(ext) => {
            let low = lower_chars(ext.as_slice());
            binary_extension(low.as_slice())
        },
        None => false,
    }
}

/// Whether `bytes` holds a zero byte.
pub fn has_nul(bytes: &[u8]) -> (r: bool)
    ensures
        r == bytes@.contains(0u8),
{
    let mut i: usize = 0;
    while i < bytes.len()
        invariant
            i <= bytes.len(),
            forall|k: int| 0 <= k < i ==> bytes@[k] != 0u8,
        decreases bytes.len() - i,
    {
        if bytes[i] == 0 {
            return true;
        }
        i = i + 1;
    }
    false
}

/// Whether the file at `path` is left out of the manifest, given the content
/// type `mime` found in `first_chunk`, the first bytes of its content.
pub fn file_given_mime(path: &str, mime: Option<&str>, first_chunk: &[u8]) -> (excluded: bool)
    ensures
        excluded == excludes(path@, opt_text(mime), first_chunk@),
{
    let chars = chars_of(path);
    if binary_extension_of(chars.as_slice()) {
        return true;
    }
    if let Some(m) = mime {
        let found = chars_of(m);
        if binary_mime(found.as_slice()) {
            return true;
        }
    }
    has_nul(first_chunk)
}

/// Whether the file at `path` is left out of the manifest, given
/// `first_chunk`, the first bytes of its content: by its extension, by the
/// content type that the bytes show, or by a zero among the bytes.
pub fn file(path: &str, first_chunk: &[u8]) -> (excluded: bool)
    ensures
        excluded == excludes(path@, content_type(first_chunk@), first_chunk@),
{
    file_given_mime(path, find_content_type(first_chunk), first_chunk)
}

/// Whether `path` lies in or below a directory that is never entered.
pub fn directory(path: &str) -> (pruned: bool)
    ensures
        pruned == prunes(path@),
{
    let chars = chars_of(path);
    let segs = split_chars(chars.as_slice(), '/');
    let mut i: usize = 0;
    while i < segs.len()
        invariant
            i <= segs.len(),
            views(segs@) == segments(path@),
            forall|k: int| 0 <= k < i ==> !is_pruned_name(#[trigger] segments(path@)[k]),
        decreases segs.len() - i,
    {
        assert(views(segs@)[i as int] == segs@[i as int]@);
        if pruned_name(segs[i].as_slice()) {
            return true;
        }
        i = i + 1;
    }
    false
}

/// Whether the one line `pattern` of an ignore file at the root, read as
/// `git` reads such lines, ignores `path` or a directory above it. `path` is
/// relative to the root; `is_dir` says whether it names a directory. The
/// path is taken apart by the rules of the system that the program is built
/// for: where a backslash separates segments, it does so here as well.
pub uninterp spec fn glob_ignores(pattern: Seq<char>, path: Seq<char>, is_dir: bool) -> bool;

/// How many opening braces a pattern may hold. Each opens a group of
/// alternatives, groups may nest, and a pattern is worked through group
/// within group.
pub const MAX_PATTERN_BRACES: usize = 64;

/// The number of opening braces in `pattern`.
pub open spec fn open_braces(pattern: Seq<char>) -> nat
    decreases pattern.len(),
{
    if pattern.len() == 0 {
        0
    } else {
        open_braces(pattern.drop_last()) + if pattern.last() == '{' {
            1nat
        } else {
            0nat
        }
    }
}

/// Whether `pattern` is one that is matched at all: it holds no more than
/// `MAX_PATTERN_BRACES` opening braces.
pub open spec fn is_matchable(pattern: Seq<char>) -> bool {
    open_braces(pattern) <= MAX_PATTERN_BRACES
}

/// A character that separates the segments of a path on some system.
pub open spec fn is_separator(c: char) -> bool {
    c == '/' || c == '\\'
}

/// Whether `path` begins at a root of the file system and so is no path
/// below the project's root: it begins with a separator, or with a drive,
/// a colon and a separator.
pub open spec fn is_rooted(path: Seq<char>) -> bool {
    ||| path.len() > 0 && is_separator(path[0])
    ||| path.len() > 2 && path[1] == ':' && is_separator(path[2])
}

/// Whether `path` begins with `./`.
pub open spec fn begins_at_dot(path: Seq<char>) -> bool {
    path.len() >= 2 && path[0] == '.' && path[1] == '/'
}

/// `path` without the `./` at its start, however often it stands there.
pub open spec fn below_root(path: Seq<char>) -> Seq<char>
    decreases path.len(),
{
    if begins_at_dot(path) {
        below_root(path.skip(2))
    } else {
        path
    }
}

/// Whether one of `patterns` ignores `path`. Each pattern is read alone, as
/// the one line of an ignore file: a line that begins with `!` ignores
/// nothing, and it takes nothing back that another pattern ignores. A
/// pattern with more opening braces than `MAX_PATTERN_BRACES` ignores
/// nothing, as a line does that is no valid glob. A `./` at the start of the
/// path counts for nothing; no pattern ignores a path that is then rooted.
pub open spec fn ignores(patterns: Seq<Seq<char>>, path: Seq<char>, is_dir: bool) -> bool {
    !is_rooted(below_root(path)) && exists|i: int|
        0 <= i < patterns.len() && is_matchable(#[trigger] patterns[i]) && glob_ignores(
            patterns[i],
            below_root(path),
            is_dir,
        )
}

/// Whether the walk passes over `path`: it lies in or below a pruned
/// directory, or one of `patterns` ignores it.
pub open spec fn skips(patterns: Seq<Seq<char>>, path: Seq<char>, is_dir: bool) -> bool {
    prunes(path) || ignores(patterns, path, is_dir)
}

/// A `Gitignore` of the `ignore` crate, built by `GitignoreBuilder` from the
/// one line `pattern`, is asked by `matched_path_or_any_parents` whether it
/// ignores `path` or one of the directories above it. A line that is no valid
/// glob gives rules that ignore nothing. The answer depends on the line, the
/// path and `is_dir` alone. Before it matches, the crate takes one `./` and
/// then one separator off the start of the path, and it panics where what is
/// left is rooted: so the path may neither be rooted nor begin with `./`.
/// The glob parser of the `globset` crate opens a group at each `{` and
/// works through nested groups by calling itself, without a limit of its
/// own: so the pattern may hold only so many opening braces.
#[verifier::external_body]
fn pattern_ignores(pattern: &str, path: &str, is_dir: bool) -> (ignored: bool)
    requires
        !is_rooted(path@),
        !begins_at_dot(path@),
        is_matchable(pattern@),
    ensures
        ignored == glob_ignores(pattern@, path@, is_dir),
{
    let mut builder = ignore::gitignore::GitignoreBuilder::new("");
    if builder.add_line(None, pattern).is_err() {
        return false;
    }
    match builder.build() {
        Ok(rules) => rules.matched_path_or_any_parents(path, is_dir).is_ignore(),
        Err(_) => false,
    }
}

/// Taking one `./` off the start of a path leaves what is below the root
/// as it was.
proof fn lemma_below_root_step(chars: Seq<char>, i: int)
    requires
        0 <= i,
        i + 2 <= chars.len(),
        chars[i] == '.',
        chars[i + 1] == '/',
    ensures
        below_root(chars.skip(i)) == below_root(chars.skip(i + 2)),
{
    let rest = chars.skip(i);
    assert(rest[0] == '.' && rest[1] == '/');
    assert(rest.skip(2) =~= chars.skip(i + 2));
}

/// A path that does not begin with `./` is what is below the root.
proof fn lemma_below_root_done(chars: Seq<char>, i: int)
    requires
        0 <= i <= chars.len(),
        !(i + 2 <= chars.len() && chars[i] == '.' && chars[i + 1] == '/'),
    ensures
        below_root(chars.skip(i)) == chars.subrange(i, chars.len() as int),
        !begins_at_dot(chars.subrange(i, chars.len() as int)),
{
    let rest = chars.skip(i);
    if rest.len() >= 2 {
        assert(rest[0] == chars[i]);
        assert(rest[1] == chars[i + 1]);
    }
    assert(rest =~= chars.subrange(i, chars.len() as int));
}

/// `path` without the `./` at its start, however often it stands there.
pub fn strip_dots(path: &str) -> (rest: Vec<char>)
    ensures
        rest@ == below_root(path@),
        !begins_at_dot(rest@),
{
    let chars = chars_of(path);
    let n = chars.len();
    let mut i: usize = 0;
    let mut more = true;
    proof {
        assert(chars@.skip(0) =~= chars@);
    }
    while more
        invariant
            i <= n,
            n == chars.len(),
            below_root(path@) == below_root(chars@.skip(i as int)),
            !more ==> !(i + 2 <= n && chars@[i as int] == '.' && chars@[i + 1] == '/'),
        decreases n - i + if more { 1int } else { 0int },
    {
        if n - i >= 2 && chars[i] == '.' && chars[i + 1] == '/' {
            proof {
                lemma_below_root_step(chars@, i as int);
            }
            i = i + 2;
        } else {
            more = false;
        }
    }
    proof {
        lemma_below_root_done(chars@, i as int);
    }
    copy_range(chars.as_slice(), i, n)
}

/// Whether `pattern` holds no more than `MAX_PATTERN_BRACES` opening braces.
pub fn matchable(pattern: &str) -> (ok: bool)
    ensures
        ok == is_matchable(pattern@),
{
    let chars = chars_of(pattern);
    let mut n: usize = 0;
    let mut i: usize = 0;
    while i < chars.len()
        invariant
            i <= chars.len(),
            chars@ == pattern@,
            n == open_braces(chars@.take(i as int)),
            n <= i,
        decreases chars.len() - i,
    {
        proof {
            assert(chars@.take(i + 1).drop_last() == chars@.take(i as int));
        }
        if chars[i] == '{' {
            n = n + 1;
        }
        i = i + 1;
    }
    proof {
        assert(chars@.take(i as int) == chars@);
    }
    n <= MAX_PATTERN_BRACES
}

/// Whether one of `patterns` ignores `path`, which is relative to the root.
pub fn ignored(patterns: &Vec<String>, path: &str, is_dir: bool) -> (r: bool)
    ensures
        r == ignores(string_views(patterns@), path@, is_dir),
{
    let rest = strip_dots(path);
    let n = rest.len();
    if n > 0 && (rest[0] == '/' || rest[0] == '\\') {
        return false;
    }
    if n > 2 && rest[1] == ':' && (rest[2] == '/' || rest[2] == '\\') {
        return false;
    }
    let plain = string_of(rest.as_slice());
    let mut i: usize = 0;
    while i < patterns.len()
        invariant
            i <= patterns.len(),
            plain@ == below_root(path@),
            !is_rooted(plain@),
            !begins_at_dot(plain@),
            forall|k: int|
                0 <= k < i ==> !(is_matchable(#[trigger] string_views(patterns@)[k]) && glob_ignores(
                    string_views(patterns@)[k],
                    plain@,
                    is_dir,
                )),
        decreases patterns.len() - i,
    {
        assert(string_views(patterns@)[i as int] == patterns@[i as int]@);
        if matchable(patterns[i].as_str()) && pattern_ignores(patterns[i].as_str(), plain.as_str(), is_dir) {
            return true;
        }
        i = i + 1;
    }
    false
}

/// Whether the walk passes over `path`, which is relative to the root.
pub fn skipped(patterns: &Vec<String>, path: &str, is_dir: bool) -> (r: bool)
    ensures
        r == skips(string_views(patterns@), path@, is_dir),
{
    directory(path) || ignored(patterns, path, is_dir)
}

/// The classifier is a function of its inputs: equal paths and equal first
/// bytes get equal answers, whatever was asked before.
pub proof fn lemma_classifier_is_pure(
    path_a: Seq<char>,
    bytes_a: Seq<u8>,
    path_b: Seq<char>,
    bytes_b: Seq<u8>,
)
    requires
        path_a == path_b,
        bytes_a == bytes_b,
    ensures
        excludes(path_a, content_type(bytes_a), bytes_a) == excludes(
            path_b,
            content_type(bytes_b),
            bytes_b,
        ),
        prunes(path_a) == prunes(path_b),
{
}

/// A binary extension alone leaves a file out, whatever its content is.
pub proof fn lemma_extension_suffices(path: Seq<char>, mime: Option<Seq<char>>, prefix: Seq<u8>)
    requires
        has_binary_extension(path),
    ensures
        excludes(path, mime, prefix),
{
}

/// A zero byte among the first bytes leaves a file out, whatever its name
/// and whatever content type was found.
pub proof fn lemma_nul_suffices(path: Seq<char>, mime: Option<Seq<char>>, prefix: Seq<u8>)
    requires
        prefix.contains(0u8),
    ensures
        excludes(path, mime, prefix),
{
}

} // verus!
