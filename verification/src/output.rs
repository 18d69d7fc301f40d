//! The manifest: the one document that a run produces, with the environment
//! it was made in, the file records, the dependency hints and the directory
//! tree as text.

use crate::config::{Config, ConfigView, UNKNOWN_PROJECT};
use crate::deps::{hint_views, Hint, HintView};
use crate::fs_walk::{chunk_views, entry_views, line_feed, Chunk, ChunkView, FileEntry, FileEntryView};
use crate::path::{depth, depth_of, file_name_or, name_or};
use crate::skip::{prunes, skipped, skips};
use crate::sort::{insert_path, lemma_sorted, lemma_sorted_step, sorted};
use crate::text::{chars_of, clone_strings, push_chars, string_views, views};
use vstd::prelude::*;
use vstd::string::StringExecFns;

verus! {

/// The identifier of the schema that a manifest follows.
pub const SCHEMA_PATH: &'static str =
    "https://raw.githubusercontent.com/pseudofractal/Mnemosyne/refs/heads/main/src/data/schema.json";

/// The preamble that every manifest carries for its reader.
pub const INSTRUCTION: &'static str =
    "This document is a Mnemosyne manifest: a description of the text files of one project. `files` lists each file with its path, its language tag, the SHA-256 digest of its bytes, its size in bytes, its number of tokens and its content in chunks of at most 100 lines; read the chunks of a file in the order of `idx` and join them with line feeds to get its lines back. `directory_tree` shows the layout of the project, `dependency_graph`, where present, holds best-effort hints at which files depend on which, and `ignored_files` lists the extra ignore patterns that were in effect.";

/// The version of an operating system, in one of the forms in which systems
/// report it.
#[derive(Debug)]
pub enum OsVersion {
    /// Nothing is known.
    Unknown,
    /// Major, minor and patch number.
    Semantic(u64, u64, u64),
    /// A rolling release, with its date where it is known.
    Rolling(Option<String>),
    /// Any other form, as text.
    Custom(String),
}

/// The one-digit number `d` as a character.
pub open spec fn digit_char(d: nat) -> char {
    ((48 + d) as u8) as char
}

/// `n` in decimal digits, without leading zeros.
pub open spec fn decimal(n: nat) -> Seq<char>
    decreases n,
{
    if n < 10 {
        seq![digit_char(n)]
    } else {
        decimal(n / 10).push(digit_char(n % 10))
    }
}

/// The version as text: three numbers with dots between them, `rolling`
/// with the date behind a hyphen if there is one, the custom text as it is,
/// or `unknown`.
pub open spec fn version_label(version: OsVersion) -> Seq<char> {
    match version {
        OsVersion::Semantic(major, minor, patch) => decimal(major as nat) + "."@ + decimal(minor as nat)
            + "."@ + decimal(patch as nat),
        OsVersion::Rolling(Some(date)) => "rolling-"@ + date@,
        OsVersion::Rolling(None) => "rolling"@,
        OsVersion::Custom(text) => text@,
        OsVersion::Unknown => "unknown"@,
    }
}

/// Appends `n` in decimal digits to `out`.
pub fn push_decimal(out: &mut String, n: u64)
    ensures
        final(out)@ == old(out)@ + decimal(n as nat),
    decreases n,
{
    if n >= 10 {
        push_decimal(out, n / 10);
    }
    let d: u8 = (n % 10) as u8;
    let ghost head = out@;
    out.push((48 + d) as char);
    proof {
        if n >= 10 {
            assert(head == old(out)@ + decimal((n / 10) as nat));
            assert(head.push(digit_char((n % 10) as nat)) =~= old(out)@ + decimal(n as nat));
        } else {
            assert(head.push(digit_char(n as nat)) =~= old(out)@ + decimal(n as nat));
        }
    }
}

/// The environment in which a manifest was made.
#[derive(Debug)]
pub struct Env {
    /// The name of the operating system and its version.
    pub os: String,
    /// The processor architecture.
    pub arch: String,
    /// The time of the run, in UTC, as RFC 3339 writes it.
    pub generated_at: String,
}

/// What an `Env` stands for.
pub struct EnvView {
    pub os: Seq<char>,
    pub arch: Seq<char>,
    pub generated_at: Seq<char>,
}

impl View for Env {
    type V = EnvView;

    open spec fn view(&self) -> EnvView {
        EnvView { os: self.os@, arch: self.arch@, generated_at: self.generated_at@ }
    }
}

/// The environment block of a manifest: the system's name and version with a
/// space between them, the architecture and the time as they are given.
pub fn build_env(os_type: &str, version: &OsVersion, arch: &str, generated_at: &str) -> (env: Env)
    ensures
        env@ == (EnvView {
            os: os_type@ + " "@ + version_label(*version),
            arch: arch@,
            generated_at: generated_at@,
        }),
{
    let mut os = os_type.to_owned();
    os.append(" ");
    let ghost head = os@;
    match version {
        OsVersion::Semantic(major, minor, patch) => {
            push_decimal(&mut os, *major);
            os.append(".");
            push_decimal(&mut os, *minor);
            os.append(".");
            push_decimal(&mut os, *patch);
        },
        OsVersion::Rolling(Some(date)) => {
            os.append("rolling-");
            os.append(date.as_str());
        },
        OsVersion::Rolling(None) => {
            os.append("rolling");
        },
        OsVersion::Custom(text) => {
            os.append(text.as_str());
        },
        OsVersion::Unknown => {
            os.append("unknown");
        },
    }
    assert(os@ =~= head + version_label(*version));
    Env { os, arch: arch.to_owned(), generated_at: generated_at.to_owned() }
}

/// The name of the project whose root the file system resolves to `root`:
/// the file name of that path, or `unknown` where it has none.
pub fn project_name(root: &str) -> (name: String)
    ensures
        name@ == name_or(root@, UNKNOWN_PROJECT@),
{
    file_name_or(root, UNKNOWN_PROJECT)
}

/// Those of `paths` that the walk does not pass over, in their order.
pub open spec fn kept(patterns: Seq<Seq<char>>, paths: Seq<Seq<char>>, is_dir: bool) -> Seq<Seq<char>>
    decreases paths.len(),
{
    if paths.len() == 0 {
        Seq::<Seq<char>>::empty()
    } else if skips(patterns, paths.last(), is_dir) {
        kept(patterns, paths.drop_last(), is_dir)
    } else {
        kept(patterns, paths.drop_last(), is_dir).push(paths.last())
    }
}

/// The paths of a sequence of entries, in order.
pub open spec fn entry_paths(files: Seq<FileEntryView>) -> Seq<Seq<char>> {
    Seq::new(files.len(), |i: int| files[i].path)
}

/// The paths that the tree shows: the directories that the walk entered and
/// the files of the manifest, without what lies in or below a pruned
/// directory and what one of the ignore patterns ignores.
pub open spec fn tree_paths(
    patterns: Seq<Seq<char>>,
    dirs: Seq<Seq<char>>,
    files: Seq<FileEntryView>,
) -> Seq<Seq<char>> {
    kept(patterns, dirs, true) + kept(patterns, entry_paths(files), false)
}

/// `n` times the indent unit, a vertical bar and three spaces.
pub open spec fn indent(n: nat) -> Seq<char>
    decreases n,
{
    if n == 0 {
        Seq::<char>::empty()
    } else {
        indent((n - 1) as nat) + "│   "@
    }
}

/// The line of the tree for `path`. A path right below the root gets the
/// branch glyph; a deeper one gets the leaf glyph, behind one indent unit for
/// each level beyond the first. Then come the path and a line feed.
pub open spec fn tree_line(path: Seq<char>) -> Seq<char> {
    let d = depth(path);
    if d == 0 {
        "├── "@ + path + line_feed()
    } else {
        indent((d - 1) as nat) + "└── "@ + path + line_feed()
    }
}

/// The lines of the tree for `paths`, in their order.
pub open spec fn tree_lines(paths: Seq<Seq<char>>) -> Seq<char>
    decreases paths.len(),
{
    if paths.len() == 0 {
        Seq::<char>::empty()
    } else {
        tree_lines(paths.drop_last()) + tree_line(paths.last())
    }
}

/// The directory tree as text: the file name of the root, or nothing where it
/// has none, on a line of its own, then one line for each shown path, the
/// paths in ascending order.
pub open spec fn tree_text(
    patterns: Seq<Seq<char>>,
    root: Seq<char>,
    dirs: Seq<Seq<char>>,
    files: Seq<FileEntryView>,
) -> Seq<char> {
    name_or(root, Seq::<char>::empty()) + line_feed() + tree_lines(
        sorted(tree_paths(patterns, dirs, files)),
    )
}

/// Appends the tree's line for `path` to `out`.
fn push_tree_line(out: &mut String, path: &[char])
    ensures
        final(out)@ == old(out)@ + tree_line(path@),
{
    let ghost head = out@;
    let d = depth_of(path);
    if d == 0 {
        out.append("├── ");
    } else {
        let mut k: usize = 1;
        assert(out@ =~= head + indent(0));
        while k < d
            invariant
                1 <= k <= d,
                out@ == head + indent((k - 1) as nat),
            decreases d - k,
        {
            out.append("│   ");
            assert(out@ =~= head + indent(k as nat));
            k = k + 1;
        }
        out.append("└── ");
    }
    push_chars(out, path);
    out.push('\n');
    assert(out@ =~= head + tree_line(path@));
}

/// The directory tree as text. `root` is the root as the file system
/// resolves it, `dirs` the directories that the walk entered, `files` the
/// entries of the manifest; paths are relative to the root. What the extra
/// ignore patterns of `cfg` ignore is not shown.
pub fn ascii_tree(cfg: &Config, root: &str, dirs: &Vec<String>, files: &Vec<FileEntry>) -> (tree: String)
    ensures
        tree@ == tree_text(cfg@.extra_ignores, root@, string_views(dirs@), entry_views(files@)),
{
    let ghost patterns = cfg@.extra_ignores;
    let ghost ds = string_views(dirs@);
    let ghost fs = entry_paths(entry_views(files@));
    let mut shown: Vec<Vec<char>> = Vec::new();
    let mut i: usize = 0;
    proof {
        assert(views(shown@) =~= sorted(kept(patterns, ds.take(0), true)));
    }
    while i < dirs.len()
        invariant
            i <= dirs.len(),
            patterns == string_views(cfg.extra_ignores@),
            ds == string_views(dirs@),
            views(shown@) == sorted(kept(patterns, ds.take(i as int), true)),
        decreases dirs.len() - i,
    {
        proof {
            assert(ds.take(i + 1).drop_last() == ds.take(i as int));
            assert(ds.take(i + 1).last() == dirs@[i as int]@);
            lemma_sorted_step(kept(patterns, ds.take(i as int), true), dirs@[i as int]@);
        }
        if !skipped(&cfg.extra_ignores, dirs[i].as_str(), true) {
            insert_path(&mut shown, chars_of(dirs[i].as_str()));
        }
        i = i + 1;
    }
    let ghost first = kept(patterns, ds, true);
    let mut j: usize = 0;
    proof {
        assert(ds.take(i as int) == ds);
        assert(first + kept(patterns, fs.take(0), false) =~= first);
    }
    while j < files.len()
        invariant
            j <= files.len(),
            patterns == string_views(cfg.extra_ignores@),
            fs == entry_paths(entry_views(files@)),
            views(shown@) == sorted(first + kept(patterns, fs.take(j as int), false)),
        decreases files.len() - j,
    {
        proof {
            let done = kept(patterns, fs.take(j as int), false);
            assert(fs.take(j + 1).drop_last() == fs.take(j as int));
            assert(fs.take(j + 1).last() == files@[j as int].path@);
            lemma_sorted_step(first + done, files@[j as int].path@);
            assert((first + done).push(files@[j as int].path@) =~= first + done.push(files@[j as int].path@));
        }
        if !skipped(&cfg.extra_ignores, files[j].path.as_str(), false) {
            insert_path(&mut shown, chars_of(files[j].path.as_str()));
        }
        j = j + 1;
    }
    proof {
        assert(fs.take(j as int) == fs);
    }
    let mut tree = file_name_or(root, "");
    tree.push('\n');
    let ghost head = tree@;
    let ghost paths = views(shown@);
    proof {
        assert(head =~= name_or(root@, Seq::<char>::empty()) + line_feed()) by {
            reveal_strlit("");
            assert(""@ =~= Seq::<char>::empty());
        }
        assert(tree@ =~= head + tree_lines(paths.take(0)));
    }
    let mut k: usize = 0;
    while k < shown.len()
        invariant
            k <= shown.len(),
            paths == views(shown@),
            tree@ == head + tree_lines(paths.take(k as int)),
        decreases shown.len() - k,
    {
        proof {
            assert(paths.take(k + 1).drop_last() == paths.take(k as int));
            assert(paths.take(k + 1).last() == shown@[k as int]@);
        }
        push_tree_line(&mut tree, shown[k].as_slice());
        assert(tree@ =~= head + tree_lines(paths.take(k + 1)));
        k = k + 1;
    }
    proof {
        assert(paths.take(k as int) == paths);
    }
    tree
}

/// What the manifest records of a file: its entry without the full text.
#[derive(Debug)]
pub struct FileRecord {
    pub path: String,
    pub language: String,
    pub sha256: String,
    pub bytes: usize,
    pub tokens: usize,
    pub chunks: Vec<Chunk>,
}

/// What a `FileRecord` stands for.
pub struct FileRecordView {
    pub path: Seq<char>,
    pub language: Seq<char>,
    pub sha256: Seq<char>,
    pub bytes: nat,
    pub tokens: nat,
    pub chunks: Seq<ChunkView>,
}

impl View for FileRecord {
    type V = FileRecordView;

    open spec fn view(&self) -> FileRecordView {
        FileRecordView {
            path: self.path@,
            language: self.language@,
            sha256: self.sha256@,
            bytes: self.bytes as nat,
            tokens: self.tokens as nat,
            chunks: chunk_views(self.chunks@),
        }
    }
}

/// The views of a sequence of records, element by element.
pub open spec fn record_views(records: Seq<FileRecord>) -> Seq<FileRecordView> {
    Seq::new(records.len(), |i: int| records[i]@)
}

/// The record of an entry.
pub open spec fn record_of(entry: FileEntryView) -> FileRecordView {
    FileRecordView {
        path: entry.path,
        language: entry.language,
        sha256: entry.sha256,
        bytes: entry.bytes,
        tokens: entry.tokens,
        chunks: entry.chunks,
    }
}

/// The records of a sequence of entries, in order.
pub open spec fn records_of(entries: Seq<FileEntryView>) -> Seq<FileRecordView> {
    Seq::new(entries.len(), |i: int| record_of(entries[i]))
}

/// The manifest of a run.
#[derive(Debug)]
pub struct Manifest {
    /// The identifier of the schema.
    pub schema: String,
    /// The name of the project.
    pub project_name: String,
    /// The preamble.
    pub instruction: String,
    /// The environment of the run.
    pub env: Env,
    /// The files, in the order of the walk.
    pub files: Vec<FileRecord>,
    /// The dependency hints, where they were asked for.
    pub dependency_graph: Option<Vec<Hint>>,
    /// The directory tree as text.
    pub directory_tree: String,
    /// The extra ignore patterns that were in effect.
    pub ignored_files: Vec<String>,
}

/// What a `Manifest` stands for.
pub struct ManifestView {
    pub schema: Seq<char>,
    pub project_name: Seq<char>,
    pub instruction: Seq<char>,
    pub env: EnvView,
    pub files: Seq<FileRecordView>,
    pub dependency_graph: Option<Seq<HintView>>,
    pub directory_tree: Seq<char>,
    pub ignored_files: Seq<Seq<char>>,
}

/// The view of optional dependency hints.
pub open spec fn opt_hint_views(graph: Option<Vec<Hint>>) -> Option<Seq<HintView>> {
    match graph {
        Some(hints) => Some(hint_views(hints@)),
        None => None,
    }
}

impl View for Manifest {
    type V = ManifestView;

    open spec fn view(&self) -> ManifestView {
        ManifestView {
            schema: self.schema@,
            project_name: self.project_name@,
            instruction: self.instruction@,
            env: self.env@,
            files: record_views(self.files@),
            dependency_graph: opt_hint_views(self.dependency_graph),
            directory_tree: self.directory_tree@,
            ignored_files: string_views(self.ignored_files@),
        }
    }
}

/// The manifest of a run with configuration `cfg` whose root the file system
/// resolves to `root`, made in environment `env`, of the entries `files`,
/// the hints `graph` and the entered directories `dirs`.
pub open spec fn manifest_of(
    cfg: ConfigView,
    root: Seq<char>,
    env: EnvView,
    files: Seq<FileEntryView>,
    graph: Option<Seq<HintView>>,
    dirs: Seq<Seq<char>>,
) -> ManifestView {
    ManifestView {
        schema: SCHEMA_PATH@,
        project_name: name_or(root, UNKNOWN_PROJECT@),
        instruction: INSTRUCTION@,
        env,
        files: records_of(files),
        dependency_graph: graph,
        directory_tree: tree_text(cfg.extra_ignores, root, dirs, files),
        ignored_files: cfg.extra_ignores,
    }
}

/// A copy of `chunk`.
fn copy_chunk(chunk: &Chunk) -> (out: Chunk)
    ensures
        out@ == chunk@,
{
    Chunk {
        idx: chunk.idx,
        start_line: chunk.start_line,
        end_line: chunk.end_line,
        text: chunk.text.clone(),
    }
}

/// The record of `entry`.
fn record(entry: &FileEntry) -> (out: FileRecord)
    ensures
        out@ == record_of(entry@),
{
    let mut chunks: Vec<Chunk> = Vec::new();
    let mut i: usize = 0;
    while i < entry.chunks.len()
        invariant
            i <= entry.chunks.len(),
            chunk_views(chunks@) == chunk_views(entry.chunks@).take(i as int),
        decreases entry.chunks.len() - i,
    {
        let ghost before = chunk_views(chunks@);
        let copy = copy_chunk(&entry.chunks[i]);
        chunks.push(copy);
        assert(chunk_views(chunks@) =~= before.push(copy@));
        assert(chunk_views(chunks@) =~= chunk_views(entry.chunks@).take(i + 1));
        i = i + 1;
    }
    assert(chunk_views(entry.chunks@).take(i as int) =~= chunk_views(entry.chunks@));
    FileRecord {
        path: entry.path.clone(),
        language: entry.language.clone(),
        sha256: entry.sha256.clone(),
        bytes: entry.bytes,
        tokens: entry.tokens,
        chunks,
    }
}

/// The manifest of a run: the document that is written out. `root` is the
/// root as the file system resolves it, `env` the environment of the run,
/// `files` the entries of the walk, `graph` the dependency hints if they
/// were asked for, and `dirs` the directories that the walk entered.
pub fn write_manifest(
    cfg: &Config,
    root: &str,
    env: Env,
    files: &Vec<FileEntry>,
    graph: Option<Vec<Hint>>,
    dirs: &Vec<String>,
) -> (manifest: Manifest)
    ensures
        manifest@ == manifest_of(
            cfg@,
            root@,
            env@,
            entry_views(files@),
            opt_hint_views(graph),
            string_views(dirs@),
        ),
{
    let mut records: Vec<FileRecord> = Vec::new();
    let ghost entries = entry_views(files@);
    let mut i: usize = 0;
    while i < files.len()
        invariant
            i <= files.len(),
            entries == entry_views(files@),
            record_views(records@) == records_of(entries).take(i as int),
        decreases files.len() - i,
    {
        let ghost before = record_views(records@);
        let r = record(&files[i]);
        records.push(r);
        assert(record_views(records@) =~= before.push(record_of(entries[i as int])));
        assert(record_views(records@) =~= records_of(entries).take(i + 1));
        i = i + 1;
    }
    assert(records_of(entries).take(i as int) =~= records_of(entries));
    Manifest {
        schema: SCHEMA_PATH.to_owned(),
        project_name: project_name(root),
        instruction: INSTRUCTION.to_owned(),
        env,
        files: records,
        dependency_graph: graph,
        directory_tree: ascii_tree(cfg, root, dirs, files),
        ignored_files: clone_strings(&cfg.extra_ignores),
    }
}

/// `kept` holds those of the paths that the walk does not pass over.
pub proof fn lemma_kept(patterns: Seq<Seq<char>>, paths: Seq<Seq<char>>, is_dir: bool)
    ensures
        forall|p: Seq<char>| #[trigger]
            kept(patterns, paths, is_dir).contains(p) <==> paths.contains(p) && !skips(
                patterns,
                p,
                is_dir,
            ),
    decreases paths.len(),
{
    let out = kept(patterns, paths, is_dir);
    if paths.len() > 0 {
        let head = paths.drop_last();
        let inner = kept(patterns, head, is_dir);
        lemma_kept(patterns, head, is_dir);
        assert forall|p: Seq<char>| #[trigger]
            out.contains(p) <==> paths.contains(p) && !skips(patterns, p, is_dir) by {
            if out.contains(p) {
                let k = choose|k: int| 0 <= k < out.len() && out[k] == p;
                if k < inner.len() {
                    assert(inner[k] == p);
                    assert(inner.contains(p));
                    let m = choose|m: int| 0 <= m < head.len() && head[m] == p;
                    assert(paths[m] == p);
                } else {
                    assert(paths[paths.len() - 1] == p);
                }
            }
            if paths.contains(p) && !skips(patterns, p, is_dir) {
                let k = choose|k: int| 0 <= k < paths.len() && paths[k] == p;
                if k < head.len() {
                    assert(head[k] == p);
                    assert(head.contains(p));
                    assert(inner.contains(p));
                    let m = choose|m: int| 0 <= m < inner.len() && inner[m] == p;
                    assert(out[m] == p);
                } else {
                    assert(out[out.len() - 1] == p);
                }
            }
        }
    } else {
        assert forall|p: Seq<char>| #[trigger]
            out.contains(p) <==> paths.contains(p) && !skips(patterns, p, is_dir) by {}
    }
}

/// Pruning is absolute in the tree as well: it shows no path that lies in
/// or below a pruned directory, whatever its extension. What it shows is an
/// entered directory or a file of the manifest that the walk does not pass
/// over, and it shows each of those.
pub proof fn lemma_tree_unpruned(patterns: Seq<Seq<char>>, dirs: Seq<Seq<char>>, files: Seq<FileEntryView>)
    ensures
        forall|p: Seq<char>| #[trigger]
            sorted(tree_paths(patterns, dirs, files)).contains(p) <==> (dirs.contains(p) && !skips(
                patterns,
                p,
                true,
            )) || (entry_paths(files).contains(p) && !skips(patterns, p, false)),
        forall|p: Seq<char>| #[trigger]
            sorted(tree_paths(patterns, dirs, files)).contains(p) ==> !prunes(p),
{
    let a = kept(patterns, dirs, true);
    let b = kept(patterns, entry_paths(files), false);
    let all = a + b;
    lemma_kept(patterns, dirs, true);
    lemma_kept(patterns, entry_paths(files), false);
    lemma_sorted(all);
    assert forall|p: Seq<char>| all.contains(p) <==> a.contains(p) || b.contains(p) by {
        if all.contains(p) {
            let k = choose|k: int| 0 <= k < all.len() && all[k] == p;
            if k < a.len() {
                assert(a[k] == p);
            } else {
                assert(b[k - a.len()] == p);
            }
        }
        if a.contains(p) {
            let k = choose|k: int| 0 <= k < a.len() && a[k] == p;
            assert(all[k] == p);
        }
        if b.contains(p) {
            let k = choose|k: int| 0 <= k < b.len() && b[k] == p;
            assert(all[a.len() + k] == p);
        }
    }
    assert forall|p: Seq<char>| #[trigger]
        sorted(tree_paths(patterns, dirs, files)).contains(p) <==> (dirs.contains(p) && !skips(
            patterns,
            p,
            true,
        )) || (entry_paths(files).contains(p) && !skips(patterns, p, false)) by {
        assert(sorted(all).contains(p) <==> all.contains(p));
        assert(a.contains(p) <==> dirs.contains(p) && !skips(patterns, p, true));
        assert(b.contains(p) <==> entry_paths(files).contains(p) && !skips(patterns, p, false));
    }
}

/// The manifest lists the extra ignore patterns of the configuration, in
/// their order, and its tree shows no path that the walk passes over both as
/// a directory and as a file.
pub proof fn lemma_manifest_lists_patterns(
    cfg: ConfigView,
    root: Seq<char>,
    env: EnvView,
    files: Seq<FileEntryView>,
    graph: Option<Seq<HintView>>,
    dirs: Seq<Seq<char>>,
)
    ensures
        manifest_of(cfg, root, env, files, graph, dirs).ignored_files == cfg.extra_ignores,
        forall|p: Seq<char>| #[trigger]
            sorted(tree_paths(cfg.extra_ignores, dirs, files)).contains(p) ==> !(skips(
                cfg.extra_ignores,
                p,
                true,
            ) && skips(cfg.extra_ignores, p, false)),
{
    lemma_tree_unpruned(cfg.extra_ignores, dirs, files);
}

/// Two runs that differ in nothing but the environment give manifests that
/// differ in nothing but the environment: all else is a function of the
/// configuration, the root, the entries, the hints and the directories.
pub proof fn lemma_manifest_repeats(
    cfg: ConfigView,
    root: Seq<char>,
    first: EnvView,
    second: EnvView,
    files: Seq<FileEntryView>,
    graph: Option<Seq<HintView>>,
    dirs: Seq<Seq<char>>,
)
    ensures
        manifest_of(cfg, root, second, files, graph, dirs) == (ManifestView {
            env: second,
            ..manifest_of(cfg, root, first, files, graph, dirs)
        }),
        first.os == second.os && first.arch == second.arch ==> manifest_of(
            cfg,
            root,
            second,
            files,
            graph,
            dirs,
        ) == (ManifestView {
            env: EnvView { generated_at: second.generated_at, ..first },
            ..manifest_of(cfg, root, first, files, graph, dirs)
        }),
{
}

} // verus!
