//! From the files that a walk found to the entries of the manifest: each
//! surviving file with its digest, its size, its token count and its text in
//! chunks of lines.

use crate::digest::{hex_encode, hex_lower, sha256, sha256_digest};
use crate::path::{language, language_from_ext};
use crate::config::Config;
use crate::skip::{
    content_type, excludes, file, has_binary_extension, ignores, prunes, skipped, skips, SNIFF_LEN,
};
use crate::text::{
    chars_of, count_tokens, decode_lossy, join, lemma_join_concat, lemma_lines_free, lemma_split_join, lines,
    lossy_text, split, split_lines, token_count,
    string_views, views,
};
use vstd::prelude::*;
use vstd::slice::slice_subrange;

verus! {

/// The number of lines that a chunk holds, but for the last of a file.
pub const LINES_PER_CHUNK: usize = 100;

/// A window of consecutive lines of a file.
#[derive(Clone, Debug)]
pub struct Chunk {
    /// The position of the chunk among the chunks of its file, from 0.
    pub idx: usize,
    /// The number of its first line, counted from 1.
    pub start_line: usize,
    /// The number of its last line, counted from 1.
    pub end_line: usize,
    /// Its lines, joined by line feeds.
    pub text: String,
}

/// What a `Chunk` stands for.
pub struct ChunkView {
    pub idx: nat,
    pub start_line: nat,
    pub end_line: nat,
    pub text: Seq<char>,
}

impl View for Chunk {
    type V = ChunkView;

    open spec fn view(&self) -> ChunkView {
        ChunkView {
            idx: self.idx as nat,
            start_line: self.start_line as nat,
            end_line: self.end_line as nat,
            text: self.text@,
        }
    }
}

/// A file that the manifest describes.
#[derive(Debug)]
pub struct FileEntry {
    /// Its path below the root, with `/` between the segments.
    pub path: String,
    /// Its extension in lower case, empty if it has none.
    pub language: String,
    /// The SHA-256 digest of its bytes, in lower-case hexadecimal.
    pub sha256: String,
    /// Its length in bytes.
    pub bytes: usize,
    /// The number of its whitespace-delimited tokens.
    pub tokens: usize,
    /// Its lines, in chunks.
    pub chunks: Vec<Chunk>,
    /// Its content as text.
    pub text: String,
}

/// What a `FileEntry` stands for.
pub struct FileEntryView {
    pub path: Seq<char>,
    pub language: Seq<char>,
    pub sha256: Seq<char>,
    pub bytes: nat,
    pub tokens: nat,
    pub chunks: Seq<ChunkView>,
    pub text: Seq<char>,
}

/// The views of a sequence of chunks, element by element.
pub open spec fn chunk_views(chunks: Seq<Chunk>) -> Seq<ChunkView> {
    Seq::new(chunks.len(), |i: int| chunks[i]@)
}

/// The views of a sequence of entries, element by element.
pub open spec fn entry_views(entries: Seq<FileEntry>) -> Seq<FileEntryView> {
    Seq::new(entries.len(), |i: int| entries[i]@)
}

impl View for FileEntry {
    type V = FileEntryView;

    open spec fn view(&self) -> FileEntryView {
        FileEntryView {
            path: self.path@,
            language: self.language@,
            sha256: self.sha256@,
            bytes: self.bytes as nat,
            tokens: self.tokens as nat,
            chunks: chunk_views(self.chunks@),
            text: self.text@,
        }
    }
}

/// The line feed as a separator.
pub open spec fn line_feed() -> Seq<char> {
    seq!['\n']
}

/// The number of chunks of a file of `n` lines: `n` divided by the chunk
/// size, rounded up.
pub open spec fn chunk_count(n: nat) -> nat {
    ((n + LINES_PER_CHUNK - 1) / (LINES_PER_CHUNK as int)) as nat
}

/// Chunk `i` of a file with the given lines: the lines from number
/// `i * 100 + 1` to number `(i + 1) * 100`, or to the last line if that
/// comes first.
pub open spec fn chunk_at(all: Seq<Seq<char>>, i: nat) -> ChunkView {
    let before = i * LINES_PER_CHUNK;
    let end = if before + LINES_PER_CHUNK <= all.len() {
        before + LINES_PER_CHUNK
    } else {
        all.len() as int
    };
    ChunkView {
        idx: i,
        start_line: (before + 1) as nat,
        end_line: end as nat,
        text: join(all.subrange(before, end), line_feed()),
    }
}

/// The chunks of a file with the given lines, in order.
pub open spec fn chunks_of(all: Seq<Seq<char>>) -> Seq<ChunkView> {
    Seq::new(chunk_count(all.len()), |i: int| chunk_at(all, i as nat))
}

/// The lines `from..to` of `all`, joined by line feeds.
fn join_lines(all: &Vec<Vec<char>>, from: usize, to: usize) -> (text: String)
    requires
        from <= to <= all.len(),
    ensures
        text@ == join(views(all@).subrange(from as int, to as int), line_feed()),
{
    let mut text = String::new();
    let mut k: usize = from;
    let ghost ls = views(all@);
    proof {
        assert(ls.subrange(from as int, from as int) =~= Seq::<Seq<char>>::empty());
    }
    while k < to
        invariant
            from <= k <= to <= all.len(),
            ls == views(all@),
            text@ == join(ls.subrange(from as int, k as int), line_feed()),
        decreases to - k,
    {
        let ghost before = text@;
        if k > from {
            text.push('\n');
        }
        let line = &all[k];
        let mut j: usize = 0;
        let ghost head = text@;
        while j < line.len()
            invariant
                j <= line.len(),
                text@ == head + line@.take(j as int),
            decreases line.len() - j,
        {
            text.push(line[j]);
            assert(line@.take(j + 1) == line@.take(j as int).push(line@[j as int]));
            j = j + 1;
        }
        proof {
            assert(line@.take(j as int) == line@);
            let window = ls.subrange(from as int, k + 1);
            assert(window.drop_last() == ls.subrange(from as int, k as int));
            assert(window.last() == line@);
            if k > from {
                assert(head == before + line_feed());
            } else {
                assert(before.len() == 0);
                assert(head + line@ == line@);
            }
        }
        k = k + 1;
    }
    text
}

/// The chunks of a file with the given lines: 100 lines each, the last one
/// what is left.
pub fn chunk_lines(all: &Vec<Vec<char>>) -> (chunks: Vec<Chunk>)
    ensures
        chunk_views(chunks@) == chunks_of(views(all@)),
{
    let n = all.len();
    let ghost ls = views(all@);
    let mut chunks: Vec<Chunk> = Vec::new();
    let mut start: usize = 0;
    let mut idx: usize = 0;
    while start < n
        invariant
            n == all.len(),
            ls == views(all@),
            start <= n,
            idx <= start,
            start < n ==> start == idx * LINES_PER_CHUNK,
            start == n ==> idx == chunk_count(n as nat),
            idx <= chunk_count(n as nat),
            chunk_views(chunks@) == Seq::new(idx as nat, |i: int| chunk_at(ls, i as nat)),
        decreases n - start,
    {
        let end = if n - start > LINES_PER_CHUNK {
            start + LINES_PER_CHUNK
        } else {
            n
        };
        let text = join_lines(all, start, end);
        let ghost before = chunk_views(chunks@);
        let chunk = Chunk { idx, start_line: start + 1, end_line: end, text };
        proof {
            assert(chunk@ == chunk_at(ls, idx as nat));
        }
        chunks.push(chunk);
        proof {
            assert(chunk_views(chunks@) =~= before.push(chunk_at(ls, idx as nat)));
            assert(chunk_views(chunks@) =~= Seq::new((idx + 1) as nat, |i: int| chunk_at(ls, i as nat)));
        }
        start = end;
        idx = idx + 1;
    }
    proof {
        assert(chunk_views(chunks@) =~= chunks_of(ls));
    }
    chunks
}


/// The texts of a sequence of chunks, in order.
pub open spec fn chunk_texts(chunks: Seq<ChunkView>) -> Seq<Seq<char>> {
    Seq::new(chunks.len(), |i: int| chunks[i].text)
}

/// The lines that a sequence of chunks of `all` spans, one chunk's lines
/// after another's.
pub open spec fn spanned_lines(all: Seq<Seq<char>>, chunks: Seq<ChunkView>) -> Seq<Seq<char>>
    decreases chunks.len(),
{
    if chunks.len() == 0 {
        Seq::<Seq<char>>::empty()
    } else {
        spanned_lines(all, chunks.drop_last()) + all.subrange(
            chunks.last().start_line - 1,
            chunks.last().end_line as int,
        )
    }
}

/// A file of `n` lines has `n` divided by 100, rounded up, chunks: none
/// if it has no line. Its last chunk spans `n` modulo 100 lines, or 100 where
/// that is zero.
pub proof fn lemma_chunk_count(all: Seq<Seq<char>>)
    ensures
        chunks_of(all).len() == chunk_count(all.len()),
        chunk_count(all.len()) * LINES_PER_CHUNK >= all.len(),
        chunk_count(all.len()) * LINES_PER_CHUNK < all.len() + LINES_PER_CHUNK,
        all.len() == 0 ==> chunks_of(all).len() == 0,
        all.len() > 0 ==> chunks_of(all).last().end_line - chunks_of(all).last().start_line + 1 == (
        if all.len() % 100 == 0 {
            100
        } else {
            all.len() % 100
        }),
{
}

/// The chunks of a file lie one after another and cover its lines: chunk
/// `i` has index `i` and begins at line `i * 100 + 1`, each chunk begins
/// where the one before it ended, the last one ends at the last line, and
/// the text of each is its lines joined by line feeds.
pub proof fn lemma_chunks_tile(all: Seq<Seq<char>>)
    ensures
        forall|i: int|
            0 <= i < chunks_of(all).len() ==> {
                let c = #[trigger] chunks_of(all)[i];
                &&& c.idx == i
                &&& c.start_line == i * LINES_PER_CHUNK + 1
                &&& c.start_line <= c.end_line <= all.len()
                &&& c.end_line - c.start_line < LINES_PER_CHUNK
                &&& c.text == join(all.subrange(c.start_line - 1, c.end_line as int), line_feed())
            },
        forall|i: int|
            0 <= i < chunks_of(all).len() - 1 ==> (#[trigger] chunks_of(all)[i]).end_line + 1
                == chunks_of(all)[i + 1].start_line,
        all.len() > 0 ==> chunks_of(all).last().end_line == all.len(),
{
}

/// The first `k` chunks of a file span its first `k * 100` lines, or all of
/// them.
proof fn lemma_spanned_prefix(all: Seq<Seq<char>>, k: nat)
    requires
        k <= chunk_count(all.len()),
    ensures
        spanned_lines(all, chunks_of(all).take(k as int)) == all.take(
            if k * LINES_PER_CHUNK <= all.len() {
                k * LINES_PER_CHUNK
            } else {
                all.len() as int
            },
        ),
        k > 0 ==> join(chunk_texts(chunks_of(all).take(k as int)), line_feed()) == join(
            all.take(
                if k * LINES_PER_CHUNK <= all.len() {
                    k * LINES_PER_CHUNK
                } else {
                    all.len() as int
                },
            ),
            line_feed(),
        ),
    decreases k,
{
    let chunks = chunks_of(all);
    if k == 0 {
        assert(all.take(0) =~= Seq::<Seq<char>>::empty());
    } else {
        let j = (k - 1) as nat;
        lemma_spanned_prefix(all, j);
        let head = chunks.take(j as int);
        let upto = chunks.take(k as int);
        let c = chunks[j as int];
        let from = j * LINES_PER_CHUNK;
        let to = if k * LINES_PER_CHUNK <= all.len() {
            k * LINES_PER_CHUNK
        } else {
            all.len() as int
        };
        assert(upto.drop_last() == head);
        assert(upto.last() == c);
        assert(all.take(from) + all.subrange(from, to) =~= all.take(to));
        assert(chunk_texts(upto).drop_last() =~= chunk_texts(head));
        assert(chunk_texts(upto).last() == c.text);
        if j == 0 {
            assert(all.subrange(0, to) =~= all.take(to));
        } else {
            lemma_join_concat(all.take(from), all.subrange(from, to), line_feed());
        }
    }
}

/// The lines that the chunks of a file span, taken chunk after chunk, are
/// the lines of the file; and the texts of the chunks, joined by line feeds,
/// are the lines of the file joined by line feeds.
pub proof fn lemma_chunks_round_trip(all: Seq<Seq<char>>)
    ensures
        spanned_lines(all, chunks_of(all)) == all,
        join(chunk_texts(chunks_of(all)), line_feed()) == join(all, line_feed()),
{
    let n = chunk_count(all.len());
    lemma_spanned_prefix(all, n);
    assert(chunks_of(all).take(n as int) == chunks_of(all));
    assert(all.take(all.len() as int) == all);
    if n == 0 {
        assert(chunk_texts(chunks_of(all)) =~= Seq::<Seq<char>>::empty());
        assert(all =~= Seq::<Seq<char>>::empty());
    }
}

/// The chunks of a text give its lines back: where the text has a line at
/// all, the texts of its chunks, joined by line feeds and split at the line
/// feeds again, are its lines.
pub proof fn lemma_chunks_give_lines_back(text: Seq<char>)
    requires
        lines(text).len() > 0,
    ensures
        split(join(chunk_texts(chunks_of(lines(text))), line_feed()), '\n') == lines(text),
{
    lemma_chunks_round_trip(lines(text));
    lemma_lines_free(text);
    lemma_split_join(lines(text), '\n');
}

/// The first bytes of `raw`: those that the classifier looks at.
pub open spec fn first_bytes(raw: Seq<u8>) -> Seq<u8> {
    if raw.len() <= SNIFF_LEN {
        raw
    } else {
        raw.take(SNIFF_LEN as int)
    }
}

/// Whether the file at `path` with content `raw` is left out of the manifest.
pub open spec fn is_excluded(path: Seq<char>, raw: Seq<u8>) -> bool {
    excludes(path, content_type(first_bytes(raw)), first_bytes(raw))
}

/// A file with a binary extension is left out, whatever its content is.
pub proof fn lemma_extension_excludes(path: Seq<char>, raw: Seq<u8>)
    requires
        has_binary_extension(path),
    ensures
        is_excluded(path, raw),
{
}

/// A file with a zero among its first 4096 bytes is left out, whatever its
/// name is and whatever content type its bytes show.
pub proof fn lemma_nul_excludes(path: Seq<char>, raw: Seq<u8>, at: int)
    requires
        0 <= at < raw.len(),
        at < SNIFF_LEN,
        raw[at] == 0u8,
    ensures
        is_excluded(path, raw),
{
    assert(first_bytes(raw)[at] == 0u8);
}

/// The entry of a file, given its path, its size, its digest and its content
/// as text.
pub open spec fn entry_with(path: Seq<char>, size: nat, digest: Seq<u8>, text: Seq<char>) -> FileEntryView {
    FileEntryView {
        path,
        language: language(path),
        sha256: hex_lower(digest),
        bytes: size,
        tokens: token_count(text),
        chunks: chunks_of(lines(text)),
        text,
    }
}

/// The entry of the file at `path` with content `raw`.
pub open spec fn entry_of(path: Seq<char>, raw: Seq<u8>) -> FileEntryView {
    entry_with(path, raw.len(), sha256_digest(raw), lossy_text(raw))
}

/// The entry of a file, given its path, its size in bytes, the digest of its
/// bytes and its content as text.
pub fn describe(path: &str, size: usize, digest: &[u8], text: String) -> (entry: FileEntry)
    ensures
        entry@ == entry_with(path@, size as nat, digest@, text@),
{
    let chars = chars_of(text.as_str());
    let tokens = count_tokens(chars.as_slice());
    let all = split_lines(chars.as_slice());
    let chunks = chunk_lines(&all);
    FileEntry {
        path: path.to_owned(),
        language: language_from_ext(path),
        sha256: hex_encode(digest),
        bytes: size,
        tokens,
        chunks,
        text,
    }
}

/// The entry of the file at `path` with content `raw`, or `None` where the
/// classifier leaves the file out. The classifier sees the first 4096 bytes;
/// the digest, the size and the text are those of the whole content.
pub fn to_entry(path: &str, raw: &[u8]) -> (entry: Option<FileEntry>)
    ensures
        entry is None <==> is_excluded(path@, raw@),
        entry matches Some(e) ==> e@ == entry_of(path@, raw@),
        entry matches Some(e) ==> (vstd::utf8::valid_utf8(raw@) ==> e@.text == vstd::utf8::decode_utf8(raw@)),
{
    let head = if raw.len() <= SNIFF_LEN {
        raw
    } else {
        slice_subrange(raw, 0, SNIFF_LEN)
    };
    assert(head@ =~= first_bytes(raw@));
    if file(path, head) {
        return None;
    }
    let digest = sha256(raw);
    let text = decode_lossy(raw);
    Some(describe(path, raw.len(), digest.as_slice(), text))
}

/// A file that a walk found: its path below the root, and its content or the
/// reason why it could not be read.
#[derive(Debug)]
pub struct Candidate {
    pub path: String,
    pub content: Result<Vec<u8>, String>,
}

/// What a `Candidate` stands for.
pub struct CandidateView {
    pub path: Seq<char>,
    pub content: Result<Seq<u8>, Seq<char>>,
}

impl View for Candidate {
    type V = CandidateView;

    open spec fn view(&self) -> CandidateView {
        CandidateView {
            path: self.path@,
            content: match self.content {
                Ok(raw) => Ok(raw@),
                Err(reason) => Err(reason@),
            },
        }
    }
}

/// The views of a sequence of candidates, element by element.
pub open spec fn candidate_views(candidates: Seq<Candidate>) -> Seq<CandidateView> {
    Seq::new(candidates.len(), |i: int| candidates[i]@)
}

/// Why a walk was given up.
#[derive(Debug)]
pub enum WalkError {
    /// The file at `path` could not be read.
    Unreadable { path: String, reason: String },
}

/// What a `WalkError` stands for.
pub enum WalkErrorView {
    Unreadable { path: Seq<char>, reason: Seq<char> },
}

impl View for WalkError {
    type V = WalkErrorView;

    open spec fn view(&self) -> WalkErrorView {
        match self {
            WalkError::Unreadable { path, reason } => WalkErrorView::Unreadable {
                path: path@,
                reason: reason@,
            },
        }
    }
}

/// What one more candidate makes of the entries gathered so far: nothing new
/// if the walk passes over it, the end of the walk if it could not be read,
/// nothing new if the classifier leaves it out, and else its entry.
pub open spec fn gather(patterns: Seq<Seq<char>>, done: Seq<FileEntryView>, c: CandidateView) -> Result<
    Seq<FileEntryView>,
    WalkErrorView,
> {
    if skips(patterns, c.path, false) {
        Ok(done)
    } else {
        match c.content {
            Err(reason) => Err(WalkErrorView::Unreadable { path: c.path, reason }),
            Ok(raw) => if is_excluded(c.path, raw) {
                Ok(done)
            } else {
                Ok(done.push(entry_of(c.path, raw)))
            },
        }
    }
}

/// The entries of the candidates, in their order, or the first failure,
/// under the ignore patterns `patterns`.
pub open spec fn collected(patterns: Seq<Seq<char>>, candidates: Seq<CandidateView>) -> Result<
    Seq<FileEntryView>,
    WalkErrorView,
>
    decreases candidates.len(),
{
    if candidates.len() == 0 {
        Ok(Seq::<FileEntryView>::empty())
    } else {
        match collected(patterns, candidates.drop_last()) {
            Err(e) => Err(e),
            Ok(done) => gather(patterns, done, candidates.last()),
        }
    }
}

/// The view of the outcome of `collect`.
pub open spec fn outcome_view(outcome: Result<Vec<FileEntry>, WalkError>) -> Result<
    Seq<FileEntryView>,
    WalkErrorView,
> {
    match outcome {
        Ok(entries) => Ok(entry_views(entries@)),
        Err(e) => Err(e@),
    }
}

/// The entries of the files that a walk found, in the order of the walk.
/// A file that lies below a pruned directory, or that one of the extra
/// ignore patterns of `cfg` ignores, is passed over unread; the first other
/// file that could not be read ends the walk with an error; a file that the
/// classifier leaves out gets no entry.
pub fn collect(cfg: &Config, candidates: &Vec<Candidate>) -> (outcome: Result<Vec<FileEntry>, WalkError>)
    ensures
        outcome_view(outcome) == collected(cfg@.extra_ignores, candidate_views(candidates@)),
{
    let mut entries: Vec<FileEntry> = Vec::new();
    let ghost all = candidate_views(candidates@);
    let ghost patterns = cfg@.extra_ignores;
    let mut i: usize = 0;
    proof {
        assert(entry_views(entries@) =~= Seq::<FileEntryView>::empty());
        assert(all.take(0).len() == 0);
    }
    while i < candidates.len()
        invariant
            i <= candidates.len(),
            all == candidate_views(candidates@),
            patterns == string_views(cfg.extra_ignores@),
            collected(patterns, all.take(i as int)) == Ok::<Seq<FileEntryView>, WalkErrorView>(
                entry_views(entries@),
            ),
        decreases candidates.len() - i,
    {
        let c = &candidates[i];
        let ghost before = entry_views(entries@);
        proof {
            assert(all.take(i + 1).drop_last() == all.take(i as int));
            assert(all.take(i + 1).last() == c@);
        }
        if !skipped(&cfg.extra_ignores, c.path.as_str(), false) {
            match &c.content {
                Err(reason) => {
                    proof {
                        lemma_failure_stays(patterns, all, i + 1);
                    }
                    return Err(
                        WalkError::Unreadable { path: c.path.clone(), reason: reason.clone() },
                    );
                },
                Ok(raw) => {
                    if let Some(entry) = to_entry(c.path.as_str(), raw.as_slice()) {
                        entries.push(entry);
                        assert(entry_views(entries@) =~= before.push(entry_of(c@.path, raw@)));
                    }
                },
            }
        }
        i = i + 1;
    }
    proof {
        assert(all.take(i as int) == all);
    }
    Ok(entries)
}

/// Once a prefix of the candidates has failed, the whole walk fails in the
/// same way.
pub proof fn lemma_failure_stays(patterns: Seq<Seq<char>>, candidates: Seq<CandidateView>, n: int)
    requires
        0 <= n <= candidates.len(),
        collected(patterns, candidates.take(n)) is Err,
    ensures
        collected(patterns, candidates) == collected(patterns, candidates.take(n)),
    decreases candidates.len() - n,
{
    if n < candidates.len() {
        assert(candidates.take(n + 1).drop_last() == candidates.take(n));
        lemma_failure_stays(patterns, candidates, n + 1);
    } else {
        assert(candidates.take(n) == candidates);
    }
}

/// Whether `entry` is the entry of one of the candidates: one that the walk
/// does not pass over, that could be read and that the classifier does not
/// leave out.
pub open spec fn comes_from(
    patterns: Seq<Seq<char>>,
    entry: FileEntryView,
    candidates: Seq<CandidateView>,
) -> bool {
    exists|k: int|
        0 <= k < candidates.len() && !skips(patterns, (#[trigger] candidates[k]).path, false) && (
        candidates[k].content matches Ok(raw) && !is_excluded(candidates[k].path, raw) && entry
            == entry_of(candidates[k].path, raw))
}

/// Pruning is absolute: no entry of a walk lies below a pruned directory,
/// whatever its extension or content, and none is ignored by a pattern. Each
/// entry is that of a candidate that the walk does not pass over and that the
/// classifier lets pass.
pub proof fn lemma_collected_unpruned(patterns: Seq<Seq<char>>, candidates: Seq<CandidateView>)
    ensures
        collected(patterns, candidates) matches Ok(entries) ==> forall|i: int|
            0 <= i < entries.len() ==> !prunes((#[trigger] entries[i]).path) && !skips(
                patterns,
                entries[i].path,
                false,
            ) && comes_from(patterns, entries[i], candidates),
    decreases candidates.len(),
{
    if candidates.len() > 0 {
        let head = candidates.drop_last();
        let c = candidates.last();
        lemma_collected_unpruned(patterns, head);
        if let Ok(done) = collected(patterns, head) {
            if let Ok(entries) = collected(patterns, candidates) {
                assert forall|i: int| 0 <= i < entries.len() implies !prunes((#[trigger] entries[i]).path)
                    && !skips(patterns, entries[i].path, false) && comes_from(
                    patterns,
                    entries[i],
                    candidates,
                ) by {
                    if i < done.len() {
                        assert(entries[i] == done[i]);
                        assert(comes_from(patterns, done[i], head));
                        let k = choose|k: int|
                            0 <= k < head.len() && !skips(patterns, (#[trigger] head[k]).path, false) && (
                            head[k].content matches Ok(raw) && !is_excluded(head[k].path, raw)
                                && done[i] == entry_of(head[k].path, raw));
                        assert(candidates[k] == head[k]);
                    } else {
                        assert(candidates[candidates.len() - 1] == c);
                    }
                }
            }
        }
    }
}


/// Whether a candidate gets an entry: the walk does not pass over it, it
/// could be read, and the classifier does not leave it out.
pub open spec fn passes(patterns: Seq<Seq<char>>, c: CandidateView) -> bool {
    !skips(patterns, c.path, false) && (c.content matches Ok(raw) && !is_excluded(c.path, raw))
}

/// Every candidate that passes has its entry among those of the walk.
pub proof fn lemma_collected_complete(patterns: Seq<Seq<char>>, candidates: Seq<CandidateView>, k: int)
    requires
        0 <= k < candidates.len(),
        passes(patterns, candidates[k]),
    ensures
        collected(patterns, candidates) matches Ok(entries) ==> entries.contains(
            entry_of(candidates[k].path, candidates[k].content->Ok_0),
        ),
    decreases candidates.len(),
{
    let head = candidates.drop_last();
    let wanted = entry_of(candidates[k].path, candidates[k].content->Ok_0);
    if let Ok(entries) = collected(patterns, candidates) {
        let done = collected(patterns, head)->Ok_0;
        if k < head.len() {
            assert(head[k] == candidates[k]);
            lemma_collected_complete(patterns, head, k);
            let m = choose|m: int| 0 <= m < done.len() && done[m] == wanted;
            assert(entries[m] == wanted);
        } else {
            assert(candidates.last() == candidates[k]);
            assert(entries == done.push(wanted));
            assert(entries[done.len() as int] == wanted);
        }
    }
}

/// What a pattern ignores is kept out: where one of the patterns ignores a
/// path, no entry of the walk has that path, whatever the candidates are.
pub proof fn lemma_ignored_is_absent(patterns: Seq<Seq<char>>, candidates: Seq<CandidateView>, path: Seq<char>)
    requires
        ignores(patterns, path, false),
    ensures
        collected(patterns, candidates) matches Ok(entries) ==> forall|i: int|
            0 <= i < entries.len() ==> (#[trigger] entries[i]).path != path,
{
    lemma_collected_unpruned(patterns, candidates);
}

} // verus!
