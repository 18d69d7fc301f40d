//! Dependency hints: for each Rust source file, the files that its `use`
//! lines seem to name. A guess from the text, made line by line; what it
//! names need not exist.

use crate::fs_walk::{entry_views, FileEntry, FileEntryView};
use crate::text::{
    begins_with, chars_of, copy_range, is_text, lines, push_chars, split_lines, starts_with, string_views, trim,
    trim_chars, trim_start, trim_start_chars, views,
};
use vstd::prelude::*;
use vstd::string::StringExecFns;
use vstd::string::StrSliceExecFns;

verus! {

/// The hints of one file.
#[derive(Debug)]
pub struct Hint {
    /// The path of the file.
    pub path: String,
    /// The paths that it seems to depend on, in the order of its lines.
    pub deps: Vec<String>,
}

/// What a `Hint` stands for.
pub struct HintView {
    pub path: Seq<char>,
    pub deps: Seq<Seq<char>>,
}

impl View for Hint {
    type V = HintView;

    open spec fn view(&self) -> HintView {
        HintView { path: self.path@, deps: string_views(self.deps@) }
    }
}

/// The views of a sequence of hints, element by element.
pub open spec fn hint_views(hints: Seq<Hint>) -> Seq<HintView> {
    Seq::new(hints.len(), |i: int| hints[i]@)
}

/// What stands in `s` before the first `::`, or all of `s` where there is
/// none.
pub open spec fn before_separator(s: Seq<char>) -> Seq<char>
    decreases s.len(),
{
    if s.len() < 2 {
        s
    } else if s[0] == ':' && s[1] == ':' {
        Seq::<char>::empty()
    } else {
        seq![s[0]] + before_separator(s.skip(1))
    }
}

/// The path that a line hints at. A line that begins, after whitespace, with
/// `use ` names a module: what follows up to the first `::`, without the
/// whitespace around it. If that is not empty, the hint is `src/`, the name
/// and `.rs`.
pub open spec fn line_hint(line: Seq<char>) -> Option<Seq<char>> {
    let t = trim_start(line);
    if starts_with(t, "use "@) {
        let name = trim(before_separator(t.skip("use "@.len() as int)));
        if name.len() == 0 {
            None
        } else {
            Some("src/"@ + name + ".rs"@)
        }
    } else {
        None
    }
}

/// The hints of the given lines, in their order.
pub open spec fn hints_of(all: Seq<Seq<char>>) -> Seq<Seq<char>>
    decreases all.len(),
{
    if all.len() == 0 {
        Seq::<Seq<char>>::empty()
    } else {
        match line_hint(all.last()) {
            Some(hint) => hints_of(all.drop_last()).push(hint),
            None => hints_of(all.drop_last()),
        }
    }
}

/// Whether `graph` has hints for `path`.
pub open spec fn has_path(graph: Seq<HintView>, path: Seq<char>) -> bool {
    exists|i: int| 0 <= i < graph.len() && (#[trigger] graph[i]).path == path
}

/// `graph` with `deps` as the hints of `path`: in place of what it had for
/// that path, or at the end where it had nothing.
pub open spec fn upsert(graph: Seq<HintView>, path: Seq<char>, deps: Seq<Seq<char>>) -> Seq<HintView> {
    if has_path(graph, path) {
        Seq::new(
            graph.len(),
            |i: int|
                if graph[i].path == path {
                    HintView { path, deps }
                } else {
                    graph[i]
                },
        )
    } else {
        graph.push(HintView { path, deps })
    }
}

/// The hints of the given files: one element for each path of a file whose
/// language is `rs`, in the order in which the paths first occur, with the
/// hints of the last file of that path.
pub open spec fn graph_of(files: Seq<FileEntryView>) -> Seq<HintView>
    decreases files.len(),
{
    if files.len() == 0 {
        Seq::<HintView>::empty()
    } else if files.last().language == "rs"@ {
        upsert(graph_of(files.drop_last()), files.last().path, hints_of(lines(files.last().text)))
    } else {
        graph_of(files.drop_last())
    }
}

/// Whether no two elements of `graph` have the same path.
pub open spec fn paths_distinct(graph: Seq<HintView>) -> bool {
    forall|i: int, j: int|
        0 <= i < j < graph.len() ==> (#[trigger] graph[i]).path != (#[trigger] graph[j]).path
}

/// The hints of a set of files name each path once.
pub proof fn lemma_graph_paths_distinct(files: Seq<FileEntryView>)
    ensures
        paths_distinct(graph_of(files)),
    decreases files.len(),
{
    if files.len() > 0 {
        lemma_graph_paths_distinct(files.drop_last());
        let inner = graph_of(files.drop_last());
        let out = graph_of(files);
        if files.last().language == "rs"@ {
            let path = files.last().path;
            if has_path(inner, path) {
                assert forall|i: int, j: int| 0 <= i < j < out.len() implies (#[trigger] out[i]).path != (
                #[trigger] out[j]).path by {
                    assert(out[i].path == inner[i].path);
                    assert(out[j].path == inner[j].path);
                }
            } else {
                assert forall|i: int, j: int| 0 <= i < j < out.len() implies (#[trigger] out[i]).path != (
                #[trigger] out[j]).path by {
                    assert(out[i] == inner[i]);
                    if j < inner.len() {
                        assert(out[j] == inner[j]);
                    }
                }
            }
        }
    }
}

/// The position of the last file among `files` whose language is `rs` and
/// whose path is `path`, if there is one.
pub open spec fn last_source(files: Seq<FileEntryView>, path: Seq<char>) -> Option<int>
    decreases files.len(),
{
    if files.len() == 0 {
        None
    } else if files.last().language == "rs"@ && files.last().path == path {
        Some(files.len() - 1)
    } else {
        last_source(files.drop_last(), path)
    }
}

/// The hints are a mapping from paths: they have an element for `path` just
/// where a file of language `rs` has that path, and its hints are those of
/// the last such file.
pub proof fn lemma_graph_lookup(files: Seq<FileEntryView>, path: Seq<char>)
    ensures
        has_path(graph_of(files), path) <==> last_source(files, path) is Some,
        last_source(files, path) matches Some(i) ==> 0 <= i < files.len() && files[i].language == "rs"@
            && files[i].path == path && forall|k: int|
            0 <= k < graph_of(files).len() && (#[trigger] graph_of(files)[k]).path == path ==> graph_of(
                files,
            )[k].deps == hints_of(lines(files[i].text)),
    decreases files.len(),
{
    if files.len() > 0 {
        let head = files.drop_last();
        let last = files.last();
        let inner = graph_of(head);
        let out = graph_of(files);
        lemma_graph_lookup(head, path);
        if last.language == "rs"@ {
            let deps = hints_of(lines(last.text));
            if has_path(inner, last.path) {
                assert forall|k: int| 0 <= k < out.len() implies (#[trigger] out[k]).path == inner[k].path by {}
                if has_path(inner, path) {
                    let k = choose|k: int| 0 <= k < inner.len() && (#[trigger] inner[k]).path == path;
                    assert(out[k].path == path);
                }
                if has_path(out, path) {
                    let k = choose|k: int| 0 <= k < out.len() && (#[trigger] out[k]).path == path;
                    assert(inner[k].path == path);
                }
            } else {
                assert(out == inner.push(HintView { path: last.path, deps }));
                if has_path(inner, path) {
                    let k = choose|k: int| 0 <= k < inner.len() && (#[trigger] inner[k]).path == path;
                    assert(out[k].path == path);
                }
                if has_path(out, path) {
                    let k = choose|k: int| 0 <= k < out.len() && (#[trigger] out[k]).path == path;
                    if k < inner.len() {
                        assert(inner[k].path == path);
                    }
                }
                if last.path == path {
                    assert(out[out.len() - 1].path == path);
                }
            }
            if let Some(i) = last_source(files, path) {
                assert forall|k: int| 0 <= k < out.len() && (#[trigger] out[k]).path == path implies out[k].deps
                    == hints_of(lines(files[i].text)) by {
                    if last.path == path {
                    } else {
                        assert(files[i] == head[i]);
                        if k < inner.len() {
                            assert(inner[k].path == path);
                            assert(out[k] == inner[k]);
                        }
                    }
                }
            }
        } else {
            if let Some(i) = last_source(files, path) {
                assert(files[i] == head[i]);
            }
        }
    }
}

/// What stands in `s` before the first `::`.
fn before_separator_chars(s: &[char]) -> (out: Vec<char>)
    ensures
        out@ == before_separator(s@),
{
    let mut i: usize = 0;
    let mut found = false;
    proof {
        assert(s@.take(0) + before_separator(s@.skip(0)) =~= before_separator(s@)) by {
            assert(s@.skip(0) == s@);
        }
    }
    while !found && s.len() - i > 1
        invariant
            i <= s.len(),
            !found ==> before_separator(s@) == s@.take(i as int) + before_separator(s@.skip(i as int)),
            found ==> before_separator(s@) == s@.take(i as int),
        decreases s.len() - i + if found { 0int } else { 1int },
    {
        let ghost rest = s@.skip(i as int);
        proof {
            assert(rest[0] == s@[i as int]);
            assert(rest[1] == s@[i + 1]);
        }
        if s[i] == ':' && s[i + 1] == ':' {
            proof {
                assert(s@.take(i as int) + Seq::<char>::empty() =~= s@.take(i as int));
            }
            found = true;
        } else {
            proof {
                assert(rest.skip(1) == s@.skip(i + 1));
                assert(s@.take(i as int) + (seq![s@[i as int]] + before_separator(s@.skip(i + 1))) =~= s@.take(
                    i + 1,
                ) + before_separator(s@.skip(i + 1)));
            }
            i = i + 1;
        }
    }
    if found {
        copy_range(s, 0, i)
    } else {
        proof {
            assert(before_separator(s@.skip(i as int)) == s@.skip(i as int));
            assert(s@.take(i as int) + s@.skip(i as int) =~= s@);
            assert(s@.subrange(0, s.len() as int) =~= s@);
        }
        copy_range(s, 0, s.len())
    }
}

/// The path that `line` hints at, if any.
pub fn hint_of_line(line: &[char]) -> (hint: Option<String>)
    ensures
        match hint {
            Some(text) => line_hint(line@) == Some(text@),
            None => line_hint(line@) is None,
        },
{
    let t = trim_start_chars(line);
    if !begins_with(t.as_slice(), "use ") {
        return None;
    }
    let skip = "use ".unicode_len();
    let rest = copy_range(t.as_slice(), skip, t.len());
    assert(rest@ =~= t@.skip("use "@.len() as int));
    let before = before_separator_chars(rest.as_slice());
    let name = trim_chars(before.as_slice());
    if name.len() == 0 {
        return None;
    }
    let mut text = "src/".to_owned();
    push_chars(&mut text, name.as_slice());
    text.append(".rs");
    Some(text)
}

/// The hints of `text`, line by line.
pub fn hints_of_text(text: &str) -> (hints: Vec<String>)
    ensures
        string_views(hints@) == hints_of(lines(text@)),
{
    let chars = chars_of(text);
    let all = split_lines(chars.as_slice());
    let ghost ls = views(all@);
    let mut hints: Vec<String> = Vec::new();
    let mut i: usize = 0;
    proof {
        assert(string_views(hints@) =~= hints_of(ls.take(0)));
    }
    while i < all.len()
        invariant
            i <= all.len(),
            ls == views(all@),
            string_views(hints@) == hints_of(ls.take(i as int)),
        decreases all.len() - i,
    {
        let ghost before = string_views(hints@);
        proof {
            assert(ls.take(i + 1).drop_last() == ls.take(i as int));
            assert(ls.take(i + 1).last() == all@[i as int]@);
        }
        if let Some(hint) = hint_of_line(all[i].as_slice()) {
            hints.push(hint);
            assert(string_views(hints@) =~= before.push(hint@));
        }
        i = i + 1;
    }
    proof {
        assert(ls.take(i as int) == ls);
    }
    hints
}

/// Puts `deps` into `graph` as the hints of `path`.
fn put(graph: &mut Vec<Hint>, path: &str, deps: Vec<String>)
    requires
        paths_distinct(hint_views(old(graph)@)),
    ensures
        hint_views(final(graph)@) == upsert(hint_views(old(graph)@), path@, string_views(deps@)),
{
    let ghost before = hint_views(graph@);
    let ghost target = HintView { path: path@, deps: string_views(deps@) };
    let mut at: Option<usize> = None;
    let mut i: usize = 0;
    while i < graph.len() && at.is_none()
        invariant
            i <= graph.len(),
            hint_views(graph@) == before,
            at is None ==> forall|k: int| 0 <= k < i ==> (#[trigger] before[k]).path != path@,
            at matches Some(k) ==> k < graph.len() && before[k as int].path == path@,
        decreases graph.len() - i + if at is None { 1int } else { 0int },
    {
        assert(before[i as int] == graph@[i as int]@);
        let here = chars_of(graph[i].path.as_str());
        if is_text(here.as_slice(), path) {
            at = Some(i);
        } else {
            i = i + 1;
        }
    }
    match at {
        None => {
            graph.push(Hint { path: path.to_owned(), deps });
            proof {
                assert(!has_path(before, path@));
                assert(hint_views(graph@) =~= before.push(target));
            }
        },
        Some(k) => {
            graph.set(k, Hint { path: path.to_owned(), deps });
            proof {
                assert(has_path(before, path@));
                let after = hint_views(graph@);
                assert(after.len() == before.len());
                assert forall|m: int| 0 <= m < before.len() implies after[m] == (if before[m].path
                    == path@ {
                    target
                } else {
                    before[m]
                }) by {
                    if m == k {
                        assert(after[m] == graph@[m]@);
                    } else {
                        assert(after[m] == graph@[m]@);
                        assert(before[m] == old(graph)@[m]@);
                        if m < k {
                            assert(before[m].path != before[k as int].path);
                        } else {
                            assert(before[k as int].path != before[m].path);
                        }
                    }
                }
                assert(after =~= upsert(before, path@, target.deps));
            }
        },
    }
}

/// The dependency hints of `files`: for each path of a file whose language
/// is `rs`, what its `use` lines hint at.
pub fn build(files: &Vec<FileEntry>) -> (graph: Vec<Hint>)
    ensures
        hint_views(graph@) == graph_of(entry_views(files@)),
{
    let mut graph: Vec<Hint> = Vec::new();
    let ghost all = entry_views(files@);
    let mut i: usize = 0;
    proof {
        assert(hint_views(graph@) =~= graph_of(all.take(0)));
    }
    while i < files.len()
        invariant
            i <= files.len(),
            all == entry_views(files@),
            hint_views(graph@) == graph_of(all.take(i as int)),
        decreases files.len() - i,
    {
        let f = &files[i];
        proof {
            assert(all.take(i + 1).drop_last() == all.take(i as int));
            assert(all.take(i + 1).last() == f@);
        }
        let language = chars_of(f.language.as_str());
        if is_text(language.as_slice(), "rs") {
            let deps = hints_of_text(f.text.as_str());
            proof {
                lemma_graph_paths_distinct(all.take(i as int));
            }
            put(&mut graph, f.path.as_str(), deps);
        }
        i = i + 1;
    }
    proof {
        assert(all.take(i as int) == all);
    }
    graph
}

} // verus!
