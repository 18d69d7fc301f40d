//! Keeping generated files out of version control: what to add to the
//! repository's ignore list so that it names each of them on a line.

use crate::fs_walk::line_feed;
use crate::text::{
    chars_of, lemma_lines_concat, lemma_split_last, lemma_split_whole, lines, push_chars, same_chars, split,
    split_lines, string_views, strip_cr, views,
};
use vstd::prelude::*;

verus! {

/// Those of `patterns` that are no line of `existing`, in their order. A
/// pattern is compared with a line letter for letter.
pub open spec fn missing(existing: Seq<char>, patterns: Seq<Seq<char>>) -> Seq<Seq<char>>
    decreases patterns.len(),
{
    if patterns.len() == 0 {
        Seq::<Seq<char>>::empty()
    } else if lines(existing).contains(patterns.last()) {
        missing(existing, patterns.drop_last())
    } else {
        missing(existing, patterns.drop_last()).push(patterns.last())
    }
}

/// `patterns` written out, each followed by a line feed.
pub open spec fn written(patterns: Seq<Seq<char>>) -> Seq<char>
    decreases patterns.len(),
{
    if patterns.len() == 0 {
        Seq::<char>::empty()
    } else {
        written(patterns.drop_last()) + patterns.last() + line_feed()
    }
}

/// Whether `existing` ends in the middle of a line: it is not empty and its
/// last character is no line feed.
pub open spec fn ends_mid_line(existing: Seq<char>) -> bool {
    existing.len() > 0 && existing.last() != '\n'
}

/// What is appended to an ignore list that holds `existing`, so that each of
/// `patterns` stands on a line of its own: nothing where there is no
/// repository or no pattern is missing; else the missing patterns, each on
/// its line, behind a line feed where `existing` ends in the middle of a
/// line.
pub open spec fn addition(repo: bool, existing: Seq<char>, patterns: Seq<Seq<char>>) -> Seq<char> {
    let add = missing(existing, patterns);
    if !repo || add.len() == 0 {
        Seq::<char>::empty()
    } else if ends_mid_line(existing) {
        line_feed() + written(add)
    } else {
        written(add)
    }
}

/// Whether `line` is one of `all`.
fn has_line(all: &Vec<Vec<char>>, line: &[char]) -> (found: bool)
    ensures
        found == views(all@).contains(line@),
{
    let mut i: usize = 0;
    while i < all.len()
        invariant
            i <= all.len(),
            forall|k: int| 0 <= k < i ==> views(all@)[k] != line@,
        decreases all.len() - i,
    {
        assert(views(all@)[i as int] == all@[i as int]@);
        if same_chars(all[i].as_slice(), line) {
            return true;
        }
        i = i + 1;
    }
    false
}

/// The text to append to the repository's ignore list. `repo` says whether
/// the root holds a repository, `existing` is what the list holds now, empty
/// if there is none, and `patterns` are the names to keep out of version
/// control.
pub fn ensure_gitignore(repo: bool, existing: &str, patterns: &Vec<String>) -> (text: String)
    ensures
        text@ == addition(repo, existing@, string_views(patterns@)),
{
    let mut text = String::new();
    if !repo {
        return text;
    }
    let chars = chars_of(existing);
    let all = split_lines(chars.as_slice());
    let mid_line = chars.len() > 0 && chars[chars.len() - 1] != '\n';
    let ghost wanted = string_views(patterns@);
    let mut any = false;
    let mut i: usize = 0;
    proof {
        assert(wanted.take(0).len() == 0);
    }
    while i < patterns.len()
        invariant
            i <= patterns.len(),
            wanted == string_views(patterns@),
            views(all@) == lines(existing@),
            mid_line == ends_mid_line(existing@),
            any == (missing(existing@, wanted.take(i as int)).len() > 0),
            text@ == addition(true, existing@, wanted.take(i as int)),
        decreases patterns.len() - i,
    {
        let ghost before = missing(existing@, wanted.take(i as int));
        proof {
            assert(wanted.take(i + 1).drop_last() == wanted.take(i as int));
            assert(wanted.take(i + 1).last() == patterns@[i as int]@);
        }
        let pattern = chars_of(patterns[i].as_str());
        if !has_line(&all, pattern.as_slice()) {
            if !any && mid_line {
                text.push('\n');
            }
            any = true;
            let ghost head = text@;
            push_chars(&mut text, pattern.as_slice());
            text.push('\n');
            proof {
                let now = before.push(pattern@);
                assert(now.drop_last() == before);
                assert(text@ =~= head + pattern@ + line_feed());
                if before.len() == 0 {
                    assert(written(before) =~= Seq::<char>::empty());
                    assert(written(now) =~= pattern@ + line_feed());
                }
                assert(text@ =~= addition(true, existing@, wanted.take(i + 1)));
            }
        }
        i = i + 1;
    }
    proof {
        assert(wanted.take(i as int) == wanted);
    }
    text
}


/// A pattern that can stand on a line of its own and be found there again:
/// it holds no line feed and does not end with a carriage return.
pub open spec fn is_line(pattern: Seq<char>) -> bool {
    !pattern.contains('\n') && !(pattern.len() > 0 && pattern.last() == '\r')
}

/// Written out, lines are found again as they were.
proof fn lemma_lines_written(patterns: Seq<Seq<char>>)
    requires
        forall|i: int| 0 <= i < patterns.len() ==> is_line(#[trigger] patterns[i]),
    ensures
        lines(written(patterns)) == patterns,
        written(patterns).len() == 0 || written(patterns).last() == '\n',
    decreases patterns.len(),
{
    if patterns.len() == 0 {
        assert(lines(written(patterns)) =~= patterns);
    } else {
        let head = patterns.drop_last();
        let last = patterns.last();
        assert forall|i: int| 0 <= i < head.len() implies is_line(#[trigger] head[i]) by {
            assert(head[i] == patterns[i]);
        }
        lemma_lines_written(head);
        assert(is_line(patterns[patterns.len() - 1]));
        let tail = last + line_feed();
        assert(written(patterns) =~= written(head) + tail);
        lemma_lines_concat(written(head), tail);
        lemma_split_whole(last, '\n');
        assert(tail.drop_last() =~= last);
        assert(split(tail, '\n') =~= seq![last, Seq::<char>::empty()]);
        assert(strip_cr(last) == last);
        assert(lines(tail) =~= seq![last]);
        assert(lines(written(patterns)) =~= patterns);
    }
}

/// A line of a list is a line still when the list gets a line feed at its
/// end where it ended in the middle of a line.
proof fn lemma_line_stays(existing: Seq<char>, pattern: Seq<char>)
    requires
        is_line(pattern),
        lines(existing).contains(pattern),
        ends_mid_line(existing),
    ensures
        lines(existing + line_feed()).contains(pattern),
{
    let parts = split(existing, '\n');
    let closed = existing + line_feed();
    lemma_split_last(existing, '\n');
    assert(closed.drop_last() =~= existing);
    assert(split(closed, '\n') == parts.push(Seq::<char>::empty()));
    let after = lines(closed);
    assert(after.len() == parts.len());
    let k = choose|k: int| 0 <= k < lines(existing).len() && lines(existing)[k] == pattern;
    if k < parts.len() - 1 {
        assert(after[k] == strip_cr(parts[k]));
        assert(after[k] == pattern);
    } else {
        assert(pattern == parts.last());
        assert(after[parts.len() - 1] == strip_cr(parts[parts.len() - 1]));
        assert(after[parts.len() - 1] == pattern);
    }
}

/// What `missing` leaves out is a line already, and what it keeps is none.
proof fn lemma_missing(existing: Seq<char>, patterns: Seq<Seq<char>>)
    ensures
        forall|i: int|
            0 <= i < patterns.len() ==> lines(existing).contains(#[trigger] patterns[i]) || missing(
                existing,
                patterns,
            ).contains(patterns[i]),
        forall|p: Seq<char>| #[trigger] missing(existing, patterns).contains(p) ==> patterns.contains(p),
        (forall|i: int| 0 <= i < patterns.len() ==> lines(existing).contains(#[trigger] patterns[i]))
            ==> missing(existing, patterns).len() == 0,
    decreases patterns.len(),
{
    if patterns.len() > 0 {
        let head = patterns.drop_last();
        let inner = missing(existing, head);
        let out = missing(existing, patterns);
        lemma_missing(existing, head);
        assert forall|i: int| 0 <= i < patterns.len() implies lines(existing).contains(
            #[trigger] patterns[i],
        ) || out.contains(patterns[i]) by {
            if i < head.len() {
                assert(head[i] == patterns[i]);
                if inner.contains(head[i]) {
                    let m = choose|m: int| 0 <= m < inner.len() && inner[m] == head[i];
                    assert(out[m] == head[i]);
                }
            } else if !lines(existing).contains(patterns[i]) {
                assert(out[out.len() - 1] == patterns[i]);
            }
        }
        assert forall|p: Seq<char>| #[trigger] out.contains(p) implies patterns.contains(p) by {
            let m = choose|m: int| 0 <= m < out.len() && out[m] == p;
            if m < inner.len() {
                assert(inner[m] == p);
                assert(inner.contains(p));
                let j = choose|j: int| 0 <= j < head.len() && head[j] == p;
                assert(patterns[j] == p);
            } else {
                assert(patterns[patterns.len() - 1] == p);
            }
        }
        if forall|i: int| 0 <= i < patterns.len() ==> lines(existing).contains(#[trigger] patterns[i]) {
            assert forall|i: int| 0 <= i < head.len() implies lines(existing).contains(#[trigger] head[i]) by {
                assert(head[i] == patterns[i]);
            }
            assert(lines(existing).contains(patterns[patterns.len() - 1]));
        }
    }
}

/// The ignore list is settled after one run: once what `addition` gives has
/// been appended, nothing is left to append. This holds of patterns that can
/// stand on a line, the names of files among them.
pub proof fn lemma_addition_settles(existing: Seq<char>, patterns: Seq<Seq<char>>)
    requires
        forall|i: int| 0 <= i < patterns.len() ==> is_line(#[trigger] patterns[i]),
    ensures
        addition(true, existing + addition(true, existing, patterns), patterns).len() == 0,
        forall|i: int|
            0 <= i < patterns.len() ==> lines(existing + addition(true, existing, patterns)).contains(
                #[trigger] patterns[i],
            ),
{
    let add = missing(existing, patterns);
    let text = addition(true, existing, patterns);
    let after = existing + text;
    lemma_missing(existing, patterns);
    if add.len() == 0 {
        assert(after =~= existing);
        assert forall|i: int| 0 <= i < patterns.len() implies lines(after).contains(#[trigger] patterns[i]) by {
            if add.contains(patterns[i]) {
                let m = choose|m: int| 0 <= m < add.len() && add[m] == patterns[i];
            }
        }
    } else {
        let base = if ends_mid_line(existing) {
            existing + line_feed()
        } else {
            existing
        };
        assert(after =~= base + written(add));
        assert(base.len() == 0 || base.last() == '\n');
        assert forall|i: int| 0 <= i < add.len() implies is_line(#[trigger] add[i]) by {
            assert(add.contains(add[i]));
            let j = choose|j: int| 0 <= j < patterns.len() && patterns[j] == add[i];
            assert(is_line(patterns[j]));
        }
        lemma_lines_written(add);
        lemma_lines_concat(base, written(add));
        assert(lines(after) == lines(base) + add);
        assert forall|i: int| 0 <= i < patterns.len() implies lines(after).contains(#[trigger] patterns[i]) by {
            let p = patterns[i];
            if lines(existing).contains(p) {
                if ends_mid_line(existing) {
                    lemma_line_stays(existing, p);
                }
                let k = choose|k: int| 0 <= k < lines(base).len() && lines(base)[k] == p;
                assert(lines(after)[k] == p);
            } else {
                assert(add.contains(p));
                let m = choose|m: int| 0 <= m < add.len() && add[m] == p;
                assert(lines(after)[lines(base).len() + m] == p);
            }
        }
        lemma_missing(after, patterns);
    }
    lemma_missing(after, patterns);
}

} // verus!
