//! Paths as text: segments between slashes, the file name and its extension.
//!
//! A path is a sequence of characters in which `/` separates the segments.
//! Empty segments and `.` name nothing; `..` names the parent.

use crate::text::{chars_of, lemma_split_nonempty, lower_chars, split, split_chars, string_of, to_ascii_lower, views};
use vstd::prelude::*;

verus! {

/// The segments of `path`: its pieces between slashes.
pub open spec fn segments(path: Seq<char>) -> Seq<Seq<char>> {
    split(path, '/')
}

/// A segment that names nothing: the empty one and `.`.
pub open spec fn is_blank_segment(seg: Seq<char>) -> bool {
    seg.len() == 0 || seg == seq!['.']
}

/// The last of `segs` that is not blank, if there is one.
pub open spec fn last_named(segs: Seq<Seq<char>>) -> Option<Seq<char>>
    decreases segs.len(),
{
    if segs.len() == 0 {
        None
    } else if is_blank_segment(segs.last()) {
        last_named(segs.drop_last())
    } else {
        Some(segs.last())
    }
}

/// The file name of `path`: its last segment that is not blank, unless that
/// segment is `..`.
pub open spec fn file_name(path: Seq<char>) -> Option<Seq<char>> {
    match last_named(segments(path)) {
        Some(seg) => if seg == seq!['.', '.'] {
            None
        } else {
            Some(seg)
        },
        None => None,
    }
}

/// The extension of a file name: what follows its last dot. A name without a
/// dot has none, nor has one whose only dot is its first character.
pub open spec fn name_extension(name: Seq<char>) -> Option<Seq<char>> {
    let parts = split(name, '.');
    if parts.len() < 2 || (parts.len() == 2 && parts[0].len() == 0) {
        None
    } else {
        Some(parts.last())
    }
}

/// The extension of the file name of `path`.
pub open spec fn extension(path: Seq<char>) -> Option<Seq<char>> {
    match file_name(path) {
        Some(name) => name_extension(name),
        None => None,
    }
}

/// The language tag of `path`: its extension in lower case, empty if it has
/// none.
pub open spec fn language(path: Seq<char>) -> Seq<char> {
    match extension(path) {
        Some(ext) => to_ascii_lower(ext),
        None => Seq::<char>::empty(),
    }
}

/// The number of slashes in `path`: how deep below the root it lies.
pub open spec fn depth(path: Seq<char>) -> nat {
    (segments(path).len() - 1) as nat
}

/// The view of an optional character vector.
pub open spec fn opt_chars(o: Option<Vec<char>>) -> Option<Seq<char>> {
    match o {
        Some(v) => Some(v@),
        None => None,
    }
}

/// The file name of `path`, as `file_name` defines it.
pub fn file_name_of(path: &[char]) -> (name: Option<Vec<char>>)
    ensures
        opt_chars(name) == file_name(path@),
{
    let mut segs = split_chars(path, '/');
    while segs.len() > 0
        invariant
            last_named(views(segs@)) == last_named(segments(path@)),
        decreases segs.len(),
    {
        let ghost before = views(segs@);
        let seg = segs.pop().unwrap();
        proof {
            assert(views(segs@) =~= before.drop_last());
            assert(before.last() == seg@);
        }
        let blank = seg.len() == 0 || (seg.len() == 1 && seg[0] == '.');
        proof {
            if seg.len() == 1 && seg[0] == '.' {
                assert(seg@ =~= seq!['.']);
            }
        }
        if !blank {
            if seg.len() == 2 && seg[0] == '.' && seg[1] == '.' {
                assert(seg@ =~= seq!['.', '.']);
                return None;
            }
            return Some(seg);
        }
    }
    assert(views(segs@) =~= Seq::<Seq<char>>::empty());
    None
}

/// The extension of the file name of `path`, as `extension` defines it.
pub fn extension_of(path: &[char]) -> (ext: Option<Vec<char>>)
    ensures
        opt_chars(ext) == extension(path@),
{
    match file_name_of(path) {
        None => None,
        Some(name) => {
            let mut parts = split_chars(name.as_slice(), '.');
            proof {
                lemma_split_nonempty(name@, '.');
            }
            let ghost all = views(parts@);
            if parts.len() < 2 || (parts.len() == 2 && parts[0].len() == 0) {
                assert(all[0] == parts@[0]@);
                None
            } else {
                assert(all[0] == parts@[0]@);
                let last = parts.pop().unwrap();
                assert(all.last() == last@);
                Some(last)
            }
        },
    }
}

/// The number of slashes in `path`.
pub fn depth_of(path: &[char]) -> (d: usize)
    ensures
        d == depth(path@),
{
    let mut d: usize = 0;
    let mut i: usize = 0;
    proof {
        lemma_split_nonempty(path@.take(0), '/');
    }
    while i < path.len()
        invariant
            i <= path.len(),
            d <= i,
            d + 1 == split(path@.take(i as int), '/').len(),
        decreases path.len() - i,
    {
        proof {
            assert(path@.take(i + 1).drop_last() == path@.take(i as int));
            lemma_split_nonempty(path@.take(i as int), '/');
        }
        if path[i] == '/' {
            d = d + 1;
        }
        i = i + 1;
    }
    proof {
        assert(path@.take(i as int) == path@);
    }
    d
}

/// The language tag of `path`: its extension in lower case, or the empty
/// string where it has none.
pub fn language_from_ext(path: &str) -> (tag: String)
    ensures
        tag@ == language(path@),
{
    let chars = chars_of(path);
    match extension_of(chars.as_slice()) {
        Some(ext) => {
            let low = lower_chars(ext.as_slice());
            string_of(low.as_slice())
        },
        None => String::new(),
    }
}


/// The file name of `path`, or `fallback` where it has none.
pub open spec fn name_or(path: Seq<char>, fallback: Seq<char>) -> Seq<char> {
    match file_name(path) {
        Some(name) => name,
        None => fallback,
    }
}

/// The file name of `path`, or `fallback` where it has none.
pub fn file_name_or(path: &str, fallback: &str) -> (name: String)
    ensures
        name@ == name_or(path@, fallback@),
{
    let chars = chars_of(path);
    match file_name_of(chars.as_slice()) {
        Some(found) => string_of(found.as_slice()),
        None => fallback.to_owned(),
    }
}

} // verus!
