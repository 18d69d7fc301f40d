//! Character sequences: splitting, joining, lines, whitespace and tokens.
//!
//! The functions here work on `Seq<char>` in contracts and on `[char]` in
//! code; `chars_of` and `string_of` convert at the boundary.

use vstd::prelude::*;
use vstd::std_specs::iter::IteratorSpec;

verus! {

/// `String::push` of std appends one character to the end of the string.
pub assume_specification[ String::push ](s: &mut String, c: char)
    ensures
        final(s)@ == old(s)@.push(c),
;

/// The text that `String::from_utf8_lossy` of std makes of `bytes`: their
/// decoding as UTF-8, with U+FFFD in place of what is not valid.
pub uninterp spec fn lossy_text(bytes: Seq<u8>) -> Seq<char>;

/// `String::from_utf8_lossy` decodes bytes as UTF-8 and never fails: valid
/// input comes out as the text it encodes, and each invalid sequence as the
/// replacement character U+FFFD.
#[verifier::external_body]
pub(crate) fn decode_lossy(bytes: &[u8]) -> (text: String)
    ensures
        text@ == lossy_text(bytes@),
        vstd::utf8::valid_utf8(bytes@) ==> text@ == vstd::utf8::decode_utf8(bytes@),
{
    String::from_utf8_lossy(bytes).into_owned()
}

/// The view of an optional string slice.
pub open spec fn opt_text(o: Option<&str>) -> Option<Seq<char>> {
    match o {
        Some(s) => Some(s@),
        None => None,
    }
}

/// The views of a vector of character vectors, element by element.
pub open spec fn views(v: Seq<Vec<char>>) -> Seq<Seq<char>> {
    Seq::new(v.len(), |i: int| v[i]@)
}

/// The views of a vector of strings, element by element.
pub open spec fn string_views(v: Seq<String>) -> Seq<Seq<char>> {
    Seq::new(v.len(), |i: int| v[i]@)
}

/// The characters of `s`, in order.
pub fn chars_of(s: &str) -> (v: Vec<char>)
    ensures
        v@ == s@,
{
    let mut v: Vec<char> = Vec::new();
    for c in it: s.chars()
        invariant
            v@ == it.seq().take(it.index() as int),
            it.seq() == s@,
    {
        v.push(c);
    }
    v
}

/// The string made of the characters of `v`, in order.
pub fn string_of(v: &[char]) -> (s: String)
    ensures
        s@ == v@,
{
    let mut s = String::new();
    let mut i: usize = 0;
    while i < v.len()
        invariant
            i <= v.len(),
            s@ == v@.take(i as int),
        decreases v.len() - i,
    {
        s.push(v[i]);
        i = i + 1;
    }
    s
}

/// Whether `a` and `b` hold the same characters.
pub fn same_chars(a: &[char], b: &[char]) -> (r: bool)
    ensures
        r == (a@ == b@),
{
    if a.len() != b.len() {
        return false;
    }
    let mut i: usize = 0;
    while i < a.len()
        invariant
            i <= a.len(),
            a.len() == b.len(),
            a@.take(i as int) == b@.take(i as int),
        decreases a.len() - i,
    {
        if a[i] != b[i] {
            return false;
        }
        assert(a@.take(i + 1) == a@.take(i as int).push(a@[i as int]));
        assert(b@.take(i + 1) == b@.take(i as int).push(b@[i as int]));
        i = i + 1;
    }
    assert(a@.take(a.len() as int) == a@);
    assert(b@.take(b.len() as int) == b@);
    true
}

/// Whether `a` holds exactly the characters of `text`.
pub fn is_text(a: &[char], text: &str) -> (r: bool)
    ensures
        r == (a@ == text@),
{
    let mut same = true;
    let mut n: usize = 0;
    for c in it: text.chars()
        invariant
            it.seq() == text@,
            n <= a.len(),
            same ==> n == it.index() && a@.take(n as int) == text@.take(n as int),
            !same ==> a@ != text@,
    {
        if same {
            if n < a.len() && a[n] == c {
                assert(a@.take(n + 1) == a@.take(n as int).push(a@[n as int]));
                assert(text@.take(n + 1) == text@.take(n as int).push(text@[n as int]));
                n = n + 1;
            } else {
                same = false;
            }
        }
    }
    if same {
        assert(text@.take(n as int) == text@);
        if n == a.len() {
            assert(a@.take(n as int) == a@);
        }
    }
    same && n == a.len()
}

/// Whether `a` begins with the characters of `prefix`.
pub open spec fn starts_with(a: Seq<char>, prefix: Seq<char>) -> bool {
    prefix.len() <= a.len() && a.take(prefix.len() as int) == prefix
}

/// Whether `a` begins with the characters of `prefix`.
pub fn begins_with(a: &[char], prefix: &str) -> (r: bool)
    ensures
        r == starts_with(a@, prefix@),
{
    let mut same = true;
    let mut n: usize = 0;
    for c in it: prefix.chars()
        invariant
            it.seq() == prefix@,
            n <= a.len(),
            same ==> n == it.index() && a@.take(n as int) == prefix@.take(n as int),
            !same ==> !starts_with(a@, prefix@),
    {
        if same {
            if n < a.len() && a[n] == c {
                assert(a@.take(n + 1) == a@.take(n as int).push(a@[n as int]));
                assert(prefix@.take(n + 1) == prefix@.take(n as int).push(prefix@[n as int]));
                n = n + 1;
            } else {
                proof {
                    if starts_with(a@, prefix@) {
                        assert(a@.take(prefix@.len() as int)[n as int] == prefix@[n as int]);
                    }
                }
                same = false;
            }
        }
    }
    if same {
        assert(prefix@.take(n as int) == prefix@);
    }
    same
}


/// The pieces of `s` between the occurrences of `sep`: one piece more than
/// there are separators, each free of `sep`, empty pieces included.
pub open spec fn split(s: Seq<char>, sep: char) -> Seq<Seq<char>>
    decreases s.len(),
{
    if s.len() == 0 {
        seq![Seq::<char>::empty()]
    } else {
        let init = split(s.drop_last(), sep);
        if s.last() == sep {
            init.push(Seq::<char>::empty())
        } else {
            init.drop_last().push(init.last().push(s.last()))
        }
    }
}

/// The pieces of `parts` written one after another with `sep` between them.
pub open spec fn join(parts: Seq<Seq<char>>, sep: Seq<char>) -> Seq<char>
    decreases parts.len(),
{
    if parts.len() == 0 {
        Seq::<char>::empty()
    } else if parts.len() == 1 {
        parts[0]
    } else {
        join(parts.drop_last(), sep) + sep + parts.last()
    }
}

/// A split always yields at least one piece.
pub proof fn lemma_split_nonempty(s: Seq<char>, sep: char)
    ensures
        split(s, sep).len() >= 1,
    decreases s.len(),
{
    if s.len() > 0 {
        lemma_split_nonempty(s.drop_last(), sep);
    }
}

/// No piece of a split holds the separator.
pub proof fn lemma_split_pieces_free(s: Seq<char>, sep: char)
    ensures
        forall|i: int| 0 <= i < split(s, sep).len() ==> !(#[trigger] split(s, sep)[i]).contains(sep),
    decreases s.len(),
{
    if s.len() > 0 {
        lemma_split_nonempty(s.drop_last(), sep);
        lemma_split_pieces_free(s.drop_last(), sep);
        let init = split(s.drop_last(), sep);
        assert forall|i: int| 0 <= i < split(s, sep).len() implies !(#[trigger] split(s, sep)[i]).contains(sep) by {
            if i < split(s, sep).len() - 1 {
                assert(split(s, sep)[i] == init[i]);
            } else if s.last() != sep {
                let piece = init.last().push(s.last());
                assert(!init[init.len() - 1].contains(sep));
                if piece.contains(sep) {
                    let k = choose|k: int| 0 <= k < piece.len() && piece[k] == sep;
                    assert(init.last()[k] == sep);
                }
            }
        }
    }
}

/// Joining the pieces of a split with the separator gives the text back.
pub proof fn lemma_join_split(s: Seq<char>, sep: char)
    ensures
        join(split(s, sep), seq![sep]) == s,
    decreases s.len(),
{
    if s.len() > 0 {
        let t = s.drop_last();
        let init = split(t, sep);
        lemma_split_nonempty(t, sep);
        lemma_join_split(t, sep);
        if s.last() == sep {
            let all = init.push(Seq::<char>::empty());
            assert(all.drop_last() == init);
            assert(join(all, seq![sep]) == t + seq![sep] + Seq::<char>::empty());
            assert(t + seq![sep] + Seq::<char>::empty() == s);
        } else {
            let piece = init.last().push(s.last());
            let all = init.drop_last().push(piece);
            assert(all.drop_last() == init.drop_last());
            if init.len() == 1 {
                assert(join(init, seq![sep]) == init[0]);
                assert(all[0] == t.push(s.last()));
                assert(t.push(s.last()) == s);
            } else {
                assert(join(init, seq![sep]) == join(init.drop_last(), seq![sep]) + seq![sep] + init.last());
                assert(join(all, seq![sep]) == join(init.drop_last(), seq![sep]) + seq![sep] + piece);
                assert(join(init.drop_last(), seq![sep]) + seq![sep] + piece == (join(
                    init.drop_last(),
                    seq![sep],
                ) + seq![sep] + init.last()).push(s.last()));
                assert(t.push(s.last()) == s);
            }
        }
    } else {
        assert(split(s, sep)[0] == s);
    }
}

/// Joining two runs of pieces, neither of them empty, is joining each and
/// putting the separator between the results.
pub proof fn lemma_join_concat(a: Seq<Seq<char>>, b: Seq<Seq<char>>, sep: Seq<char>)
    requires
        a.len() > 0,
        b.len() > 0,
    ensures
        join(a + b, sep) == join(a, sep) + sep + join(b, sep),
    decreases b.len(),
{
    if b.len() == 1 {
        assert((a + b).drop_last() == a);
        assert((a + b).last() == b[0]);
    } else {
        assert((a + b).drop_last() == a + b.drop_last());
        assert((a + b).last() == b.last());
        lemma_join_concat(a, b.drop_last(), sep);
        assert(join(a + b, sep) == join(a, sep) + sep + join(b.drop_last(), sep) + sep + b.last());
        assert(join(a, sep) + sep + join(b.drop_last(), sep) + sep + b.last() == join(a, sep) + sep + (
        join(b.drop_last(), sep) + sep + b.last()));
    }
}

/// The last piece of a split is empty just where the text is empty or ends
/// with the separator.
pub proof fn lemma_split_last(s: Seq<char>, sep: char)
    ensures
        split(s, sep).len() >= 1,
        split(s, sep).last().len() == 0 <==> (s.len() == 0 || s.last() == sep),
{
    lemma_split_nonempty(s, sep);
    if s.len() > 0 {
        lemma_split_nonempty(s.drop_last(), sep);
    }
}

/// A text without the separator is its own single piece.
pub proof fn lemma_split_whole(s: Seq<char>, sep: char)
    requires
        !s.contains(sep),
    ensures
        split(s, sep) == seq![s],
    decreases s.len(),
{
    if s.len() == 0 {
        assert(s =~= Seq::<char>::empty());
    } else {
        let t = s.drop_last();
        assert(!t.contains(sep)) by {
            if t.contains(sep) {
                let k = choose|k: int| 0 <= k < t.len() && t[k] == sep;
                assert(s[k] == sep);
            }
        }
        lemma_split_whole(t, sep);
        assert(s[s.len() - 1] != sep);
        assert(split(s, sep) =~= seq![t.push(s.last())]);
        assert(t.push(s.last()) =~= s);
    }
}

/// Behind a text that is empty or ends with the separator, the pieces of
/// what follows come after the pieces of the text, without its empty last
/// one.
pub proof fn lemma_split_concat(a: Seq<char>, b: Seq<char>, sep: char)
    requires
        a.len() == 0 || a.last() == sep,
    ensures
        split(a + b, sep) == split(a, sep).drop_last() + split(b, sep),
    decreases b.len(),
{
    let head = split(a, sep).drop_last();
    lemma_split_last(a, sep);
    if b.len() == 0 {
        assert(a + b =~= a);
        assert(split(a, sep) =~= head + seq![Seq::<char>::empty()]);
        assert(split(b, sep) =~= seq![Seq::<char>::empty()]);
    } else {
        let t = b.drop_last();
        lemma_split_concat(a, t, sep);
        lemma_split_nonempty(t, sep);
        assert((a + b).drop_last() =~= a + t);
        assert((a + b).last() == b.last());
        let inner = split(t, sep);
        if b.last() == sep {
            assert((head + inner).push(Seq::<char>::empty()) =~= head + inner.push(Seq::<char>::empty()));
        } else {
            assert((head + inner).drop_last() =~= head + inner.drop_last());
            assert((head + inner).last() == inner.last());
            assert((head + inner.drop_last()).push(inner.last().push(b.last())) =~= head
                + inner.drop_last().push(inner.last().push(b.last())));
        }
    }
}

/// Splitting what was joined gives the pieces back, where there is at least
/// one piece and none holds the separator.
pub proof fn lemma_split_join(parts: Seq<Seq<char>>, sep: char)
    requires
        parts.len() > 0,
        forall|i: int| 0 <= i < parts.len() ==> !(#[trigger] parts[i]).contains(sep),
    ensures
        split(join(parts, seq![sep]), sep) == parts,
    decreases parts.len(),
{
    let last = parts.last();
    assert(!parts[parts.len() - 1].contains(sep));
    lemma_split_whole(last, sep);
    if parts.len() == 1 {
        assert(parts =~= seq![last]);
    } else {
        let head = parts.drop_last();
        assert forall|i: int| 0 <= i < head.len() implies !(#[trigger] head[i]).contains(sep) by {
            assert(head[i] == parts[i]);
        }
        lemma_split_join(head, sep);
        let a = join(head, seq![sep]) + seq![sep];
        assert(a.drop_last() =~= join(head, seq![sep]));
        assert(split(a, sep) == head.push(Seq::<char>::empty()));
        lemma_split_concat(a, last, sep);
        assert(split(a, sep).drop_last() =~= head);
        assert(join(parts, seq![sep]) =~= a + last);
        assert(head + seq![last] =~= parts);
    }
}

/// No line holds a line feed.
pub proof fn lemma_lines_free(text: Seq<char>)
    ensures
        forall|i: int| 0 <= i < lines(text).len() ==> !(#[trigger] lines(text)[i]).contains('\n'),
{
    let parts = split(text, '\n');
    lemma_split_pieces_free(text, '\n');
    lemma_split_nonempty(text, '\n');
    assert forall|i: int| 0 <= i < lines(text).len() implies !(#[trigger] lines(text)[i]).contains('\n') by {
        let line = lines(text)[i];
        assert(!parts[i].contains('\n'));
        if line.contains('\n') {
            let k = choose|k: int| 0 <= k < line.len() && line[k] == '\n';
            assert(parts[i][k] == '\n');
        }
    }
}

/// Behind a text that is empty or ends with a line feed, the lines of what
/// follows come after the lines of the text.
pub proof fn lemma_lines_concat(a: Seq<char>, b: Seq<char>)
    requires
        a.len() == 0 || a.last() == '\n',
    ensures
        lines(a + b) == lines(a) + lines(b),
{
    lemma_split_concat(a, b, '\n');
    lemma_split_last(a, '\n');
    lemma_split_last(b, '\n');
    let pa = split(a, '\n');
    let pb = split(b, '\n');
    let all = split(a + b, '\n');
    assert(all.last() == pb.last());
    assert forall|i: int| 0 <= i < pa.len() - 1 implies all[i] == pa[i] by {}
    assert forall|i: int| 0 <= i < pb.len() implies all[pa.len() - 1 + i] == pb[i] by {}
    assert(lines(a + b) =~= lines(a) + lines(b));
}

/// The pieces of `s` between the occurrences of `sep`.
pub fn split_chars(s: &[char], sep: char) -> (parts: Vec<Vec<char>>)
    ensures
        views(parts@) == split(s@, sep),
{
    let mut parts: Vec<Vec<char>> = Vec::new();
    let mut cur: Vec<char> = Vec::new();
    let mut i: usize = 0;
    while i < s.len()
        invariant
            i <= s.len(),
            views(parts@).push(cur@) == split(s@.take(i as int), sep),
        decreases s.len() - i,
    {
        let ghost before = views(parts@);
        let ghost piece = cur@;
        proof {
            assert(s@.take(i + 1).drop_last() == s@.take(i as int));
            assert(before.push(piece).drop_last() == before);
        }
        if s[i] == sep {
            parts.push(cur);
            cur = Vec::new();
            assert(views(parts@) == before.push(piece));
        } else {
            cur.push(s[i]);
            assert(views(parts@) == before);
        }
        i = i + 1;
    }
    proof {
        assert(s@.take(i as int) == s@);
    }
    let ghost before = views(parts@);
    let ghost piece = cur@;
    parts.push(cur);
    assert(views(parts@) == before.push(piece));
    parts
}

/// `line` without one carriage return at its end, if it has one there.
pub open spec fn strip_cr(line: Seq<char>) -> Seq<char> {
    if line.len() > 0 && line.last() == '\r' {
        line.drop_last()
    } else {
        line
    }
}

/// The lines of `text`. A line ends at a line feed; the line feed, and one
/// carriage return directly before it, are not part of the line. What follows
/// the last line feed is a line of its own unless it is empty.
pub open spec fn lines(text: Seq<char>) -> Seq<Seq<char>> {
    let parts = split(text, '\n');
    let ended = Seq::new((parts.len() - 1) as nat, |i: int| strip_cr(parts[i]));
    if parts.last().len() == 0 {
        ended
    } else {
        ended.push(parts.last())
    }
}

/// The lines of `text`, as `lines` defines them.
pub fn split_lines(text: &[char]) -> (out: Vec<Vec<char>>)
    ensures
        views(out@) == lines(text@),
{
    let mut out: Vec<Vec<char>> = Vec::new();
    let mut cur: Vec<char> = Vec::new();
    let mut i: usize = 0;
    proof {
        assert(views(out@) =~= Seq::new(0, |k: int| strip_cr(split(text@.take(0), '\n')[k])));
    }
    while i < text.len()
        invariant
            i <= text.len(),
            split(text@.take(i as int), '\n').len() >= 1,
            views(out@) == Seq::new(
                (split(text@.take(i as int), '\n').len() - 1) as nat,
                |k: int| strip_cr(split(text@.take(i as int), '\n')[k]),
            ),
            cur@ == split(text@.take(i as int), '\n').last(),
        decreases text.len() - i,
    {
        let ghost before = views(out@);
        let ghost piece = cur@;
        let ghost old_parts = split(text@.take(i as int), '\n');
        let ghost new_parts = split(text@.take(i + 1), '\n');
        proof {
            assert(text@.take(i + 1).drop_last() == text@.take(i as int));
        }
        if text[i] == '\n' {
            let n = cur.len();
            if n > 0 && cur[n - 1] == '\r' {
                cur.pop();
            }
            assert(cur@ == strip_cr(piece));
            out.push(cur);
            cur = Vec::new();
            proof {
                assert(new_parts == old_parts.push(Seq::<char>::empty()));
                assert(views(out@) =~= before.push(strip_cr(piece)));
                assert(new_parts.len() - 1 == old_parts.len());
                assert(new_parts[old_parts.len() - 1] == piece);
                assert(views(out@) =~= Seq::new(
                    (new_parts.len() - 1) as nat,
                    |k: int| strip_cr(new_parts[k]),
                ));
            }
        } else {
            cur.push(text[i]);
            proof {
                assert(new_parts == old_parts.drop_last().push(old_parts.last().push(text@[i as int])));
                assert(views(out@) =~= Seq::new(
                    (new_parts.len() - 1) as nat,
                    |k: int| strip_cr(new_parts[k]),
                ));
            }
        }
        i = i + 1;
    }
    proof {
        assert(text@.take(i as int) == text@);
    }
    if cur.len() > 0 {
        let ghost before = views(out@);
        let ghost piece = cur@;
        out.push(cur);
        assert(views(out@) =~= before.push(piece));
    }
    out
}

/// The characters that Unicode gives the property White_Space.
pub open spec fn is_whitespace(c: char) -> bool {
    let n = c as u32;
    ||| 0x09 <= n <= 0x0D
    ||| n == 0x20
    ||| n == 0x85
    ||| n == 0xA0
    ||| n == 0x1680
    ||| 0x2000 <= n <= 0x200A
    ||| n == 0x2028
    ||| n == 0x2029
    ||| n == 0x202F
    ||| n == 0x205F
    ||| n == 0x3000
}

/// Whether `c` is a whitespace character.
pub fn is_space(c: char) -> (r: bool)
    ensures
        r == is_whitespace(c),
{
    let n: u32 = c as u32;
    (0x09 <= n && n <= 0x0D) || n == 0x20 || n == 0x85 || n == 0xA0 || n == 0x1680 || (0x2000 <= n
        && n <= 0x200A) || n == 0x2028 || n == 0x2029 || n == 0x202F || n == 0x205F || n == 0x3000
}

/// Whether a token begins at position `i` of `s`: a character that is no
/// whitespace, at the start of `s` or right after whitespace.
pub open spec fn token_starts_at(s: Seq<char>, i: int) -> bool {
    0 <= i < s.len() && !is_whitespace(s[i]) && (i == 0 || is_whitespace(s[i - 1]))
}

/// The number of tokens of `s`: its maximal runs of characters that are no
/// whitespace.
pub open spec fn token_count(s: Seq<char>) -> nat
    decreases s.len(),
{
    if s.len() == 0 {
        0
    } else {
        token_count(s.drop_last()) + if token_starts_at(s, s.len() - 1) {
            1nat
        } else {
            0nat
        }
    }
}

/// The number of whitespace-delimited tokens of `s`.
pub fn count_tokens(s: &[char]) -> (n: usize)
    ensures
        n == token_count(s@),
{
    let mut n: usize = 0;
    let mut after_space = true;
    let mut i: usize = 0;
    while i < s.len()
        invariant
            i <= s.len(),
            n == token_count(s@.take(i as int)),
            n <= i,
            after_space == (i == 0 || is_whitespace(s@[i - 1])),
        decreases s.len() - i,
    {
        proof {
            assert(s@.take(i + 1).drop_last() == s@.take(i as int));
            assert(token_starts_at(s@.take(i + 1), i as int) == token_starts_at(s@, i as int));
        }
        let space = is_space(s[i]);
        if !space && after_space {
            n = n + 1;
        }
        after_space = space;
        i = i + 1;
    }
    proof {
        assert(s@.take(i as int) == s@);
    }
    n
}

/// `c` with the Latin capital letters A to Z turned into a to z.
pub open spec fn ascii_lower(c: char) -> char {
    if 'A' <= c <= 'Z' {
        ((c as u8) + 32) as u8 as char
    } else {
        c
    }
}

/// `s` with each character turned to lower case as `ascii_lower` does.
pub open spec fn to_ascii_lower(s: Seq<char>) -> Seq<char> {
    Seq::new(s.len(), |i: int| ascii_lower(s[i]))
}

/// `c` in lower case, for the letters A to Z.
pub fn lower_char(c: char) -> (r: char)
    ensures
        r == ascii_lower(c),
{
    if 'A' <= c && c <= 'Z' {
        let b: u8 = c as u8;
        (b + 32) as char
    } else {
        c
    }
}

/// `s` in lower case, for the letters A to Z.
pub fn lower_chars(s: &[char]) -> (out: Vec<char>)
    ensures
        out@ == to_ascii_lower(s@),
{
    let mut out: Vec<char> = Vec::new();
    let mut i: usize = 0;
    while i < s.len()
        invariant
            i <= s.len(),
            out@ == to_ascii_lower(s@.take(i as int)),
        decreases s.len() - i,
    {
        out.push(lower_char(s[i]));
        assert(out@ =~= to_ascii_lower(s@.take(i + 1)));
        i = i + 1;
    }
    proof {
        assert(s@.take(i as int) == s@);
    }
    out
}


/// A copy of `v` with the same strings in the same order.
pub fn clone_strings(v: &Vec<String>) -> (out: Vec<String>)
    ensures
        string_views(out@) == string_views(v@),
{
    let mut out: Vec<String> = Vec::new();
    let mut i: usize = 0;
    while i < v.len()
        invariant
            i <= v.len(),
            string_views(out@) == string_views(v@).take(i as int),
        decreases v.len() - i,
    {
        let ghost before = string_views(out@);
        let copy = v[i].clone();
        assert(copy@ == v@[i as int]@);
        out.push(copy);
        assert(string_views(out@) =~= before.push(copy@));
        assert(string_views(out@) =~= string_views(v@).take(i + 1));
        i = i + 1;
    }
    assert(string_views(v@).take(i as int) =~= string_views(v@));
    out
}

/// Appends the characters of `v` to `out`.
pub fn push_chars(out: &mut String, v: &[char])
    ensures
        final(out)@ == old(out)@ + v@,
{
    let ghost head = out@;
    let mut i: usize = 0;
    assert(v@.take(0) =~= Seq::<char>::empty());
    while i < v.len()
        invariant
            i <= v.len(),
            out@ == head + v@.take(i as int),
        decreases v.len() - i,
    {
        out.push(v[i]);
        assert(v@.take(i + 1) == v@.take(i as int).push(v@[i as int]));
        i = i + 1;
    }
    assert(v@.take(i as int) == v@);
}


/// `s` without the whitespace at its start.
pub open spec fn trim_start(s: Seq<char>) -> Seq<char>
    decreases s.len(),
{
    if s.len() > 0 && is_whitespace(s[0]) {
        trim_start(s.skip(1))
    } else {
        s
    }
}

/// `s` without the whitespace at its end.
pub open spec fn trim_end(s: Seq<char>) -> Seq<char>
    decreases s.len(),
{
    if s.len() > 0 && is_whitespace(s.last()) {
        trim_end(s.drop_last())
    } else {
        s
    }
}

/// `s` without the whitespace at its start and at its end.
pub open spec fn trim(s: Seq<char>) -> Seq<char> {
    trim_end(trim_start(s))
}

/// The characters `from..to` of `s`.
pub fn copy_range(s: &[char], from: usize, to: usize) -> (out: Vec<char>)
    requires
        from <= to <= s.len(),
    ensures
        out@ == s@.subrange(from as int, to as int),
{
    let mut out: Vec<char> = Vec::new();
    let mut i: usize = from;
    while i < to
        invariant
            from <= i <= to <= s.len(),
            out@ == s@.subrange(from as int, i as int),
        decreases to - i,
    {
        out.push(s[i]);
        assert(out@ =~= s@.subrange(from as int, i + 1));
        i = i + 1;
    }
    out
}

/// `s` without the whitespace at its start and at its end.
pub fn trim_chars(s: &[char]) -> (out: Vec<char>)
    ensures
        out@ == trim(s@),
{
    let mut i: usize = 0;
    proof {
        assert(s@.skip(0) == s@);
    }
    while i < s.len() && is_space(s[i])
        invariant
            i <= s.len(),
            trim_start(s@) == trim_start(s@.skip(i as int)),
        decreases s.len() - i,
    {
        proof {
            assert(s@.skip(i as int).skip(1) == s@.skip(i + 1));
        }
        i = i + 1;
    }
    assert(trim_start(s@) == s@.skip(i as int));
    let ghost rest = s@.skip(i as int);
    let mut j: usize = s.len();
    proof {
        assert(rest.take(rest.len() as int) == rest);
    }
    while j > i && is_space(s[j - 1])
        invariant
            i <= j <= s.len(),
            rest == s@.skip(i as int),
            trim_end(rest) == trim_end(rest.take(j - i)),
        decreases j,
    {
        proof {
            assert(rest.take(j - i).last() == s@[j - 1]);
            assert(rest.take(j - i).drop_last() == rest.take(j - 1 - i));
        }
        j = j - 1;
    }
    proof {
        if j > i {
            assert(rest.take(j - i).last() == s@[j - 1]);
        }
        assert(trim_end(rest) == rest.take(j - i));
        assert(rest.take(j - i) =~= s@.subrange(i as int, j as int));
    }
    copy_range(s, i, j)
}

/// `s` without the whitespace at its start.
pub fn trim_start_chars(s: &[char]) -> (out: Vec<char>)
    ensures
        out@ == trim_start(s@),
{
    let mut i: usize = 0;
    proof {
        assert(s@.skip(0) == s@);
    }
    while i < s.len() && is_space(s[i])
        invariant
            i <= s.len(),
            trim_start(s@) == trim_start(s@.skip(i as int)),
        decreases s.len() - i,
    {
        proof {
            assert(s@.skip(i as int).skip(1) == s@.skip(i + 1));
        }
        i = i + 1;
    }
    assert(s@.skip(i as int) =~= s@.subrange(i as int, s.len() as int));
    copy_range(s, i, s.len())
}

} // verus!
