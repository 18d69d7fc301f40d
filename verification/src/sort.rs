//! The order of paths in the directory tree: strings compared character by
//! character, by code point, a prefix before what it is a prefix of.

use crate::text::views;
use vstd::prelude::*;

verus! {

/// Whether `a` comes before `b` or equals it.
pub open spec fn precedes(a: Seq<char>, b: Seq<char>) -> bool
    decreases a.len(),
{
    if a.len() == 0 {
        true
    } else if b.len() == 0 {
        false
    } else if a[0] != b[0] {
        a[0] < b[0]
    } else {
        precedes(a.skip(1), b.skip(1))
    }
}

/// Whether each element of `s` precedes the elements after it.
pub open spec fn is_ascending(s: Seq<Seq<char>>) -> bool {
    forall|i: int, j: int| 0 <= i <= j < s.len() ==> precedes(#[trigger] s[i], #[trigger] s[j])
}

/// `s`, which is ascending, with `x` put in behind the last element that
/// precedes it.
pub open spec fn insert_sorted(s: Seq<Seq<char>>, x: Seq<char>) -> Seq<Seq<char>>
    decreases s.len(),
{
    if s.len() == 0 {
        seq![x]
    } else if precedes(s.last(), x) {
        s.push(x)
    } else {
        insert_sorted(s.drop_last(), x).push(s.last())
    }
}

/// The elements of `s` in ascending order.
pub open spec fn sorted(s: Seq<Seq<char>>) -> Seq<Seq<char>>
    decreases s.len(),
{
    if s.len() == 0 {
        Seq::<Seq<char>>::empty()
    } else {
        insert_sorted(sorted(s.drop_last()), s.last())
    }
}

/// Every string precedes itself.
pub proof fn lemma_precedes_reflexive(a: Seq<char>)
    ensures
        precedes(a, a),
    decreases a.len(),
{
    if a.len() > 0 {
        lemma_precedes_reflexive(a.skip(1));
    }
}

/// Of two strings one precedes the other.
pub proof fn lemma_precedes_total(a: Seq<char>, b: Seq<char>)
    ensures
        precedes(a, b) || precedes(b, a),
    decreases a.len(),
{
    if a.len() > 0 && b.len() > 0 && a[0] == b[0] {
        lemma_precedes_total(a.skip(1), b.skip(1));
    }
}

/// Two strings that precede each other are equal.
pub proof fn lemma_precedes_antisymmetric(a: Seq<char>, b: Seq<char>)
    requires
        precedes(a, b),
        precedes(b, a),
    ensures
        a == b,
    decreases a.len(),
{
    if a.len() > 0 && b.len() > 0 {
        lemma_precedes_antisymmetric(a.skip(1), b.skip(1));
        assert(a =~= seq![a[0]] + a.skip(1));
        assert(b =~= seq![b[0]] + b.skip(1));
    } else {
        assert(a =~= b);
    }
}

/// What precedes a string precedes all that the string precedes.
pub proof fn lemma_precedes_transitive(a: Seq<char>, b: Seq<char>, c: Seq<char>)
    requires
        precedes(a, b),
        precedes(b, c),
    ensures
        precedes(a, c),
    decreases a.len(),
{
    if a.len() > 0 && b.len() > 0 && c.len() > 0 {
        if a[0] == b[0] && b[0] == c[0] {
            lemma_precedes_transitive(a.skip(1), b.skip(1), c.skip(1));
        }
    }
}

/// Putting `x` into an ascending sequence keeps it ascending, keeps its
/// elements and adds `x`.
pub proof fn lemma_insert_sorted(s: Seq<Seq<char>>, x: Seq<char>)
    requires
        is_ascending(s),
    ensures
        is_ascending(insert_sorted(s, x)),
        insert_sorted(s, x).len() == s.len() + 1,
        insert_sorted(s, x).to_multiset() == s.to_multiset().insert(x),
        forall|y: Seq<char>| #[trigger] insert_sorted(s, x).contains(y) <==> (s.contains(y) || y == x),
    decreases s.len(),
{
    broadcast use vstd::seq_lib::group_to_multiset_ensures;

    let out = insert_sorted(s, x);
    if s.len() == 0 {
        assert(s =~= Seq::<Seq<char>>::empty());
        assert(out =~= s.push(x));
        lemma_precedes_reflexive(x);
        assert forall|y: Seq<char>| out.contains(y) <==> (s.contains(y) || y == x) by {
            if out.contains(y) {
                let k = choose|k: int| 0 <= k < out.len() && out[k] == y;
            }
            if y == x {
                assert(out[0] == y);
            }
        }
    } else if precedes(s.last(), x) {
        assert forall|i: int, j: int| 0 <= i <= j < out.len() implies precedes(
            #[trigger] out[i],
            #[trigger] out[j],
        ) by {
            if j < s.len() {
                assert(precedes(s[i], s[j]));
            } else if i < s.len() {
                assert(precedes(s[i], s[s.len() - 1]));
                lemma_precedes_transitive(s[i], s.last(), x);
            } else {
                lemma_precedes_reflexive(x);
            }
        }
        assert forall|y: Seq<char>| out.contains(y) <==> (s.contains(y) || y == x) by {
            if out.contains(y) {
                let k = choose|k: int| 0 <= k < out.len() && out[k] == y;
                if k < s.len() {
                    assert(s[k] == y);
                }
            }
            if s.contains(y) {
                let k = choose|k: int| 0 <= k < s.len() && s[k] == y;
                assert(out[k] == y);
            }
            if y == x {
                assert(out[s.len() as int] == y);
            }
        }
    } else {
        let head = s.drop_last();
        let inner = insert_sorted(head, x);
        assert(is_ascending(head)) by {
            assert forall|i: int, j: int| 0 <= i <= j < head.len() implies precedes(
                #[trigger] head[i],
                #[trigger] head[j],
            ) by {
                assert(precedes(s[i], s[j]));
            }
        }
        lemma_insert_sorted(head, x);
        lemma_precedes_total(s.last(), x);
        assert(s =~= head.push(s.last()));
        assert(out == inner.push(s.last()));
        assert forall|i: int, j: int| 0 <= i <= j < out.len() implies precedes(
            #[trigger] out[i],
            #[trigger] out[j],
        ) by {
            if j < inner.len() {
                assert(precedes(inner[i], inner[j]));
            } else if i < inner.len() {
                assert(inner.contains(inner[i]));
                if inner[i] == x {
                } else {
                    assert(head.contains(inner[i]));
                    let k = choose|k: int| 0 <= k < head.len() && head[k] == inner[i];
                    assert(precedes(s[k], s[s.len() - 1]));
                }
            } else {
                lemma_precedes_reflexive(s.last());
            }
        }
        assert(s.to_multiset() =~= head.to_multiset().insert(s.last()));
        assert(out.to_multiset() =~= inner.to_multiset().insert(s.last()));
        assert(out.to_multiset() =~= s.to_multiset().insert(x));
        assert forall|y: Seq<char>| out.contains(y) <==> (s.contains(y) || y == x) by {
            if out.contains(y) {
                let k = choose|k: int| 0 <= k < out.len() && out[k] == y;
                if k < inner.len() {
                    assert(inner.contains(y));
                    if head.contains(y) {
                        let m = choose|m: int| 0 <= m < head.len() && head[m] == y;
                        assert(s[m] == y);
                    }
                } else {
                    assert(s[s.len() - 1] == y);
                }
            }
            if s.contains(y) {
                let k = choose|k: int| 0 <= k < s.len() && s[k] == y;
                if k < head.len() {
                    assert(head[k] == y);
                    assert(head.contains(y));
                    assert(inner.contains(y));
                    let m = choose|m: int| 0 <= m < inner.len() && inner[m] == y;
                    assert(out[m] == y);
                } else {
                    assert(out[inner.len() as int] == y);
                }
            }
            if y == x {
                assert(inner.contains(y));
                let m = choose|m: int| 0 <= m < inner.len() && inner[m] == y;
                assert(out[m] == y);
            }
        }
    }
}

/// `sorted(s)` is ascending and holds the elements of `s`, each as often as
/// `s` does.
pub proof fn lemma_sorted(s: Seq<Seq<char>>)
    ensures
        is_ascending(sorted(s)),
        sorted(s).len() == s.len(),
        sorted(s).to_multiset() == s.to_multiset(),
        forall|y: Seq<char>| #[trigger] sorted(s).contains(y) <==> s.contains(y),
    decreases s.len(),
{
    broadcast use vstd::seq_lib::group_to_multiset_ensures;

    if s.len() == 0 {
        assert(s =~= sorted(s));
    } else {
        let head = s.drop_last();
        lemma_sorted(head);
        lemma_insert_sorted(sorted(head), s.last());
        assert(s =~= head.push(s.last()));
        assert(s.to_multiset() =~= head.to_multiset().insert(s.last()));
        assert forall|y: Seq<char>| sorted(s).contains(y) <==> s.contains(y) by {
            if s.contains(y) {
                let k = choose|k: int| 0 <= k < s.len() && s[k] == y;
                if k < head.len() {
                    assert(head[k] == y);
                    assert(head.contains(y));
                }
            }
            if head.contains(y) {
                let k = choose|k: int| 0 <= k < head.len() && head[k] == y;
                assert(s[k] == y);
            }
            if y == s.last() {
                assert(s[s.len() - 1] == y);
            }
        }
    }
}


/// There is one ascending order of given elements: two ascending sequences
/// that hold the same elements, each as often as the other, are equal.
pub proof fn lemma_ascending_unique(a: Seq<Seq<char>>, b: Seq<Seq<char>>)
    requires
        is_ascending(a),
        is_ascending(b),
        a.to_multiset() == b.to_multiset(),
    ensures
        a == b,
    decreases a.len(),
{
    broadcast use vstd::seq_lib::group_to_multiset_ensures;

    assert(a.len() == b.len()) by {
        assert(a.to_multiset().len() == a.len());
        assert(b.to_multiset().len() == b.len());
    }
    if a.len() == 0 {
        assert(a =~= b);
    } else {
        let n = a.len() as int;
        let x = a[n - 1];
        let y = b[n - 1];
        assert(a.contains(x));
        assert(b.contains(y));
        assert(b.to_multiset().count(x) > 0);
        assert(a.to_multiset().count(y) > 0);
        assert(b.contains(x));
        assert(a.contains(y));
        let j = choose|j: int| 0 <= j < b.len() && b[j] == x;
        let k = choose|k: int| 0 <= k < a.len() && a[k] == y;
        assert(precedes(b[j], b[n - 1]));
        assert(precedes(a[k], a[n - 1]));
        lemma_precedes_antisymmetric(x, y);
        let a0 = a.drop_last();
        let b0 = b.drop_last();
        assert(a.remove(n - 1) =~= a0);
        assert(b.remove(n - 1) =~= b0);
        vstd::seq_lib::to_multiset_remove(a, n - 1);
        vstd::seq_lib::to_multiset_remove(b, n - 1);
        assert(a0.to_multiset() == b0.to_multiset());
        assert forall|i: int, m: int| 0 <= i <= m < a0.len() implies precedes(
            #[trigger] a0[i],
            #[trigger] a0[m],
        ) by {
            assert(precedes(a[i], a[m]));
        }
        assert forall|i: int, m: int| 0 <= i <= m < b0.len() implies precedes(
            #[trigger] b0[i],
            #[trigger] b0[m],
        ) by {
            assert(precedes(b[i], b[m]));
        }
        lemma_ascending_unique(a0, b0);
        assert(a =~= a0.push(x));
        assert(b =~= b0.push(y));
    }
}

/// Sorting a sequence with one more element at its end is putting that
/// element into the sorted sequence.
pub proof fn lemma_sorted_step(s: Seq<Seq<char>>, x: Seq<char>)
    ensures
        sorted(s.push(x)) == insert_sorted(sorted(s), x),
{
    assert(s.push(x).drop_last() == s);
    assert(s.push(x).last() == x);
}

/// Whether `a` comes before `b` or equals it.
pub fn comes_first(a: &[char], b: &[char]) -> (r: bool)
    ensures
        r == precedes(a@, b@),
{
    let mut i: usize = 0;
    proof {
        assert(a@.skip(0) == a@);
        assert(b@.skip(0) == b@);
    }
    while i < a.len() && i < b.len()
        invariant
            i <= a.len(),
            i <= b.len(),
            precedes(a@, b@) == precedes(a@.skip(i as int), b@.skip(i as int)),
        decreases a.len() - i,
    {
        if a[i] != b[i] {
            return a[i] < b[i];
        }
        proof {
            assert(a@.skip(i as int).skip(1) == a@.skip(i + 1));
            assert(b@.skip(i as int).skip(1) == b@.skip(i + 1));
        }
        i = i + 1;
    }
    a.len() <= b.len()
}

/// Puts `x` into `out`, which is ascending, behind the last element that
/// precedes it.
pub fn insert_path(out: &mut Vec<Vec<char>>, x: Vec<char>)
    ensures
        views(final(out)@) == insert_sorted(views(old(out)@), x@),
{
    let ghost all = views(out@);
    let mut p: usize = out.len();
    let mut found = false;
    proof {
        assert(all.take(p as int) == all);
        assert(insert_sorted(all, x@) + all.skip(p as int) =~= insert_sorted(all, x@));
    }
    while p > 0 && !found
        invariant
            p <= out.len(),
            all == views(out@),
            insert_sorted(all, x@) == insert_sorted(all.take(p as int), x@) + all.skip(p as int),
            found ==> p > 0 && precedes(all[p - 1], x@),
        decreases p + if found { 0int } else { 1int },
    {
        assert(all[p - 1] == out@[p - 1]@);
        if comes_first(out[p - 1].as_slice(), x.as_slice()) {
            found = true;
        } else {
            proof {
                let head = all.take(p as int);
                assert(head.last() == all[p - 1]);
                assert(head.drop_last() == all.take(p - 1));
                assert(insert_sorted(head, x@) == insert_sorted(all.take(p - 1), x@).push(all[p - 1]));
                assert(insert_sorted(all.take(p - 1), x@).push(all[p - 1]) + all.skip(p as int)
                    =~= insert_sorted(all.take(p - 1), x@) + all.skip(p - 1));
            }
            p = p - 1;
        }
    }
    proof {
        let head = all.take(p as int);
        if found {
            assert(head.last() == all[p - 1]);
            assert(insert_sorted(head, x@) == head.push(x@));
        } else {
            assert(head =~= Seq::<Seq<char>>::empty());
        }
        assert(head.push(x@) + all.skip(p as int) =~= all.insert(p as int, x@));
    }
    out.insert(p, x);
    proof {
        assert(views(out@) =~= all.insert(p as int, x@));
    }
}

} // verus!
