//! Text as sequences of characters: the few string operations that the rest
//! of the library is built on.

use vstd::prelude::*;
use vstd::std_specs::iter::IteratorSpec;

verus! {

/// Whether `needle` occurs in `hay` as a contiguous run of characters. The
/// empty sequence occurs in every sequence.
pub open spec fn is_infix(needle: Seq<char>, hay: Seq<char>) -> bool {
    exists|k: int| occurs_at(needle, hay, k)
}

/// Whether `needle` occurs in `hay` starting at index `k`.
pub open spec fn occurs_at(needle: Seq<char>, hay: Seq<char>, k: int) -> bool {
    0 <= k && k + needle.len() <= hay.len() && hay.subrange(k, k + needle.len()) == needle
}

/// The texts of a list of strings.
pub open spec fn strings_view(strings: Seq<String>) -> Seq<Seq<char>> {
    Seq::new(strings.len(), |i: int| strings[i]@)
}

/// The texts of `pieces` from index `i` on, each behind the separator.
pub open spec fn joined_from(pieces: Seq<Seq<char>>, separator: char, i: int) -> Seq<char>
    decreases pieces.len() - i,
{
    if 0 <= i < pieces.len() {
        seq![separator] + pieces[i] + joined_from(pieces, separator, i + 1)
    } else {
        Seq::empty()
    }
}

/// The texts of `pieces` with the separator between each two.
pub open spec fn joined(pieces: Seq<Seq<char>>, separator: char) -> Seq<char> {
    if pieces.len() > 0 {
        pieces[0] + joined_from(pieces, separator, 1)
    } else {
        Seq::empty()
    }
}

/// The characters of a string, in order.
pub fn chars_of(s: &str) -> (v: Vec<char>)
    ensures
        v@ == s@,
{
    let mut v: Vec<char> = Vec::new();
    for c in it: s.chars()
        invariant
            v@ == it.seq().take(it.index()),
    {
        v.push(c);
    }
    v
}

/// Whether `needle` stands in `hay` at index `k`, compared character by
/// character.
fn matches_at(needle: &Vec<char>, hay: &Vec<char>, k: usize) -> (found: bool)
    requires
        k + needle.len() <= hay.len(),
    ensures
        found == occurs_at(needle@, hay@, k as int),
{
    let n = needle.len();
    let mut j: usize = 0;
    while j < n
        invariant
            n == needle.len(),
            k + n <= hay.len(),
            j <= n,
            hay@.subrange(k as int, k + j) == needle@.take(j as int),
        decreases n - j,
    {
        if hay[k + j] != needle[j] {
            assert(hay@.subrange(k as int, k + n)[j as int] != needle@[j as int]);
            return false;
        }
        assert(hay@.subrange(k as int, k + j + 1) == hay@.subrange(k as int, k + j).push(
            hay@[k + j],
        ));
        assert(needle@.take(j + 1) == needle@.take(j as int).push(needle@[j as int]));
        j += 1;
    }
    assert(needle@.take(n as int) == needle@);
    true
}

/// Substring test on characters: whether `needle` occurs somewhere in `hay`.
pub fn contains_chars(hay: &Vec<char>, needle: &Vec<char>) -> (found: bool)
    ensures
        found == is_infix(needle@, hay@),
{
    if needle.len() > hay.len() {
        return false;
    }
    let last = hay.len() - needle.len();
    let mut k: usize = 0;
    while k < last
        invariant
            needle.len() <= hay.len(),
            last == hay.len() - needle.len(),
            k <= last,
            forall|i: int| 0 <= i < k ==> !occurs_at(needle@, hay@, i),
        decreases last - k,
    {
        if matches_at(needle, hay, k) {
            return true;
        }
        k += 1;
    }
    matches_at(needle, hay, last)
}

/// Substring test on strings, case-sensitive and exact: whether `needle`
/// occurs somewhere in `hay`.
pub fn contains_text(hay: &str, needle: &str) -> (found: bool)
    ensures
        found == is_infix(needle@, hay@),
{
    let h = chars_of(hay);
    let n = chars_of(needle);
    contains_chars(&h, &n)
}

/// Whether two strings hold the same characters.
pub fn same_text(a: &str, b: &str) -> (same: bool)
    ensures
        same == (a@ == b@),
{
    let mut left = a.chars();
    let mut right = b.chars();
    let ghost mut n: int = 0;
    loop
        invariant
            0 <= n <= a@.len(),
            n <= b@.len(),
            left.remaining() == a@.skip(n),
            right.remaining() == b@.skip(n),
            a@.take(n) == b@.take(n),
            left.obeys_prophetic_iter_laws(),
            right.obeys_prophetic_iter_laws(),
        decreases a@.len() - n,
    {
        let x = left.next();
        let y = right.next();
        match (x, y) {
            (None, None) => {
                assert(a@.take(n) == a@);
                assert(b@.take(n) == b@);
                return true;
            },
            (Some(c), Some(d)) => {
                if c != d {
                    assert(a@[n] != b@[n]);
                    return false;
                }
                proof {
                    assert(a@.take(n + 1) == a@.take(n).push(a@[n]));
                    assert(b@.take(n + 1) == b@.take(n).push(b@[n]));
                    assert(a@.skip(n).drop_first() == a@.skip(n + 1));
                    assert(b@.skip(n).drop_first() == b@.skip(n + 1));
                    n = n + 1;
                }
            },
            _ => {
                return false;
            },
        }
    }
}

/// Whether two texts hold the same characters up to index `k`.
pub open spec fn agree_to(a: Seq<char>, b: Seq<char>, k: int) -> bool {
    0 <= k <= a.len() && k <= b.len() && forall|i: int| 0 <= i < k ==> a[i] == b[i]
}

/// Whether `a` comes before `b` because of what stands at index `k`: the
/// texts are alike up to there, and there `a` ends or holds the lesser
/// character.
pub open spec fn precedes_at(a: Seq<char>, b: Seq<char>, k: int) -> bool {
    agree_to(a, b, k) && k < b.len() && (k == a.len() || a[k] < b[k])
}

/// Whether `a` comes before `b` in the order of a dictionary, characters
/// ordered by their code.
pub open spec fn precedes(a: Seq<char>, b: Seq<char>) -> bool {
    exists|k: int| precedes_at(a, b, k)
}

/// No text comes before itself.
pub proof fn lemma_precedes_irreflexive(a: Seq<char>)
    ensures
        !precedes(a, a),
{
}

/// Of two texts that are alike up to index `k`, one comes before the other
/// or they are the same.
proof fn lemma_precedes_total_from(a: Seq<char>, b: Seq<char>, k: int)
    requires
        agree_to(a, b, k),
    ensures
        a == b || precedes(a, b) || precedes(b, a),
    decreases a.len() - k,
{
    if k == a.len() {
        if k == b.len() {
            assert(a =~= b);
        } else {
            assert(precedes_at(a, b, k));
        }
    } else if k == b.len() {
        assert(precedes_at(b, a, k));
    } else if a[k] < b[k] {
        assert(precedes_at(a, b, k));
    } else if b[k] < a[k] {
        assert(precedes_at(b, a, k));
    } else {
        lemma_precedes_total_from(a, b, k + 1);
    }
}

/// Of two texts, one comes before the other or they are the same.
pub proof fn lemma_precedes_total(a: Seq<char>, b: Seq<char>)
    ensures
        a == b || precedes(a, b) || precedes(b, a),
{
    lemma_precedes_total_from(a, b, 0);
}

/// What comes before a text comes before what the text comes before.
pub proof fn lemma_precedes_transitive(a: Seq<char>, b: Seq<char>, c: Seq<char>)
    requires
        precedes(a, b),
        precedes(b, c),
    ensures
        precedes(a, c),
{
    let k1 = choose|k: int| precedes_at(a, b, k);
    let k2 = choose|k: int| precedes_at(b, c, k);
    if k1 <= k2 {
        assert(precedes_at(a, c, k1));
    } else {
        assert(precedes_at(a, c, k2));
    }
}

/// Whether `a` comes before `b` in the order of a dictionary.
pub fn text_precedes(a: &str, b: &str) -> (before: bool)
    ensures
        before == precedes(a@, b@),
{
    let mut left = a.chars();
    let mut right = b.chars();
    let ghost mut n: int = 0;
    loop
        invariant
            agree_to(a@, b@, n),
            left.remaining() == a@.skip(n),
            right.remaining() == b@.skip(n),
            left.obeys_prophetic_iter_laws(),
            right.obeys_prophetic_iter_laws(),
        decreases a@.len() - n,
    {
        let x = left.next();
        let y = right.next();
        match (x, y) {
            (None, None) => {
                assert(a@ =~= b@);
                return false;
            },
            (None, Some(_)) => {
                assert(precedes_at(a@, b@, n));
                return true;
            },
            (Some(_), None) => {
                assert forall|k: int| !precedes_at(a@, b@, k) by {}
                return false;
            },
            (Some(c), Some(d)) => {
                if c < d {
                    assert(precedes_at(a@, b@, n));
                    return true;
                }
                if d < c {
                    assert forall|k: int| !precedes_at(a@, b@, k) by {
                        if k > n && agree_to(a@, b@, k) {
                            assert(a@[n] == b@[n]);
                        }
                    }
                    return false;
                }
                proof {
                    assert(a@.skip(n).drop_first() == a@.skip(n + 1));
                    assert(b@.skip(n).drop_first() == b@.skip(n + 1));
                    n = n + 1;
                }
            },
        }
    }
}

} // verus!
