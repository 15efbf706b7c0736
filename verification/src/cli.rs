//! Options that take a list of values, written with commas between them.

use crate::text::{chars_of, joined, joined_from, same_text, strings_view};
use vstd::prelude::*;

verus! {

/// The values of an option that takes several.
#[derive(Debug, PartialEq, Eq)]
pub struct MultOpt<T>(pub Vec<T>);

/// The position of the first `,` at or behind `at`, or the end of `s` where
/// there is none.
pub open spec fn comma_or_end(s: Seq<char>, at: int) -> int
    decreases s.len() - at,
{
    if 0 <= at < s.len() && s[at] != ',' {
        comma_or_end(s, at + 1)
    } else {
        at
    }
}

/// The pieces of `s` from position `at` on that commas separate: always at
/// least one, and empty where two commas meet or `s` ends with one.
pub open spec fn pieces_from(s: Seq<char>, at: int) -> Seq<Seq<char>>
    decreases s.len() - at,
{
    let stop = comma_or_end(s, at);
    if 0 <= at <= stop < s.len() {
        seq![s.subrange(at, stop)] + pieces_from(s, stop + 1)
    } else {
        seq![s.subrange(at, s.len() as int)]
    }
}

/// What a list option reads as: nothing where it is written `[]`, else the
/// pieces that commas separate.
pub open spec fn list_of(src: Seq<char>) -> Seq<Seq<char>> {
    if src == "[]"@ {
        Seq::empty()
    } else {
        pieces_from(src, 0)
    }
}

/// Pieces behind a first piece join as the pieces alone do, one index
/// earlier.
proof fn lemma_joined_from_shift(first: Seq<char>, rest: Seq<Seq<char>>, i: int)
    requires
        0 <= i <= rest.len(),
    ensures
        joined_from(seq![first] + rest, ',', i + 1) == joined_from(rest, ',', i),
    decreases rest.len() - i,
{
    if i < rest.len() {
        lemma_joined_from_shift(first, rest, i + 1);
        assert((seq![first] + rest)[i + 1] == rest[i]);
    }
}

/// No character before the first comma is a comma.
proof fn lemma_comma_or_end(s: Seq<char>, at: int)
    requires
        0 <= at <= s.len(),
    ensures
        at <= comma_or_end(s, at) <= s.len(),
        forall|k: int| at <= k < comma_or_end(s, at) ==> #[trigger] s[k] != ',',
        comma_or_end(s, at) < s.len() ==> s[comma_or_end(s, at)] == ',',
    decreases s.len() - at,
{
    if at < s.len() && s[at] != ',' {
        lemma_comma_or_end(s, at + 1);
    }
}

/// Splitting loses nothing and leaves no comma: there is at least one
/// piece, no piece holds a comma, and the pieces with commas between them
/// are the text again.
pub proof fn lemma_pieces_join(s: Seq<char>, at: int)
    requires
        0 <= at <= s.len(),
    ensures
        pieces_from(s, at).len() > 0,
        forall|i: int, k: int|
            0 <= i < pieces_from(s, at).len() && 0 <= k < pieces_from(s, at)[i].len()
                ==> #[trigger] pieces_from(s, at)[i][k] != ',',
        joined(pieces_from(s, at), ',') == s.subrange(at, s.len() as int),
    decreases s.len() - at,
{
    let stop = comma_or_end(s, at);
    lemma_comma_or_end(s, at);
    if stop < s.len() {
        let first = s.subrange(at, stop);
        let rest = pieces_from(s, stop + 1);
        let all = seq![first] + rest;
        lemma_pieces_join(s, stop + 1);
        assert forall|i: int, k: int| 0 <= i < all.len() && 0 <= k < all[i].len() implies #[trigger] all[i][k]
            != ',' by {
            if i > 0 {
                assert(all[i] == rest[i - 1]);
            } else {
                assert(all[0][k] == s[at + k]);
            }
        }
        lemma_joined_from_shift(first, rest, 1);
        assert(all[1] == rest[0]);
        assert(joined_from(all, ',', 1) == seq![','] + joined(rest, ','));
        assert(joined(all, ',') == first + seq![','] + s.subrange(stop + 1, s.len() as int));
        assert(first + seq![','] + s.subrange(stop + 1, s.len() as int) == s.subrange(
            at,
            s.len() as int,
        ));
    } else {
        let only = s.subrange(at, s.len() as int);
        assert(joined_from(seq![only], ',', 1) == Seq::<char>::empty());
        assert(only + Seq::<char>::empty() == only);
    }
}

impl Default for MultOpt<String> {
    fn default() -> (opt: Self)
        ensures
            opt.0@.len() == 0,
    {
        MultOpt(Vec::new())
    }
}

/// Splits a text at its commas. The pieces come in order; there is always
/// at least one, and a piece is empty where two commas meet or the text
/// begins or ends with one.
pub fn split_list(src: &str) -> (items: Vec<String>)
    ensures
        strings_view(items@) == pieces_from(src@, 0),
{
    let chars = chars_of(src);
    let count = chars.len();
    let ghost s = src@;
    let mut items: Vec<String> = Vec::new();
    let mut start: usize = 0;
    let mut i: usize = 0;
    assert(strings_view(items@) + pieces_from(s, 0) == pieces_from(s, 0));
    while i < count
        invariant
            s == src@,
            chars@ == s,
            count == s.len(),
            start <= i <= count,
            comma_or_end(s, start as int) == comma_or_end(s, i as int),
            pieces_from(s, 0) == strings_view(items@) + pieces_from(s, start as int),
        decreases count - i,
    {
        if chars[i] == ',' {
            let piece = src.substring_char(start, i).to_owned();
            proof {
                let rest = pieces_from(s, i + 1);
                assert(strings_view(items@.push(piece)) == strings_view(items@).push(piece@));
                assert(strings_view(items@) + (seq![piece@] + rest) == strings_view(
                    items@,
                ).push(piece@) + rest);
            }
            items.push(piece);
            start = i + 1;
        }
        i += 1;
    }
    let last = src.substring_char(start, count).to_owned();
    proof {
        assert(strings_view(items@.push(last)) == strings_view(items@).push(last@));
        assert(strings_view(items@) + seq![last@] == strings_view(items@).push(last@));
    }
    items.push(last);
    items
}

impl MultOpt<String> {
    /// Reads the values of a list option: none where the text is `[]`, else
    /// the pieces of the text that commas separate.
    pub fn from_text(src: &str) -> (opt: Self)
        ensures
            strings_view(opt.0@) == list_of(src@),
    {
        if same_text(src, "[]") {
            let none: Vec<String> = Vec::new();
            assert(strings_view(none@) == Seq::<Seq<char>>::empty());
            MultOpt(none)
        } else {
            MultOpt(split_list(src))
        }
    }
}

} // verus!
