//! Structured records: the dynamically typed trees that filters are
//! evaluated against, and the descent into them along a path.

use crate::ast::EPath;
use crate::text::chars_of;
use vstd::prelude::*;

verus! {

/// A structured record, or any value nested in one.
///
/// A number carries its canonical decimal text, which is all that a filter
/// reads of it. An object lists its entries in order; where a key is listed
/// more than once, the first entry is the one that a lookup finds.
#[derive(Debug, PartialEq)]
pub enum Record {
    Null,
    Bool(bool),
    /// A number, by its decimal text.
    Number(String),
    /// A string.
    Text(String),
    /// An array, by its items in order.
    Array(Vec<Record>),
    /// An object, by its entries in order: each a key and a value.
    Object(Vec<(String, Record)>),
}

/// The mathematical value of a `Record`.
pub enum Json {
    Null,
    Bool(bool),
    Number(Seq<char>),
    Text(Seq<char>),
    Array(Seq<Json>),
    Object(Seq<(Seq<char>, Json)>),
}

/// The value that a record stands for.
pub open spec fn json_of(record: Record) -> Json
    decreases record,
{
    match record {
        Record::Null => Json::Null,
        Record::Bool(b) => Json::Bool(b),
        Record::Number(text) => Json::Number(text@),
        Record::Text(text) => Json::Text(text@),
        Record::Array(items) => Json::Array(
            Seq::new(
                items@.len(),
                |i: int|
                    if 0 <= i < items@.len() {
                        json_of(items@[i])
                    } else {
                        Json::Null
                    },
            ),
        ),
        Record::Object(entries) => Json::Object(
            Seq::new(
                entries@.len(),
                |i: int|
                    if 0 <= i < entries@.len() {
                        (entries@[i].0@, json_of(entries@[i].1))
                    } else {
                        (Seq::empty(), Json::Null)
                    },
            ),
        ),
    }
}

impl View for Record {
    type V = Json;

    open spec fn view(&self) -> Json {
        json_of(*self)
    }
}

/// The values of a list of records.
pub open spec fn items_view(items: Seq<Record>) -> Seq<Json> {
    Seq::new(items.len(), |i: int| items[i]@)
}

/// The keys and values of a list of object entries.
pub open spec fn entries_view(entries: Seq<(String, Record)>) -> Seq<(Seq<char>, Json)> {
    Seq::new(entries.len(), |i: int| (entries[i].0@, entries[i].1@))
}

/// The view of an array is the views of its items.
pub proof fn lemma_array_view(items: Vec<Record>)
    ensures
        Record::Array(items)@ == Json::Array(items_view(items@)),
{
    assert(Record::Array(items)@->Array_0 =~= items_view(items@));
}

/// The view of an object is the views of its entries.
pub proof fn lemma_object_view(entries: Vec<(String, Record)>)
    ensures
        Record::Object(entries)@ == Json::Object(entries_view(entries@)),
{
    assert(Record::Object(entries)@->Object_0 =~= entries_view(entries@));
}

/// The value of the first entry that is listed under `key`, if there is one.
pub open spec fn member(entries: Seq<(Seq<char>, Json)>, key: Seq<char>) -> Option<Json>
    decreases entries.len(),
{
    if entries.len() == 0 {
        None
    } else if entries[0].0 == key {
        Some(entries[0].1)
    } else {
        member(entries.drop_first(), key)
    }
}

/// Whether an entry is listed under `key`.
pub open spec fn names(entries: Seq<(Seq<char>, Json)>, key: Seq<char>) -> bool {
    exists|i: int| 0 <= i < entries.len() && (#[trigger] entries[i]).0 == key
}

/// A lookup finds a value exactly where an entry is listed under the key.
pub proof fn lemma_member_names(entries: Seq<(Seq<char>, Json)>, key: Seq<char>)
    ensures
        member(entries, key) is Some <==> names(entries, key),
    decreases entries.len(),
{
    if entries.len() > 0 {
        let rest = entries.drop_first();
        lemma_member_names(rest, key);
        if entries[0].0 != key {
            if names(rest, key) {
                let i = choose|i: int| 0 <= i < rest.len() && (#[trigger] rest[i]).0 == key;
                assert(entries[i + 1].0 == key);
            }
            if names(entries, key) {
                let i = choose|i: int| 0 <= i < entries.len() && (#[trigger] entries[i]).0 == key;
                assert(rest[i - 1].0 == key);
            }
        }
    }
}

/// Whether a character is one of the decimal digits `0` to `9`.
pub open spec fn is_digit(c: char) -> bool {
    '0' <= c <= '9'
}

/// The number that a decimal digit stands for.
pub open spec fn digit_value(c: char) -> nat {
    (c as int - '0' as int) as nat
}

/// The number that a sequence of decimal digits denotes in base 10.
pub open spec fn decimal_value(digits: Seq<char>) -> nat
    decreases digits.len(),
{
    if digits.len() == 0 {
        0
    } else {
        decimal_value(digits.drop_last()) * 10 + digit_value(digits.last())
    }
}

/// Whether a path segment is written as an array index: one or more decimal
/// digits, with no leading zero unless the segment is `0` itself.
pub open spec fn is_index(segment: Seq<char>) -> bool {
    &&& segment.len() > 0
    &&& forall|i: int| 0 <= i < segment.len() ==> is_digit(#[trigger] segment[i])
    &&& segment.len() > 1 ==> segment[0] != '0'
}

/// The array index that a path segment denotes, if it is written as one.
pub open spec fn index_of(segment: Seq<char>) -> Option<nat> {
    if is_index(segment) {
        Some(decimal_value(segment))
    } else {
        None
    }
}

/// One step of a descent: the child of `value` that `segment` addresses.
///
/// In an object the segment is a key, taken as it is written. In an array it
/// is an index in base 10. Nothing lies below a scalar or null.
pub open spec fn step(value: Json, segment: Seq<char>) -> Option<Json> {
    match value {
        Json::Object(entries) => member(entries, segment),
        Json::Array(items) => match index_of(segment) {
            Some(n) => if n < items.len() {
                Some(items[n as int])
            } else {
                None
            },
            None => None,
        },
        _ => None,
    }
}

/// The value found by following `path` from `value`, segment by segment;
/// `None` as soon as one segment does not resolve. Where no segment holds a
/// `/` or a `~`, this is what the JSON pointer made of the segments, a `/`
/// before each, resolves to.
pub open spec fn descend(path: Seq<Seq<char>>, value: Json) -> Option<Json>
    decreases path.len(),
{
    if path.len() == 0 {
        Some(value)
    } else {
        match step(value, path[0]) {
            Some(child) => descend(path.drop_first(), child),
            None => None,
        }
    }
}

/// The text that a scalar is compared as: a boolean as `true` or `false`, a
/// string as itself, a number as its decimal text. Null, arrays and objects
/// have none.
pub open spec fn coerce_to_text(value: Json) -> Option<Seq<char>> {
    match value {
        Json::Bool(b) => Some(if b { "true"@ } else { "false"@ }),
        Json::Text(text) => Some(text),
        Json::Number(text) => Some(text),
        _ => None,
    }
}

/// A longer digit sequence denotes at least as much as each of its prefixes.
pub proof fn lemma_decimal_value_grows(digits: Seq<char>, n: int)
    requires
        0 <= n <= digits.len(),
    ensures
        decimal_value(digits.take(n)) <= decimal_value(digits),
    decreases digits.len() - n,
{
    if n == digits.len() {
        assert(digits.take(n) == digits);
    } else {
        lemma_decimal_value_grows(digits, n + 1);
        assert(digits.take(n + 1).drop_last() == digits.take(n));
    }
}

/// Reads a path segment as an index into an array of `len` items.
pub fn array_index(segment: &str, len: usize) -> (index: Option<usize>)
    ensures
        index == match index_of(segment@) {
            Some(n) => if n < len {
                Some(n as usize)
            } else {
                None
            },
            None => None,
        },
{
    let digits = chars_of(segment);
    let count = digits.len();
    if count == 0 {
        return None;
    }
    if count > 1 && digits[0] == '0' {
        return None;
    }
    let mut i: usize = 0;
    while i < count
        invariant
            count == digits.len(),
            digits@ == segment@,
            i <= count,
            forall|k: int| 0 <= k < i ==> is_digit(#[trigger] digits@[k]),
        decreases count - i,
    {
        let c = digits[i];
        if c < '0' || c > '9' {
            assert(!is_digit(digits@[i as int]));
            return None;
        }
        i += 1;
    }
    assert(is_index(digits@));
    let mut value: usize = 0;
    let mut j: usize = 0;
    while j < count
        invariant
            count == digits.len(),
            digits@ == segment@,
            j <= count,
            is_index(digits@),
            value == decimal_value(digits@.take(j as int)),
            j > 0 ==> value < len,
        decreases count - j,
    {
        let c = digits[j];
        let d: u128 = (c as u32 - '0' as u32) as u128;
        let next: u128 = (value as u128) * 10 + d;
        proof {
            assert(digits@.take(j + 1).drop_last() == digits@.take(j as int));
            assert(next == decimal_value(digits@.take(j + 1)));
            lemma_decimal_value_grows(digits@, j + 1);
        }
        if next >= len as u128 {
            return None;
        }
        value = next as usize;
        j += 1;
    }
    assert(digits@.take(count as int) == digits@);
    Some(value)
}

/// Looks a key up among the entries of an object.
pub fn find_entry<'a>(entries: &'a Vec<(String, Record)>, key: &String) -> (found: Option<
    &'a Record,
>)
    ensures
        match found {
            Some(value) => member(entries_view(entries@), key@) == Some(value@),
            None => member(entries_view(entries@), key@) is None,
        },
{
    let ghost all = entries_view(entries@);
    let mut i: usize = 0;
    assert(all.skip(0) == all);
    while i < entries.len()
        invariant
            i <= entries.len(),
            all == entries_view(entries@),
            member(all, key@) == member(all.skip(i as int), key@),
        decreases entries.len() - i,
    {
        if entries[i].0 == *key {
            return Some(&entries[i].1);
        }
        assert(all.skip(i as int).drop_first() == all.skip(i + 1));
        i += 1;
    }
    None
}

/// The child of `target` that `segment` addresses.
pub fn step_into<'a>(target: &'a Record, segment: &String) -> (found: Option<&'a Record>)
    ensures
        match found {
            Some(value) => step(target@, segment@) == Some(value@),
            None => step(target@, segment@) is None,
        },
{
    match target {
        Record::Object(entries) => {
            proof {
                lemma_object_view(*entries);
            }
            find_entry(entries, segment)
        },
        Record::Array(items) => {
            proof {
                lemma_array_view(*items);
            }
            match array_index(segment.as_str(), items.len()) {
                Some(n) => Some(&items[n]),
                None => None,
            }
        },
        _ => None,
    }
}

/// Follows `path` into `target`: the value that the path resolves to, or
/// `None` where a key is missing, an index is out of range or not a number,
/// or the path goes on below a scalar.
pub fn descend_to<'a>(path: &EPath, target: &'a Record) -> (found: Option<&'a Record>)
    ensures
        match found {
            Some(value) => descend(path@, target@) == Some(value@),
            None => descend(path@, target@) is None,
        },
{
    let mut current: &'a Record = target;
    let mut i: usize = 0;
    assert(path@.skip(0) == path@);
    while i < path.0.len()
        invariant
            i <= path.0.len(),
            path@.len() == path.0.len(),
            descend(path@, target@) == descend(path@.skip(i as int), current@),
        decreases path.0.len() - i,
    {
        assert(path@.skip(i as int).drop_first() == path@.skip(i + 1));
        match step_into(current, &path.0[i]) {
            Some(child) => {
                current = child;
            },
            None => {
                return None;
            },
        }
        i += 1;
    }
    Some(current)
}

/// The text that a value is compared as, if it is a scalar.
pub fn string_value<'a>(value: &'a Record) -> (text: Option<&'a str>)
    ensures
        match text {
            Some(t) => coerce_to_text(value@) == Some(t@),
            None => coerce_to_text(value@) is None,
        },
{
    match value {
        Record::Bool(b) => if *b {
            Some("true")
        } else {
            Some("false")
        },
        Record::Text(text) => Some(text.as_str()),
        Record::Number(text) => Some(text.as_str()),
        _ => None,
    }
}

} // verus!
