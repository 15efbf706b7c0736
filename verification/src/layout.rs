//! What is shown of a record that passed the filters: which of its fields
//! go to the front of the line, which follow, in what order, and as what.

use crate::record::{
    decimal_value, entries_view, find_entry, is_digit, lemma_decimal_value_grows,
    lemma_member_names, lemma_object_view, member, names, Json, Record,
};
use crate::text::{
    chars_of, lemma_precedes_total, lemma_precedes_transitive, precedes, same_text,
    strings_view, text_precedes,
};
use vstd::prelude::*;

verus! {

/// The colors that a level is shown in.
#[derive(Debug, Clone, Copy, PartialEq, Eq)]
pub enum Color {
    Magenta,
    Blue,
    Green,
    Yellow,
    Red,
}

/// The color of a level: each of the levels `TRACE`, `DEBUG`, `INFO` and
/// `WARN` has its own; `ERROR` is red, and so is any other text.
pub open spec fn color_of(level: Seq<char>) -> Color {
    if level == "TRACE"@ {
        Color::Magenta
    } else if level == "DEBUG"@ {
        Color::Blue
    } else if level == "INFO"@ {
        Color::Green
    } else if level == "WARN"@ {
        Color::Yellow
    } else {
        Color::Red
    }
}

/// The color that a level is shown in.
pub fn level_to_color(level: &str) -> (color: Color)
    ensures
        color == color_of(level@),
{
    if same_text(level, "TRACE") {
        Color::Magenta
    } else if same_text(level, "DEBUG") {
        Color::Blue
    } else if same_text(level, "INFO") {
        Color::Green
    } else if same_text(level, "WARN") {
        Color::Yellow
    } else {
        Color::Red
    }
}

/// The letter that stands for a level: its first character, or `?` where
/// the level is empty.
pub open spec fn initial_of(level: Seq<char>) -> char {
    if level.len() > 0 {
        level[0]
    } else {
        '?'
    }
}

/// The letter that stands for a level.
pub fn level_initial(level: &str) -> (letter: char)
    ensures
        letter == initial_of(level@),
{
    let mut letters = level.chars();
    match letters.next() {
        Some(c) => c,
        None => '?',
    }
}

/// The digits of a text that may begin with a `+`.
pub open spec fn unsigned_digits(text: Seq<char>) -> Seq<char> {
    if text.len() > 0 && text[0] == '+' {
        text.skip(1)
    } else {
        text
    }
}

/// Whether each character of a text is a decimal digit.
pub open spec fn all_digits(text: Seq<char>) -> bool {
    forall|i: int| 0 <= i < text.len() ==> is_digit(#[trigger] text[i])
}

/// The number that a text reads as: the text is one decimal digit or more,
/// behind a `+` or not, and what the digits denote fits in 64 bits.
pub open spec fn number_of(text: Seq<char>) -> Option<nat> {
    let digits = unsigned_digits(text);
    if digits.len() > 0 && all_digits(digits) && decimal_value(digits) <= u64::MAX {
        Some(decimal_value(digits))
    } else {
        None
    }
}

/// Reads a text as an unsigned number of 64 bits.
pub fn read_number(text: &str) -> (number: Option<u64>)
    ensures
        match number {
            Some(n) => number_of(text@) == Some(n as nat),
            None => number_of(text@) is None,
        },
{
    let chars = chars_of(text);
    let count = chars.len();
    let start: usize = if count > 0 && chars[0] == '+' {
        1
    } else {
        0
    };
    if start == count {
        return None;
    }
    let ghost digits = unsigned_digits(text@);
    assert(digits == chars@.skip(start as int));
    let mut value: u64 = 0;
    let mut i: usize = start;
    assert(digits.take(0) == Seq::<char>::empty());
    while i < count
        invariant
            start <= i <= count,
            count == chars.len(),
            chars@ == text@,
            digits == chars@.skip(start as int),
            digits == unsigned_digits(text@),
            digits.len() > 0,
            all_digits(digits.take(i - start)),
            value == decimal_value(digits.take(i - start)),
        decreases count - i,
    {
        let c = chars[i];
        if c < '0' || c > '9' {
            assert(!is_digit(digits[i - start]));
            return None;
        }
        let d: u128 = (c as u32 - '0' as u32) as u128;
        let next: u128 = (value as u128) * 10 + d;
        proof {
            let longer = digits.take(i - start + 1);
            assert(longer.drop_last() == digits.take(i - start));
            assert(next == decimal_value(longer));
            assert forall|k: int| 0 <= k < longer.len() implies is_digit(#[trigger] longer[k]) by {
                if k < i - start {
                    assert(digits.take(i - start)[k] == longer[k]);
                }
            }
            lemma_decimal_value_grows(digits, i - start + 1);
        }
        if next > u64::MAX as u128 {
            return None;
        }
        value = next as u64;
        i += 1;
    }
    assert(digits.take(count - start) == digits);
    Some(value)
}

/// Whether a list of texts holds `key`.
pub fn lists(list: &Vec<String>, key: &str) -> (found: bool)
    ensures
        found == strings_view(list@).contains(key@),
{
    let mut i: usize = 0;
    while i < list.len()
        invariant
            i <= list.len(),
            forall|k: int| 0 <= k < i ==> strings_view(list@)[k] != key@,
        decreases list.len() - i,
    {
        if same_text(list[i].as_str(), key) {
            assert(strings_view(list@)[i as int] == key@);
            return true;
        }
        i += 1;
    }
    false
}

/// Whether texts stand in ascending order, no two alike.
pub open spec fn ascending(keys: Seq<Seq<char>>) -> bool {
    forall|i: int, j: int| 0 <= i < j < keys.len() ==> precedes(keys[i], keys[j])
}

/// Puts `key` into an ascending list at its place, unless the list holds
/// it.
pub fn insert_sorted(keys: &mut Vec<String>, key: String)
    requires
        ascending(strings_view(old(keys)@)),
    ensures
        ascending(strings_view(final(keys)@)),
        forall|k: Seq<char>|
            strings_view(final(keys)@).contains(k) <==> (strings_view(old(keys)@).contains(k)
                || k == key@),
{
    let ghost before = strings_view(keys@);
    let count = keys.len();
    let mut place: usize = 0;
    while place < count && text_precedes(keys[place].as_str(), key.as_str())
        invariant
            place <= count,
            count == keys.len(),
            before == strings_view(keys@),
            forall|j: int| 0 <= j < place ==> precedes(#[trigger] before[j], key@),
        decreases count - place,
    {
        place += 1;
    }
    if place < count && same_text(keys[place].as_str(), key.as_str()) {
        assert(before[place as int] == key@);
        return ;
    }
    let ghost text = key@;
    keys.insert(place, key);
    proof {
        let after = strings_view(keys@);
        assert(after == before.insert(place as int, text));
        if place < count {
            lemma_precedes_total(before[place as int], text);
        }
        assert forall|i: int, j: int| 0 <= i < j < after.len() implies precedes(
            after[i],
            after[j],
        ) by {
            if j == place {
                assert(after[i] == before[i]);
            } else if i == place {
                assert(after[j] == before[j - 1]);
                if j - 1 > place {
                    assert(precedes(before[place as int], before[j - 1]));
                    lemma_precedes_transitive(text, before[place as int], before[j - 1]);
                }
            } else {
                let x = if i < place {
                    i
                } else {
                    i - 1
                };
                let y = if j < place {
                    j
                } else {
                    j - 1
                };
                assert(after[i] == before[x]);
                assert(after[j] == before[y]);
            }
        }
        assert forall|k: Seq<char>| after.contains(k) <==> (before.contains(k) || k == text) by {
            if after.contains(k) {
                let i = choose|i: int| 0 <= i < after.len() && after[i] == k;
                if i < place {
                    assert(before[i] == k);
                } else if i > place {
                    assert(before[i - 1] == k);
                }
            }
            if before.contains(k) {
                let i = choose|i: int| 0 <= i < before.len() && before[i] == k;
                if i < place {
                    assert(after[i] == k);
                } else {
                    assert(after[i + 1] == k);
                }
            }
            if k == text {
                assert(after[place as int] == k);
            }
        }
    }
}

/// How the value of a field is shown: a text that reads as a number, as
/// that number; any other text, as it is; any other value, as itself.
#[derive(Debug, PartialEq, Eq)]
pub enum Shown {
    Number(u64),
    Text(String),
    Other,
}

/// The mathematical value of a `Shown`.
pub enum ShownView {
    Number(nat),
    Text(Seq<char>),
    Other,
}

impl View for Shown {
    type V = ShownView;

    open spec fn view(&self) -> ShownView {
        match self {
            Shown::Number(n) => ShownView::Number(*n as nat),
            Shown::Text(text) => ShownView::Text(text@),
            Shown::Other => ShownView::Other,
        }
    }
}

/// How a value is shown.
pub open spec fn shown_of(value: Json) -> ShownView {
    match value {
        Json::Text(text) => match number_of(text) {
            Some(n) => ShownView::Number(n),
            None => ShownView::Text(text),
        },
        _ => ShownView::Other,
    }
}

/// How a value is shown.
pub fn show(value: &Record) -> (shown: Shown)
    ensures
        shown@ == shown_of(value@),
{
    match value {
        Record::Text(text) => match read_number(text.as_str()) {
            Some(n) => Shown::Number(n),
            None => Shown::Text(text.clone()),
        },
        _ => Shown::Other,
    }
}

/// The text of the field `key`, where the field is not hidden and its
/// value is a text.
pub open spec fn text_under(
    entries: Seq<(Seq<char>, Json)>,
    hidden: Seq<Seq<char>>,
    key: Seq<char>,
) -> Option<Seq<char>> {
    if hidden.contains(key) {
        None
    } else {
        match member(entries, key) {
            Some(Json::Text(text)) => Some(text),
            _ => None,
        }
    }
}

/// The index of the first of `keys`, from index `from` on, that names a
/// field with a text that is not hidden.
pub open spec fn first_text_from(
    keys: Seq<Seq<char>>,
    entries: Seq<(Seq<char>, Json)>,
    hidden: Seq<Seq<char>>,
    from: int,
) -> Option<int>
    decreases keys.len() - from,
{
    if 0 <= from < keys.len() {
        if text_under(entries, hidden, keys[from]) is Some {
            Some(from)
        } else {
            first_text_from(keys, entries, hidden, from + 1)
        }
    } else {
        None
    }
}

/// The first of `keys` that names a field with a text that is not hidden.
pub open spec fn picked_key(
    keys: Seq<Seq<char>>,
    entries: Seq<(Seq<char>, Json)>,
    hidden: Seq<Seq<char>>,
) -> Option<Seq<char>> {
    match first_text_from(keys, entries, hidden, 0) {
        Some(i) => Some(keys[i]),
        None => None,
    }
}

/// The hidden keys, and `key` with them where there is one.
pub open spec fn hidden_with(hidden: Seq<Seq<char>>, key: Option<Seq<char>>) -> Seq<Seq<char>> {
    match key {
        Some(k) => hidden.push(k),
        None => hidden,
    }
}

/// A text is in one of two lists exactly when it is in the two put
/// together.
pub proof fn lemma_contains_either(a: Seq<Seq<char>>, b: Seq<Seq<char>>, key: Seq<char>)
    ensures
        (a + b).contains(key) <==> a.contains(key) || b.contains(key),
{
    if (a + b).contains(key) {
        let i = choose|i: int| 0 <= i < (a + b).len() && (a + b)[i] == key;
        if i < a.len() {
            assert(a[i] == key);
        } else {
            assert(b[i - a.len()] == key);
        }
    }
    if a.contains(key) {
        let i = choose|i: int| 0 <= i < a.len() && a[i] == key;
        assert((a + b)[i] == key);
    }
    if b.contains(key) {
        let i = choose|i: int| 0 <= i < b.len() && b[i] == key;
        assert((a + b)[a.len() + i] == key);
    }
}

/// Picks the first of `keys` that names a field with a text, among the
/// fields that neither `omit` nor `taken` hides.
pub fn pick<'a>(
    keys: &Vec<String>,
    entries: &'a Vec<(String, Record)>,
    omit: &Vec<String>,
    taken: &Vec<String>,
) -> (picked: Option<(usize, &'a str)>)
    ensures
        match picked {
            Some((i, text)) => {
                &&& first_text_from(
                    strings_view(keys@),
                    entries_view(entries@),
                    strings_view(omit@) + strings_view(taken@),
                    0,
                ) == Some(i as int)
                &&& i < keys@.len()
                &&& text_under(
                    entries_view(entries@),
                    strings_view(omit@) + strings_view(taken@),
                    keys@[i as int]@,
                ) == Some(text@)
            },
            None => first_text_from(
                strings_view(keys@),
                entries_view(entries@),
                strings_view(omit@) + strings_view(taken@),
                0,
            ) is None,
        },
{
    let ghost names = strings_view(keys@);
    let ghost fields = entries_view(entries@);
    let ghost hidden = strings_view(omit@) + strings_view(taken@);
    let mut i: usize = 0;
    while i < keys.len()
        invariant
            i <= keys.len(),
            names == strings_view(keys@),
            fields == entries_view(entries@),
            hidden == strings_view(omit@) + strings_view(taken@),
            first_text_from(names, fields, hidden, 0) == first_text_from(
                names,
                fields,
                hidden,
                i as int,
            ),
        decreases keys.len() - i,
    {
        let key = keys[i].as_str();
        proof {
            lemma_contains_either(strings_view(omit@), strings_view(taken@), key@);
        }
        if !lists(omit, key) && !lists(taken, key) {
            match find_entry(entries, &keys[i]) {
                Some(Record::Text(text)) => {
                    return Some((i, text.as_str()));
                },
                _ => {},
            }
        }
        i += 1;
    }
    None
}

/// What stands for the level at the front of a line: the color of the
/// level, and its first letter.
#[derive(Debug, Clone, Copy, PartialEq, Eq)]
pub struct Mark {
    pub color: Color,
    pub letter: char,
}

/// A field that is shown: its key, and how its value is shown.
#[derive(Debug, PartialEq, Eq)]
pub struct ShownField {
    pub key: String,
    pub value: Shown,
}

/// What is shown of a record: a mark for its level and the text of its
/// time, each where the record has one, and the fields that follow.
#[derive(Debug, PartialEq, Eq)]
pub struct Layout {
    pub level: Option<Mark>,
    pub time: Option<String>,
    pub fields: Vec<ShownField>,
}

/// The mark of a level.
pub open spec fn mark_of(level: Seq<char>) -> Mark {
    Mark { color: color_of(level), letter: initial_of(level) }
}

/// Whether the field `key` is one that is shown behind the front of the
/// line: the record has it, it is not hidden, and it is one of those to
/// extract where any are named.
pub open spec fn is_shown(
    entries: Seq<(Seq<char>, Json)>,
    hidden: Seq<Seq<char>>,
    extract: Seq<Seq<char>>,
    key: Seq<char>,
) -> bool {
    &&& member(entries, key) is Some
    &&& !hidden.contains(key)
    &&& extract.len() == 0 || extract.contains(key)
}

/// The keys of a list of shown fields.
pub open spec fn field_keys(fields: Seq<ShownField>) -> Seq<Seq<char>> {
    Seq::new(fields.len(), |i: int| fields[i].key@)
}

/// How the field `key` is shown, where the record has it.
pub open spec fn shown_under(entries: Seq<(Seq<char>, Json)>, key: Seq<char>) -> Option<
    ShownView,
> {
    match member(entries, key) {
        Some(value) => Some(shown_of(value)),
        None => None,
    }
}

/// Whether `plan` is what is shown of a record with these entries.
///
/// The keys to omit are hidden. The level is the text of the first field
/// among the level keys that is not hidden and holds a text; that field is
/// then hidden too. The time is found in the same way among the time keys,
/// and hidden. The fields that follow are those that are then shown, each
/// once, in ascending order of their keys.
pub open spec fn lays_out(
    plan: Layout,
    entries: Seq<(Seq<char>, Json)>,
    omit: Seq<Seq<char>>,
    level: Seq<Seq<char>>,
    time: Seq<Seq<char>>,
    extract: Seq<Seq<char>>,
) -> bool {
    let level_key = picked_key(level, entries, omit);
    let behind_level = hidden_with(omit, level_key);
    let time_key = picked_key(time, entries, behind_level);
    let hidden = hidden_with(behind_level, time_key);
    &&& match level_key {
        Some(key) => text_under(entries, omit, key) matches Some(text) && plan.level == Some(
            mark_of(text),
        ),
        None => plan.level is None,
    }
    &&& match time_key {
        Some(key) => plan.time matches Some(text) && text_under(entries, behind_level, key)
            == Some(text@),
        None => plan.time is None,
    }
    &&& ascending(field_keys(plan.fields@))
    &&& forall|key: Seq<char>| #[trigger]
        field_keys(plan.fields@).contains(key) <==> is_shown(entries, hidden, extract, key)
    &&& forall|i: int|
        0 <= i < plan.fields@.len() ==> shown_under(entries, (#[trigger] plan.fields@[i]).key@)
            == Some(plan.fields@[i].value@)
}

/// Whether one of the first `count` entries is listed under `key`.
pub open spec fn named_before(entries: Seq<(Seq<char>, Json)>, count: int, key: Seq<char>) -> bool {
    exists|j: int| 0 <= j < count && (#[trigger] entries[j]).0 == key
}

/// The keys of the fields that are shown, in ascending order and each
/// once.
pub fn shown_keys(
    entries: &Vec<(String, Record)>,
    omit: &Vec<String>,
    taken: &Vec<String>,
    extract: &Vec<String>,
) -> (keys: Vec<String>)
    ensures
        ascending(strings_view(keys@)),
        forall|key: Seq<char>| #[trigger]
            strings_view(keys@).contains(key) <==> is_shown(
                entries_view(entries@),
                strings_view(omit@) + strings_view(taken@),
                strings_view(extract@),
                key,
            ),
{
    let ghost fields = entries_view(entries@);
    let ghost hidden = strings_view(omit@) + strings_view(taken@);
    let ghost wanted = strings_view(extract@);
    let mut keys: Vec<String> = Vec::new();
    let mut i: usize = 0;
    assert(strings_view(keys@) == Seq::<Seq<char>>::empty());
    while i < entries.len()
        invariant
            i <= entries.len(),
            fields == entries_view(entries@),
            hidden == strings_view(omit@) + strings_view(taken@),
            wanted == strings_view(extract@),
            ascending(strings_view(keys@)),
            forall|key: Seq<char>| #[trigger]
                strings_view(keys@).contains(key) <==> {
                    &&& named_before(fields, i as int, key)
                    &&& !hidden.contains(key)
                    &&& wanted.len() == 0 || wanted.contains(key)
                },
        decreases entries.len() - i,
    {
        let key = entries[i].0.as_str();
        let ghost before = strings_view(keys@);
        proof {
            lemma_contains_either(strings_view(omit@), strings_view(taken@), key@);
            assert(fields[i as int].0 == key@);
        }
        let visible = !lists(omit, key) && !lists(taken, key) && (extract.len() == 0 || lists(
            extract,
            key,
        ));
        if visible {
            insert_sorted(&mut keys, entries[i].0.clone());
        }
        proof {
            let after = strings_view(keys@);
            assert forall|k: Seq<char>| #[trigger] after.contains(k) <==> {
                &&& named_before(fields, i + 1, k)
                &&& !hidden.contains(k)
                &&& wanted.len() == 0 || wanted.contains(k)
            } by {
                assert(before.contains(k) <==> {
                    &&& named_before(fields, i as int, k)
                    &&& !hidden.contains(k)
                    &&& wanted.len() == 0 || wanted.contains(k)
                });
                if named_before(fields, i + 1, k) {
                    let j = choose|j: int| 0 <= j < i + 1 && (#[trigger] fields[j]).0 == k;
                    if j < i {
                        assert(named_before(fields, i as int, k));
                    }
                }
                if named_before(fields, i as int, k) {
                    let j = choose|j: int| 0 <= j < i && (#[trigger] fields[j]).0 == k;
                    assert(named_before(fields, i + 1, k));
                }
                if k == key@ {
                    assert(named_before(fields, i + 1, k));
                }
            }
        }
        i += 1;
    }
    proof {
        assert forall|key: Seq<char>| #[trigger]
            strings_view(keys@).contains(key) <==> is_shown(fields, hidden, wanted, key) by {
            lemma_member_names(fields, key);
            assert(names(fields, key) <==> named_before(fields, fields.len() as int, key));
        }
    }
    keys
}

/// The fields under `keys`, each with how its value is shown.
fn show_fields(entries: &Vec<(String, Record)>, keys: Vec<String>) -> (fields: Vec<ShownField>)
    requires
        forall|i: int|
            0 <= i < keys@.len() ==> member(
                entries_view(entries@),
                #[trigger] strings_view(keys@)[i],
            ) is Some,
    ensures
        field_keys(fields@) == strings_view(keys@),
        forall|i: int|
            0 <= i < fields@.len() ==> shown_under(
                entries_view(entries@),
                (#[trigger] fields@[i]).key@,
            ) == Some(fields@[i].value@),
{
    let mut fields: Vec<ShownField> = Vec::new();
    let mut i: usize = 0;
    while i < keys.len()
        invariant
            i <= keys.len(),
            fields@.len() == i,
            forall|k: int|
                0 <= k < keys@.len() ==> member(
                    entries_view(entries@),
                    #[trigger] strings_view(keys@)[k],
                ) is Some,
            forall|k: int| 0 <= k < i ==> (#[trigger] fields@[k]).key@ == keys@[k]@,
            forall|k: int|
                0 <= k < i ==> shown_under(entries_view(entries@), (#[trigger] fields@[k]).key@)
                    == Some(fields@[k].value@),
        decreases keys.len() - i,
    {
        assert(strings_view(keys@)[i as int] == keys@[i as int]@);
        match find_entry(entries, &keys[i]) {
            Some(value) => {
                fields.push(ShownField { key: keys[i].clone(), value: show(value) });
            },
            None => {
                assert(false);
            },
        }
        i += 1;
    }
    assert(field_keys(fields@) == strings_view(keys@));
    fields
}

/// Lays a record out: what of it goes to the front of the line, and which
/// fields follow. Only an object can be laid out.
pub fn layout(
    record: &Record,
    omit: &Vec<String>,
    level: &Vec<String>,
    time: &Vec<String>,
    extract: &Vec<String>,
) -> (plan: Option<Layout>)
    ensures
        match plan {
            Some(plan) => record@ matches Json::Object(entries) && lays_out(
                plan,
                entries,
                strings_view(omit@),
                strings_view(level@),
                strings_view(time@),
                strings_view(extract@),
            ),
            None => !(record@ is Object),
        },
{
    let entries = match record {
        Record::Object(entries) => entries,
        _ => {
            return None;
        },
    };
    proof {
        lemma_object_view(*entries);
    }
    let ghost fields = entries_view(entries@);
    let ghost hidden = strings_view(omit@);
    let mut taken: Vec<String> = Vec::new();
    assert(hidden + strings_view(taken@) == hidden);
    let mark = match pick(level, entries, omit, &taken) {
        Some((i, text)) => {
            let mark = Mark { color: level_to_color(text), letter: level_initial(text) };
            proof {
                assert(strings_view(level@)[i as int] == level@[i as int]@);
                assert(strings_view(taken@.push(level@[i as int])) == strings_view(
                    taken@,
                ).push(level@[i as int]@));
                assert(hidden + Seq::<Seq<char>>::empty().push(level@[i as int]@) == hidden.push(
                    level@[i as int]@,
                ));
            }
            taken.push(level[i].clone());
            Some(mark)
        },
        None => None,
    };
    let ghost behind_level = hidden_with(hidden, picked_key(strings_view(level@), fields, hidden));
    assert(hidden + strings_view(taken@) == behind_level);
    let moment = match pick(time, entries, omit, &taken) {
        Some((i, text)) => {
            let moment = text.to_owned();
            proof {
                assert(strings_view(time@)[i as int] == time@[i as int]@);
                assert(strings_view(taken@.push(time@[i as int])) == strings_view(taken@).push(
                    time@[i as int]@,
                ));
                assert(hidden + strings_view(taken@).push(time@[i as int]@) == (hidden
                    + strings_view(taken@)).push(time@[i as int]@));
            }
            taken.push(time[i].clone());
            Some(moment)
        },
        None => None,
    };
    let ghost all_hidden = hidden_with(
        behind_level,
        picked_key(strings_view(time@), fields, behind_level),
    );
    assert(hidden + strings_view(taken@) == all_hidden);
    let keys = shown_keys(entries, omit, &taken, extract);
    proof {
        assert forall|i: int| 0 <= i < keys@.len() implies member(
            fields,
            #[trigger] strings_view(keys@)[i],
        ) is Some by {
            assert(strings_view(keys@).contains(strings_view(keys@)[i]));
        }
    }
    let shown = show_fields(entries, keys);
    Some(Layout { level: mark, time: moment, fields: shown })
}

} // verus!
