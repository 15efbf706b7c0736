//! The parser of filter expressions: one function for each rule of the
//! grammar, each reading the input at a position and returning what it read
//! together with the position just behind it.

use crate::ast::{formulas_of, lemma_and_view, lemma_or_view, EPath, Exp, Formula};
use crate::grammar::{
    and_at, char_at, comma_at, comparison_at, contains_at, exists_at, exp_at, more_operands_at,
    lemma_exp_at, more_segments_at, not_at, operands_at, operation_at, operation_equals_at,
    operation_not_equals_at, or_at, parse_of, path_at, quoted_at, run_end, unquoted_at, value_at,
    well_formed, word_at, CharClass, SyntaxErrorKind, SyntaxFault,
};
use crate::text::{chars_of, strings_view};
use vstd::prelude::*;
use vstd::std_specs::iter::IteratorSpec;

verus! {

/// The text that a parser reads, held so that a character can be had by its
/// position.
pub struct Input<'a> {
    text: &'a str,
    chars: Vec<char>,
}

impl<'a> View for Input<'a> {
    type V = Seq<char>;

    closed spec fn view(&self) -> Seq<char> {
        self.chars@
    }
}

impl<'a> Input<'a> {
    #[verifier::type_invariant]
    spec fn agrees(self) -> bool {
        self.chars@ == self.text@
    }

    /// Takes a text as input.
    pub fn new(text: &'a str) -> (input: Self)
        ensures
            input@ == text@,
    {
        Input { text, chars: chars_of(text) }
    }

    /// The number of characters of the input.
    pub fn len(&self) -> (n: usize)
        ensures
            n == self@.len(),
    {
        self.chars.len()
    }

    /// The character at position `at`.
    pub fn get(&self, at: usize) -> (c: char)
        requires
            at < self@.len(),
        ensures
            c == self@[at as int],
    {
        self.chars[at]
    }

    /// The characters from position `from` up to position `to`, as a string.
    pub fn slice(&self, from: usize, to: usize) -> (piece: String)
        requires
            from <= to <= self@.len(),
        ensures
            piece@ == self@.subrange(from as int, to as int),
    {
        proof {
            use_type_invariant(self);
        }
        self.text.substring_char(from, to).to_owned()
    }
}

/// Whether what a parser found is what the grammar says stands there.
pub open spec fn reads<T: View>(found: Option<(usize, T)>, expected: Option<(T::V, int)>) -> bool {
    match found {
        Some((end, value)) => expected == Some((value@, end as int)),
        None => expected is None,
    }
}

/// Whether a character belongs to a class.
pub fn in_class(class: CharClass, c: char) -> (member: bool)
    ensures
        member == class.has(c),
{
    match class {
        CharClass::Segment => (c >= 'a' && c <= 'z') || (c >= 'A' && c <= 'Z') || (c >= '0' && c
            <= '9') || c == '_' || c == '-',
        CharClass::Blank => c == ' ' || c == '\t',
        CharClass::Bare => !(c == ' ' || c == '\t' || c == '\n' || c == ',' || c == ')' || c
            == '"'),
        CharClass::Quoted => c != '"',
    }
}

/// Reads the longest run of characters of `class` that starts at `start`,
/// and returns where it ends. The run may be empty.
pub fn scan(input: &Input, start: usize, class: CharClass) -> (end: usize)
    requires
        start <= input@.len(),
    ensures
        end == run_end(input@, start as int, class),
        start <= end <= input@.len(),
{
    let mut end = start;
    while end < input.len() && in_class(class, input.get(end))
        invariant
            start <= end <= input@.len(),
            run_end(input@, start as int, class) == run_end(input@, end as int, class),
        decreases input@.len() - end,
    {
        end += 1;
    }
    end
}

/// Whether the character `c` stands at position `at`.
pub fn is_char(input: &Input, at: usize, c: char) -> (found: bool)
    ensures
        found == char_at(input@, at as int, c),
        found ==> at < usize::MAX,
{
    at < input.len() && input.get(at) == c
}

/// Reads `word` at position `at`, and returns the position behind it. An
/// empty word is never read.
pub fn tag(input: &Input, at: usize, word: &str) -> (end: Option<usize>)
    requires
        at <= input@.len(),
    ensures
        match end {
            Some(end) => word_at(input@, at as int, word@) == Some(end as int),
            None => word_at(input@, at as int, word@) is None,
        },
        end matches Some(end) ==> at < end <= input@.len(),
{
    let mut letters = word.chars();
    let mut end = at;
    let ghost mut n: int = 0;
    loop
        invariant
            0 <= n <= word@.len(),
            at + n == end <= input@.len(),
            letters.remaining() == word@.skip(n),
            letters.obeys_prophetic_iter_laws(),
            input@.subrange(at as int, end as int) == word@.take(n),
        decreases word@.len() - n,
    {
        match letters.next() {
            None => {
                assert(word@.take(n) == word@);
                if end > at {
                    return Some(end);
                } else {
                    return None;
                }
            },
            Some(c) => {
                if end >= input.len() || input.get(end) != c {
                    proof {
                        if at + word@.len() <= input@.len() {
                            assert(input@.subrange(at as int, at + word@.len())[n] != word@[n]);
                        }
                    }
                    return None;
                }
                proof {
                    assert(word@.skip(n).drop_first() == word@.skip(n + 1));
                    assert(word@.take(n + 1) == word@.take(n).push(word@[n]));
                    assert(input@.subrange(at as int, end + 1) == input@.subrange(
                        at as int,
                        end as int,
                    ).push(input@[end as int]));
                    n = n + 1;
                }
                end += 1;
            },
        }
    }
}

/// Reads a path segment: the longest run of letters, digits, `_` and `-`.
/// It never fails: where no such character stands, the segment is empty.
pub fn path_segment(input: &Input, at: usize) -> (found: (usize, String))
    requires
        at <= input@.len(),
    ensures
        found.0 == run_end(input@, at as int, CharClass::Segment),
        found.1@ == input@.subrange(at as int, found.0 as int),
        at <= found.0 <= input@.len(),
{
    let end = scan(input, at, CharClass::Segment);
    (end, input.slice(at, end))
}

/// Reads a path: one segment or more, with a dot between each two. A
/// segment is never empty: a dot that no segment follows is not part of the
/// path.
pub fn path(input: &Input, at: usize) -> (found: Option<(usize, EPath)>)
    requires
        at <= input@.len(),
    ensures
        reads(found, path_at(input@, at as int)),
        found matches Some((end, _)) ==> at < end <= input@.len(),
{
    let (first_end, first) = path_segment(input, at);
    if first_end == at {
        return None;
    }
    let ghost s = input@;
    let ghost head = first@;
    let mut segments: Vec<String> = Vec::new();
    segments.push(first);
    let mut end = first_end;
    assert(strings_view(segments@) == seq![head]);
    loop
        invariant_except_break
            s == input@,
            at < end <= s.len(),
            path_at(s, at as int) == Some(
                (
                    strings_view(segments@) + more_segments_at(s, end as int).0,
                    more_segments_at(s, end as int).1,
                ),
            ),
        ensures
            s == input@,
            at < end <= s.len(),
            path_at(s, at as int) == Some((strings_view(segments@), end as int)),
        decreases s.len() - end,
    {
        if !is_char(input, end, '.') {
            assert(strings_view(segments@) + Seq::<Seq<char>>::empty() == strings_view(
                segments@,
            ));
            break;
        }
        let (next_end, next) = path_segment(input, end + 1);
        if next_end == end + 1 {
            assert(strings_view(segments@) + Seq::<Seq<char>>::empty() == strings_view(
                segments@,
            ));
            break;
        }
        proof {
            let rest = more_segments_at(s, next_end as int).0;
            assert(strings_view(segments@.push(next)) == strings_view(segments@).push(next@));
            assert(strings_view(segments@) + (seq![next@] + rest) == strings_view(
                segments@,
            ).push(next@) + rest);
        }
        segments.push(next);
        end = next_end;
    }
    Some((end, EPath(segments)))
}

/// Reads an unquoted value: the longest run of characters other than space,
/// tab, newline, `,`, `)` and `"`, which must not be empty.
pub fn unquoted_value(input: &Input, at: usize) -> (found: Option<(usize, String)>)
    requires
        at <= input@.len(),
    ensures
        reads(found, unquoted_at(input@, at as int)),
        found matches Some((end, _)) ==> at < end <= input@.len(),
{
    let end = scan(input, at, CharClass::Bare);
    if end == at {
        None
    } else {
        Some((end, input.slice(at, end)))
    }
}

/// Reads a quoted value: a `"`, everything up to the next `"`, and that
/// `"`. The value is what stands between the two; no escape is known, so it
/// holds no `"`.
pub fn quoted_value(input: &Input, at: usize) -> (found: Option<(usize, String)>)
    requires
        at <= input@.len(),
    ensures
        reads(found, quoted_at(input@, at as int)),
        found matches Some((end, _)) ==> at < end <= input@.len(),
{
    if !is_char(input, at, '"') {
        return None;
    }
    let close = scan(input, at + 1, CharClass::Quoted);
    if !is_char(input, close, '"') {
        return None;
    }
    Some((close + 1, input.slice(at + 1, close)))
}

/// Reads a value: a quoted one if one stands there, else an unquoted one.
pub fn value(input: &Input, at: usize) -> (found: Option<(usize, String)>)
    requires
        at <= input@.len(),
    ensures
        reads(found, value_at(input@, at as int)),
        found matches Some((end, _)) ==> at < end <= input@.len(),
{
    match quoted_value(input, at) {
        Some(found) => Some(found),
        None => unquoted_value(input, at),
    }
}

/// Reads a path, an operator and a value, with optional blanks on either
/// side of the operator.
fn comparison(input: &Input, at: usize, operator: &str) -> (found: Option<
    (usize, EPath, String),
>)
    requires
        at <= input@.len(),
    ensures
        match found {
            Some((end, path, literal)) => comparison_at(input@, at as int, operator@) == Some(
                (path@, literal@, end as int),
            ),
            None => comparison_at(input@, at as int, operator@) is None,
        },
        found matches Some((end, _, _)) ==> at < end <= input@.len(),
{
    let (after_path, path) = match path(input, at) {
        Some(found) => found,
        None => {
            return None;
        },
    };
    let before_operator = scan(input, after_path, CharClass::Blank);
    let after_operator = match tag(input, before_operator, operator) {
        Some(end) => end,
        None => {
            return None;
        },
    };
    let before_value = scan(input, after_operator, CharClass::Blank);
    match value(input, before_value) {
        Some((end, literal)) => Some((end, path, literal)),
        None => None,
    }
}

/// Reads an equality: `path == value`.
pub fn operation_equals(input: &Input, at: usize) -> (found: Option<(usize, Exp)>)
    requires
        at <= input@.len(),
    ensures
        reads(found, operation_equals_at(input@, at as int)),
        found matches Some((end, _)) ==> at < end <= input@.len(),
{
    match comparison(input, at, "==") {
        Some((end, path, literal)) => Some((end, Exp::Equals(path, literal))),
        None => None,
    }
}

/// Reads an inequality: `path != value`.
pub fn operation_not_equals(input: &Input, at: usize) -> (found: Option<(usize, Exp)>)
    requires
        at <= input@.len(),
    ensures
        reads(found, operation_not_equals_at(input@, at as int)),
        found matches Some((end, _)) ==> at < end <= input@.len(),
{
    match comparison(input, at, "!=") {
        Some((end, path, literal)) => Some((end, Exp::NotEquals(path, literal))),
        None => None,
    }
}

/// Reads a comparison of a path with a value: an inequality if one stands
/// there, else an equality.
pub fn operation(input: &Input, at: usize) -> (found: Option<(usize, Exp)>)
    requires
        at <= input@.len(),
    ensures
        reads(found, operation_at(input@, at as int)),
        found matches Some((end, _)) ==> at < end <= input@.len(),
{
    match operation_not_equals(input, at) {
        Some(found) => Some(found),
        None => operation_equals(input, at),
    }
}

/// Reads an existence test: `exists(path)`.
pub fn path_exists(input: &Input, at: usize) -> (found: Option<(usize, Exp)>)
    requires
        at <= input@.len(),
    ensures
        reads(found, exists_at(input@, at as int)),
        found matches Some((end, _)) ==> at < end <= input@.len(),
{
    let open = match tag(input, at, "exists(") {
        Some(end) => end,
        None => {
            return None;
        },
    };
    match path(input, open) {
        Some((end, path)) => if is_char(input, end, ')') {
            Some((end + 1, Exp::Exists(path)))
        } else {
            None
        },
        None => None,
    }
}

/// Reads a comma with optional blanks on either side, and returns where
/// what follows it starts.
pub fn comma(input: &Input, at: usize) -> (next: Option<usize>)
    requires
        at <= input@.len(),
    ensures
        match next {
            Some(next) => comma_at(input@, at as int) == Some(next as int),
            None => comma_at(input@, at as int) is None,
        },
        next matches Some(next) ==> at < next <= input@.len(),
{
    let mark = scan(input, at, CharClass::Blank);
    if is_char(input, mark, ',') {
        Some(scan(input, mark + 1, CharClass::Blank))
    } else {
        None
    }
}

/// Reads a substring test: `contains(path, value)`.
pub fn contains(input: &Input, at: usize) -> (found: Option<(usize, Exp)>)
    requires
        at <= input@.len(),
    ensures
        reads(found, contains_at(input@, at as int)),
        found matches Some((end, _)) ==> at < end <= input@.len(),
{
    let open = match tag(input, at, "contains(") {
        Some(end) => end,
        None => {
            return None;
        },
    };
    let (after_path, path) = match path(input, open) {
        Some(found) => found,
        None => {
            return None;
        },
    };
    let after_comma = match comma(input, after_path) {
        Some(next) => next,
        None => {
            return None;
        },
    };
    match value(input, after_comma) {
        Some((end, literal)) => if is_char(input, end, ')') {
            Some((end + 1, Exp::Contains(path, literal)))
        } else {
            None
        },
        None => None,
    }
}

/// Reads an expression: the first of a disjunction, a conjunction, a
/// negation, a substring test, an existence test and a comparison that
/// stands there.
pub fn exp(input: &Input, at: usize) -> (found: Option<(usize, Exp)>)
    requires
        at <= input@.len(),
    ensures
        reads(found, exp_at(input@, at as int)),
        found matches Some((end, _)) ==> at < end <= input@.len(),
    decreases input@.len() - at, 2int,
{
    if let Some(found) = or(input, at) {
        return Some(found);
    }
    if let Some(found) = and(input, at) {
        return Some(found);
    }
    if let Some(found) = not(input, at) {
        return Some(found);
    }
    if let Some(found) = contains(input, at) {
        return Some(found);
    }
    if let Some(found) = path_exists(input, at) {
        return Some(found);
    }
    operation(input, at)
}

/// Reads a negation: `not(expr)`.
pub fn not(input: &Input, at: usize) -> (found: Option<(usize, Exp)>)
    requires
        at <= input@.len(),
    ensures
        reads(found, not_at(input@, at as int)),
        found matches Some((end, _)) ==> at < end <= input@.len(),
    decreases input@.len() - at, 1int,
{
    let open = match tag(input, at, "not(") {
        Some(end) => end,
        None => {
            return None;
        },
    };
    match exp(input, open) {
        Some((end, inner)) => if is_char(input, end, ')') {
            Some((end + 1, Exp::Not(Box::new(inner))))
        } else {
            None
        },
        None => None,
    }
}

/// Reads a conjunction: `and(expr, expr, ...)`, of one operand or more.
pub fn and(input: &Input, at: usize) -> (found: Option<(usize, Exp)>)
    requires
        at <= input@.len(),
    ensures
        reads(found, and_at(input@, at as int)),
        found matches Some((end, _)) ==> at < end <= input@.len(),
    decreases input@.len() - at, 1int,
{
    let open = match tag(input, at, "and(") {
        Some(end) => end,
        None => {
            return None;
        },
    };
    match operands(input, open) {
        Some((end, exps)) => if is_char(input, end, ')') {
            proof {
                lemma_and_view(exps);
            }
            Some((end + 1, Exp::And(exps)))
        } else {
            None
        },
        None => None,
    }
}

/// Reads a disjunction: `or(expr, expr, ...)`, of one operand or more.
pub fn or(input: &Input, at: usize) -> (found: Option<(usize, Exp)>)
    requires
        at <= input@.len(),
    ensures
        reads(found, or_at(input@, at as int)),
        found matches Some((end, _)) ==> at < end <= input@.len(),
    decreases input@.len() - at, 1int,
{
    let open = match tag(input, at, "or(") {
        Some(end) => end,
        None => {
            return None;
        },
    };
    match operands(input, open) {
        Some((end, exps)) => if is_char(input, end, ')') {
            proof {
                lemma_or_view(exps);
            }
            Some((end + 1, Exp::Or(exps)))
        } else {
            None
        },
        None => None,
    }
}

/// Reads the operands of a conjunction or disjunction: one expression or
/// more, with a comma between each two.
pub fn operands(input: &Input, at: usize) -> (found: Option<(usize, Vec<Exp>)>)
    requires
        at <= input@.len(),
    ensures
        match found {
            Some((end, exps)) => operands_at(input@, at as int) == Some(
                (formulas_of(exps@), end as int),
            ),
            None => operands_at(input@, at as int) is None,
        },
        found matches Some((end, _)) ==> at < end <= input@.len(),
    decreases input@.len() - at, 3int,
{
    let (first_end, first) = match exp(input, at) {
        Some(found) => found,
        None => {
            return None;
        },
    };
    let ghost s = input@;
    let ghost head = first@;
    let mut exps: Vec<Exp> = Vec::new();
    exps.push(first);
    let mut end = first_end;
    assert(formulas_of(exps@) == seq![head]);
    loop
        invariant_except_break
            s == input@,
            at < end <= s.len(),
            operands_at(s, at as int) == Some(
                (
                    formulas_of(exps@) + more_operands_at(s, end as int).0,
                    more_operands_at(s, end as int).1,
                ),
            ),
        ensures
            s == input@,
            at < end <= s.len(),
            operands_at(s, at as int) == Some((formulas_of(exps@), end as int)),
        decreases s.len() - end,
    {
        let next = match comma(input, end) {
            Some(next) => next,
            None => {
                assert(formulas_of(exps@) + Seq::<Formula>::empty() == formulas_of(exps@));
                break;
            },
        };
        let (next_end, operand) = match exp(input, next) {
            Some(found) => found,
            None => {
                assert(formulas_of(exps@) + Seq::<Formula>::empty() == formulas_of(exps@));
                break;
            },
        };
        proof {
            let rest = more_operands_at(s, next_end as int).0;
            assert(formulas_of(exps@.push(operand)) == formulas_of(exps@).push(operand@));
            assert(formulas_of(exps@) + (seq![operand@] + rest) == formulas_of(exps@).push(
                operand@,
            ) + rest);
        }
        exps.push(operand);
        end = next_end;
    }
    Some((end, exps))
}

/// Why a text is not a filter expression.
#[derive(Debug, PartialEq, Eq)]
pub struct SyntaxError {
    /// Whether nothing could be read, or something was left over.
    pub kind: SyntaxErrorKind,
    /// The position in the text where the error arose, in characters.
    pub position: usize,
    /// The text from that position on.
    pub remainder: String,
}

impl View for SyntaxError {
    type V = SyntaxFault;

    open spec fn view(&self) -> SyntaxFault {
        SyntaxFault {
            kind: self.kind,
            position: self.position as int,
            remainder: self.remainder@,
        }
    }
}

/// Parses a filter expression. The whole text must be one expression: text
/// that is left behind it, be it a blank, is an error.
pub fn parse(input: &str) -> (result: Result<Exp, SyntaxError>)
    ensures
        match result {
            Ok(exp) => parse_of(input@) == Ok::<Formula, SyntaxFault>(exp@),
            Err(error) => parse_of(input@) == Err::<Formula, SyntaxFault>(error@),
        },
        result matches Ok(exp) ==> well_formed(exp@),
{
    proof {
        lemma_exp_at(input@, 0);
    }
    let source = Input::new(input);
    match exp(&source, 0) {
        Some((end, op)) => {
            if end == source.len() {
                Ok(op)
            } else {
                Err(
                    SyntaxError {
                        kind: SyntaxErrorKind::TrailingInput,
                        position: end,
                        remainder: source.slice(end, source.len()),
                    },
                )
            }
        },
        None => Err(
            SyntaxError {
                kind: SyntaxErrorKind::NoMatch,
                position: 0,
                remainder: input.to_owned(),
            },
        ),
    }
}

} // verus!
