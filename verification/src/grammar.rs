//! The grammar of filter expressions, as functions from a text and a
//! position in it to what stands there.
//!
//! ```text
//! expr       := or | and | not | contains | exists | operation
//! or         := "or" "(" expr ("," expr)* ")"
//! and        := "and" "(" expr ("," expr)* ")"
//! not        := "not" "(" expr ")"
//! contains   := "contains" "(" path "," value ")"
//! exists     := "exists" "(" path ")"
//! operation  := path ws? ("==" | "!=") ws? value
//! path       := segment ("." segment)*
//! segment    := [A-Za-z0-9_-]+
//! value      := quoted | unquoted
//! quoted     := '"' [^"]* '"'
//! unquoted   := [^ \t\n,)"]+
//! ws         := spaces and tabs
//! ```
//!
//! A comma may have `ws` on either side. Alternatives are tried in the order
//! written and the first that matches is taken; a repetition takes as many
//! items as match. Each rule is a function of the text `s` and the position
//! `at` where the rule starts; it gives what was read together with the
//! position just behind it, or `None` where the rule does not match.

use crate::ast::Formula;
use vstd::prelude::*;

verus! {

/// The classes of characters that a token is a run of.
#[derive(Debug, Clone, Copy, PartialEq, Eq)]
pub enum CharClass {
    /// Letters, digits, `_` and `-`: what a path segment is made of.
    Segment,
    /// Space and tab.
    Blank,
    /// Anything but space, tab, newline, `,`, `)` and `"`: what an unquoted
    /// value is made of.
    Bare,
    /// Anything but `"`: what stands between the quotes of a quoted value.
    Quoted,
}

/// Whether a character may stand in a path segment.
pub open spec fn is_segment_char(c: char) -> bool {
    ('a' <= c && c <= 'z') || ('A' <= c && c <= 'Z') || ('0' <= c && c <= '9') || c == '_' || c
        == '-'
}

/// Whether a character is a space or a tab.
pub open spec fn is_blank(c: char) -> bool {
    c == ' ' || c == '\t'
}

/// Whether a character ends an unquoted value.
pub open spec fn ends_bare_value(c: char) -> bool {
    c == ' ' || c == '\t' || c == '\n' || c == ',' || c == ')' || c == '"'
}

impl CharClass {
    /// Whether `c` belongs to the class.
    pub open spec fn has(self, c: char) -> bool {
        match self {
            CharClass::Segment => is_segment_char(c),
            CharClass::Blank => is_blank(c),
            CharClass::Bare => !ends_bare_value(c),
            CharClass::Quoted => c != '"',
        }
    }
}

/// The end of the longest run of characters of `class` that starts at
/// `start`: `start` itself where the run is empty.
pub open spec fn run_end(s: Seq<char>, start: int, class: CharClass) -> int
    decreases s.len() - start,
{
    if 0 <= start < s.len() && class.has(s[start]) {
        run_end(s, start + 1, class)
    } else {
        start
    }
}

/// Whether `word` stands in `s` at position `at`.
pub open spec fn has_at(s: Seq<char>, at: int, word: Seq<char>) -> bool {
    0 <= at && at + word.len() <= s.len() && s.subrange(at, at + word.len()) == word
}

/// The position just behind `word`, where the word is not empty and stands
/// in `s` at position `at`.
pub open spec fn word_at(s: Seq<char>, at: int, word: Seq<char>) -> Option<int> {
    if word.len() > 0 && has_at(s, at, word) {
        Some(at + word.len())
    } else {
        None
    }
}

/// Whether the character `c` stands in `s` at position `at`.
pub open spec fn char_at(s: Seq<char>, at: int, c: char) -> bool {
    0 <= at < s.len() && s[at] == c
}

/// The segments of a path that follow a segment ending at `at`, each behind
/// a dot, and where the path ends.
pub open spec fn more_segments_at(s: Seq<char>, at: int) -> (Seq<Seq<char>>, int)
    decreases s.len() - at,
{
    let end = run_end(s, at + 1, CharClass::Segment);
    if char_at(s, at, '.') && at + 1 < end <= s.len() {
        let (rest, stop) = more_segments_at(s, end);
        (seq![s.subrange(at + 1, end)] + rest, stop)
    } else {
        (Seq::empty(), at)
    }
}

/// `path := segment ("." segment)*`
pub open spec fn path_at(s: Seq<char>, at: int) -> Option<(Seq<Seq<char>>, int)> {
    let end = run_end(s, at, CharClass::Segment);
    if at < end {
        let (rest, stop) = more_segments_at(s, end);
        Some((seq![s.subrange(at, end)] + rest, stop))
    } else {
        None
    }
}

/// `quoted := '"' [^"]* '"'`; the value is what stands between the quotes.
pub open spec fn quoted_at(s: Seq<char>, at: int) -> Option<(Seq<char>, int)> {
    let close = run_end(s, at + 1, CharClass::Quoted);
    if char_at(s, at, '"') && char_at(s, close, '"') {
        Some((s.subrange(at + 1, close), close + 1))
    } else {
        None
    }
}

/// `unquoted := [^ \t\n,)"]+`
pub open spec fn unquoted_at(s: Seq<char>, at: int) -> Option<(Seq<char>, int)> {
    let end = run_end(s, at, CharClass::Bare);
    if at < end {
        Some((s.subrange(at, end), end))
    } else {
        None
    }
}

/// `value := quoted | unquoted`
pub open spec fn value_at(s: Seq<char>, at: int) -> Option<(Seq<char>, int)> {
    match quoted_at(s, at) {
        Some(found) => Some(found),
        None => unquoted_at(s, at),
    }
}

/// `path ws? operator ws? value`: the path, the value, and the end.
pub open spec fn comparison_at(s: Seq<char>, at: int, operator: Seq<char>) -> Option<
    (Seq<Seq<char>>, Seq<char>, int),
> {
    match path_at(s, at) {
        Some((path, after_path)) => match word_at(
            s,
            run_end(s, after_path, CharClass::Blank),
            operator,
        ) {
            Some(after_operator) => match value_at(
                s,
                run_end(s, after_operator, CharClass::Blank),
            ) {
                Some((literal, end)) => Some((path, literal, end)),
                None => None,
            },
            None => None,
        },
        None => None,
    }
}

/// `path ws? "==" ws? value`
pub open spec fn operation_equals_at(s: Seq<char>, at: int) -> Option<(Formula, int)> {
    match comparison_at(s, at, "=="@) {
        Some((path, literal, end)) => Some((Formula::Equals(path, literal), end)),
        None => None,
    }
}

/// `path ws? "!=" ws? value`
pub open spec fn operation_not_equals_at(s: Seq<char>, at: int) -> Option<(Formula, int)> {
    match comparison_at(s, at, "!="@) {
        Some((path, literal, end)) => Some((Formula::NotEquals(path, literal), end)),
        None => None,
    }
}

/// `operation := path ws? ("==" | "!=") ws? value`, the inequality tried
/// first.
pub open spec fn operation_at(s: Seq<char>, at: int) -> Option<(Formula, int)> {
    match operation_not_equals_at(s, at) {
        Some(found) => Some(found),
        None => operation_equals_at(s, at),
    }
}

/// `exists := "exists" "(" path ")"`
pub open spec fn exists_at(s: Seq<char>, at: int) -> Option<(Formula, int)> {
    match word_at(s, at, "exists("@) {
        Some(open) => match path_at(s, open) {
            Some((path, end)) => if char_at(s, end, ')') {
                Some((Formula::Exists(path), end + 1))
            } else {
                None
            },
            None => None,
        },
        None => None,
    }
}

/// A comma with optional blanks on either side: where what follows it
/// starts.
pub open spec fn comma_at(s: Seq<char>, at: int) -> Option<int> {
    let comma = run_end(s, at, CharClass::Blank);
    if char_at(s, comma, ',') {
        Some(run_end(s, comma + 1, CharClass::Blank))
    } else {
        None
    }
}

/// `contains := "contains" "(" path "," value ")"`
pub open spec fn contains_at(s: Seq<char>, at: int) -> Option<(Formula, int)> {
    match word_at(s, at, "contains("@) {
        Some(open) => match path_at(s, open) {
            Some((path, after_path)) => match comma_at(s, after_path) {
                Some(after_comma) => match value_at(s, after_comma) {
                    Some((literal, end)) => if char_at(s, end, ')') {
                        Some((Formula::Contains(path, literal), end + 1))
                    } else {
                        None
                    },
                    None => None,
                },
                None => None,
            },
            None => None,
        },
        None => None,
    }
}

/// `expr := or | and | not | contains | exists | operation`
pub open spec fn exp_at(s: Seq<char>, at: int) -> Option<(Formula, int)>
    decreases s.len() - at, 2int,
{
    match or_at(s, at) {
        Some(found) => Some(found),
        None => match and_at(s, at) {
            Some(found) => Some(found),
            None => match not_at(s, at) {
                Some(found) => Some(found),
                None => match contains_at(s, at) {
                    Some(found) => Some(found),
                    None => match exists_at(s, at) {
                        Some(found) => Some(found),
                        None => operation_at(s, at),
                    },
                },
            },
        },
    }
}

/// `not := "not" "(" expr ")"`
pub open spec fn not_at(s: Seq<char>, at: int) -> Option<(Formula, int)>
    decreases s.len() - at, 1int,
{
    match word_at(s, at, "not("@) {
        Some(open) => match exp_at(s, open) {
            Some((inner, end)) => if char_at(s, end, ')') {
                Some((Formula::Not(Box::new(inner)), end + 1))
            } else {
                None
            },
            None => None,
        },
        None => None,
    }
}

/// `and := "and" "(" expr ("," expr)* ")"`
pub open spec fn and_at(s: Seq<char>, at: int) -> Option<(Formula, int)>
    decreases s.len() - at, 1int,
{
    match word_at(s, at, "and("@) {
        Some(open) => match operands_at(s, open) {
            Some((operands, end)) => if char_at(s, end, ')') {
                Some((Formula::And(operands), end + 1))
            } else {
                None
            },
            None => None,
        },
        None => None,
    }
}

/// `or := "or" "(" expr ("," expr)* ")"`
pub open spec fn or_at(s: Seq<char>, at: int) -> Option<(Formula, int)>
    decreases s.len() - at, 1int,
{
    match word_at(s, at, "or("@) {
        Some(open) => match operands_at(s, open) {
            Some((operands, end)) => if char_at(s, end, ')') {
                Some((Formula::Or(operands), end + 1))
            } else {
                None
            },
            None => None,
        },
        None => None,
    }
}

/// `expr ("," expr)*`: one operand or more, separated by commas.
pub open spec fn operands_at(s: Seq<char>, at: int) -> Option<(Seq<Formula>, int)>
    decreases s.len() - at, 3int,
{
    match exp_at(s, at) {
        Some((first, end)) => if at < end <= s.len() {
            let (rest, stop) = more_operands_at(s, end);
            Some((seq![first] + rest, stop))
        } else {
            None
        },
        None => None,
    }
}

/// The operands that follow an operand ending at `at`, each behind a comma,
/// and where the list ends. A comma that no operand follows is not part of
/// the list.
pub open spec fn more_operands_at(s: Seq<char>, at: int) -> (Seq<Formula>, int)
    decreases s.len() - at, 4int,
{
    match comma_at(s, at) {
        Some(next) => if at < next <= s.len() {
            match exp_at(s, next) {
                Some((operand, end)) => if next < end <= s.len() {
                    let (rest, stop) = more_operands_at(s, end);
                    (seq![operand] + rest, stop)
                } else {
                    (Seq::empty(), at)
                },
                None => (Seq::empty(), at),
            }
        } else {
            (Seq::empty(), at)
        },
        None => (Seq::empty(), at),
    }
}

/// Whether a text is a path segment: one character or more, each a letter,
/// a digit, `_` or `-`.
pub open spec fn is_segment(text: Seq<char>) -> bool {
    text.len() > 0 && forall|i: int| 0 <= i < text.len() ==> is_segment_char(#[trigger] text[i])
}

/// Whether a sequence of texts is a path: one segment or more.
pub open spec fn is_path(path: Seq<Seq<char>>) -> bool {
    path.len() > 0 && forall|i: int| 0 <= i < path.len() ==> is_segment(#[trigger] path[i])
}

/// Whether a text can be written as a value: it holds no `"`.
pub open spec fn is_literal(text: Seq<char>) -> bool {
    forall|i: int| 0 <= i < text.len() ==> #[trigger] text[i] != '"'
}

/// Whether a formula is one that can be written in the grammar: its paths
/// are paths, its literals hold no `"`, and each conjunction and disjunction
/// has an operand.
pub open spec fn well_formed(formula: Formula) -> bool
    decreases formula, 0int,
{
    match formula {
        Formula::Equals(path, literal) => is_path(path) && is_literal(literal),
        Formula::NotEquals(path, literal) => is_path(path) && is_literal(literal),
        Formula::Exists(path) => is_path(path),
        Formula::Not(inner) => well_formed(*inner),
        Formula::And(operands) => operands.len() > 0 && each_well_formed(operands),
        Formula::Or(operands) => operands.len() > 0 && each_well_formed(operands),
        Formula::Contains(path, literal) => is_path(path) && is_literal(literal),
    }
}

/// Whether each formula of a sequence is well formed.
pub open spec fn each_well_formed(operands: Seq<Formula>) -> bool
    decreases operands, 1int,
{
    forall|i: int| 0 <= i < operands.len() ==> well_formed(#[trigger] operands[i])
}

/// A run ends within the text; each character of it belongs to the class,
/// and the character behind it, if there is one, does not.
pub proof fn lemma_run_end(s: Seq<char>, start: int, class: CharClass)
    requires
        0 <= start <= s.len(),
    ensures
        start <= run_end(s, start, class) <= s.len(),
        forall|i: int| start <= i < run_end(s, start, class) ==> class.has(#[trigger] s[i]),
        run_end(s, start, class) < s.len() ==> !class.has(s[run_end(s, start, class)]),
    decreases s.len() - start,
{
    if start < s.len() && class.has(s[start]) {
        lemma_run_end(s, start + 1, class);
    }
}

/// A run ends at `end` where each character from `start` up to `end`
/// belongs to the class and the character at `end`, if there is one, does
/// not.
pub proof fn lemma_run_end_is(s: Seq<char>, start: int, end: int, class: CharClass)
    requires
        0 <= start <= end <= s.len(),
        forall|i: int| start <= i < end ==> class.has(#[trigger] s[i]),
        end < s.len() ==> !class.has(s[end]),
    ensures
        run_end(s, start, class) == end,
    decreases end - start,
{
    if start < end {
        lemma_run_end_is(s, start + 1, end, class);
    }
}

/// The segments that follow a segment are segments, and end within the
/// text.
pub proof fn lemma_more_segments_at(s: Seq<char>, at: int)
    requires
        0 <= at <= s.len(),
    ensures
        at <= more_segments_at(s, at).1 <= s.len(),
        forall|i: int|
            0 <= i < more_segments_at(s, at).0.len() ==> is_segment(
                #[trigger] more_segments_at(s, at).0[i],
            ),
    decreases s.len() - at,
{
    let end = run_end(s, at + 1, CharClass::Segment);
    if char_at(s, at, '.') && at + 1 < end <= s.len() {
        lemma_run_end(s, at + 1, CharClass::Segment);
        lemma_more_segments_at(s, end);
        let first = s.subrange(at + 1, end);
        let rest = more_segments_at(s, end).0;
        assert forall|i: int| 0 <= i < (seq![first] + rest).len() implies is_segment(
            #[trigger] (seq![first] + rest)[i],
        ) by {
            if i > 0 {
                assert((seq![first] + rest)[i] == rest[i - 1]);
            }
        }
    }
}

/// A path that was read is a path, and ends within the text behind where
/// it starts.
pub proof fn lemma_path_at(s: Seq<char>, at: int)
    requires
        0 <= at <= s.len(),
    ensures
        path_at(s, at) matches Some((path, end)) ==> at < end <= s.len() && is_path(path),
{
    let end = run_end(s, at, CharClass::Segment);
    lemma_run_end(s, at, CharClass::Segment);
    if at < end {
        lemma_more_segments_at(s, end);
        let first = s.subrange(at, end);
        let rest = more_segments_at(s, end).0;
        assert forall|i: int| 0 <= i < (seq![first] + rest).len() implies is_segment(
            #[trigger] (seq![first] + rest)[i],
        ) by {
            if i > 0 {
                assert((seq![first] + rest)[i] == rest[i - 1]);
            }
        }
    }
}

/// A value that was read holds no `"`, and ends within the text behind
/// where it starts.
pub proof fn lemma_value_at(s: Seq<char>, at: int)
    requires
        0 <= at <= s.len(),
    ensures
        value_at(s, at) matches Some((literal, end)) ==> at < end <= s.len() && is_literal(
            literal,
        ),
{
    if char_at(s, at, '"') {
        lemma_run_end(s, at + 1, CharClass::Quoted);
    }
    lemma_run_end(s, at, CharClass::Bare);
}

/// A comparison that was read has a path and a literal, and ends within the
/// text behind where it starts.
pub proof fn lemma_comparison_at(s: Seq<char>, at: int, operator: Seq<char>)
    requires
        0 <= at <= s.len(),
    ensures
        comparison_at(s, at, operator) matches Some((path, literal, end)) ==> at < end <= s.len()
            && is_path(path) && is_literal(literal),
{
    lemma_path_at(s, at);
    if let Some((path, after_path)) = path_at(s, at) {
        lemma_run_end(s, after_path, CharClass::Blank);
        if let Some(after_operator) = word_at(
            s,
            run_end(s, after_path, CharClass::Blank),
            operator,
        ) {
            lemma_run_end(s, after_operator, CharClass::Blank);
            lemma_value_at(s, run_end(s, after_operator, CharClass::Blank));
        }
    }
}

/// A comma that was read ends within the text behind where it starts.
pub proof fn lemma_comma_at(s: Seq<char>, at: int)
    requires
        0 <= at <= s.len(),
    ensures
        comma_at(s, at) matches Some(next) ==> at < next <= s.len(),
{
    lemma_run_end(s, at, CharClass::Blank);
    let comma = run_end(s, at, CharClass::Blank);
    if char_at(s, comma, ',') {
        lemma_run_end(s, comma + 1, CharClass::Blank);
    }
}

/// An expression that was read is well formed, and ends within the text
/// behind where it starts.
pub proof fn lemma_exp_at(s: Seq<char>, at: int)
    requires
        0 <= at <= s.len(),
    ensures
        exp_at(s, at) matches Some((formula, end)) ==> at < end <= s.len() && well_formed(
            formula,
        ),
    decreases s.len() - at, 2int,
{
    if let Some(open) = word_at(s, at, "or("@) {
        lemma_operands_at(s, open);
    }
    if let Some(open) = word_at(s, at, "and("@) {
        lemma_operands_at(s, open);
    }
    if let Some(open) = word_at(s, at, "not("@) {
        lemma_exp_at(s, open);
    }
    if let Some(open) = word_at(s, at, "contains("@) {
        lemma_path_at(s, open);
        if let Some((path, after_path)) = path_at(s, open) {
            lemma_comma_at(s, after_path);
            if let Some(after_comma) = comma_at(s, after_path) {
                lemma_value_at(s, after_comma);
            }
        }
    }
    if let Some(open) = word_at(s, at, "exists("@) {
        lemma_path_at(s, open);
    }
    lemma_comparison_at(s, at, "!="@);
    lemma_comparison_at(s, at, "=="@);
}

/// The operands that were read are well formed, at least one, and end
/// within the text behind where they start.
pub proof fn lemma_operands_at(s: Seq<char>, at: int)
    requires
        0 <= at <= s.len(),
    ensures
        operands_at(s, at) matches Some((operands, end)) ==> at < end <= s.len()
            && operands.len() > 0 && each_well_formed(operands),
    decreases s.len() - at, 3int,
{
    lemma_exp_at(s, at);
    if let Some((first, end)) = exp_at(s, at) {
        lemma_more_operands_at(s, end);
        let rest = more_operands_at(s, end).0;
        assert forall|i: int| 0 <= i < (seq![first] + rest).len() implies well_formed(
            #[trigger] (seq![first] + rest)[i],
        ) by {
            if i > 0 {
                assert((seq![first] + rest)[i] == rest[i - 1]);
            }
        }
    }
}

/// The operands that follow an operand are well formed, and end within the
/// text.
pub proof fn lemma_more_operands_at(s: Seq<char>, at: int)
    requires
        0 <= at <= s.len(),
    ensures
        at <= more_operands_at(s, at).1 <= s.len(),
        each_well_formed(more_operands_at(s, at).0),
    decreases s.len() - at, 4int,
{
    lemma_comma_at(s, at);
    if let Some(next) = comma_at(s, at) {
        lemma_exp_at(s, next);
        if let Some((operand, end)) = exp_at(s, next) {
            lemma_more_operands_at(s, end);
            let rest = more_operands_at(s, end).0;
            assert forall|i: int| 0 <= i < (seq![operand] + rest).len() implies well_formed(
                #[trigger] (seq![operand] + rest)[i],
            ) by {
                if i > 0 {
                    assert((seq![operand] + rest)[i] == rest[i - 1]);
                }
            }
        }
    }
}

/// The two ways in which a text fails to be a filter expression.
#[derive(Debug, Clone, Copy, PartialEq, Eq)]
pub enum SyntaxErrorKind {
    /// No rule of the grammar matches at the position.
    NoMatch,
    /// An expression was read, and text is left behind it.
    TrailingInput,
}

/// What a syntax error says: its kind, the position in the text where it
/// arose, counted in characters, and the text from that position on.
pub struct SyntaxFault {
    pub kind: SyntaxErrorKind,
    pub position: int,
    pub remainder: Seq<char>,
}

/// What a whole text reads as: the expression that starts at its beginning,
/// where one does and the text ends with it; else the fault.
pub open spec fn parse_of(source: Seq<char>) -> Result<Formula, SyntaxFault> {
    match exp_at(source, 0) {
        Some((formula, end)) => if end == source.len() {
            Ok(formula)
        } else {
            Err(
                SyntaxFault {
                    kind: SyntaxErrorKind::TrailingInput,
                    position: end,
                    remainder: source.subrange(end, source.len() as int),
                },
            )
        },
        None => Err(
            SyntaxFault { kind: SyntaxErrorKind::NoMatch, position: 0, remainder: source },
        ),
    }
}

/// What a text reads as is well formed; a fault lies within the text, and
/// its remainder is the text from its position on.
pub proof fn lemma_parse_of(source: Seq<char>)
    ensures
        match parse_of(source) {
            Ok(formula) => well_formed(formula),
            Err(fault) => {
                &&& 0 <= fault.position <= source.len()
                &&& fault.remainder == source.subrange(fault.position, source.len() as int)
                &&& fault.kind == SyntaxErrorKind::NoMatch ==> fault.position == 0
                &&& fault.kind == SyntaxErrorKind::TrailingInput ==> 0 < fault.position
                    < source.len()
            },
        },
{
    lemma_exp_at(source, 0);
    assert(source.subrange(0, source.len() as int) == source);
}

} // verus!
