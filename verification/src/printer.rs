//! The text of a filter expression, and the law that reading that text
//! gives the expression back.

use crate::ast::{formulas_of, lemma_and_view, lemma_or_view, EPath, Exp, Formula};
use crate::eval::holds;
use crate::grammar::{
    char_at, comparison_at, each_well_formed, exp_at, has_at, is_blank, is_literal, is_path,
    is_segment, is_segment_char, lemma_run_end_is, more_operands_at, more_segments_at,
    operands_at, parse_of, path_at, run_end, value_at, well_formed, word_at, CharClass,
    SyntaxFault,
};
use crate::record::Json;
use crate::text::{joined, joined_from};
use vstd::prelude::*;

verus! {

/// The segments of `path` from index `i` on, each behind a dot.
pub open spec fn dotted_from(path: Seq<Seq<char>>, i: int) -> Seq<char> {
    joined_from(path, '.', i)
}

/// The text of a path: its segments with a dot between each two.
pub open spec fn path_text(path: Seq<Seq<char>>) -> Seq<char> {
    joined(path, '.')
}

/// The text of a literal: the literal between two `"`.
pub open spec fn quoted_text(literal: Seq<char>) -> Seq<char> {
    seq!['"'] + literal + seq!['"']
}

/// A word that stands at a position is the text there, character by
/// character.
pub proof fn lemma_has_at_index(s: Seq<char>, at: int, word: Seq<char>, k: int)
    requires
        has_at(s, at, word),
        0 <= k < word.len(),
    ensures
        s[at + k] == word[k],
{
    assert(s.subrange(at, at + word.len())[k] == word[k]);
}

/// Two words stand one behind the other exactly where their concatenation
/// stands.
pub proof fn lemma_has_at_concat(s: Seq<char>, at: int, a: Seq<char>, b: Seq<char>)
    ensures
        has_at(s, at, a + b) <==> has_at(s, at, a) && has_at(s, at + a.len(), b),
{
    if has_at(s, at, a + b) {
        let whole = s.subrange(at, at + (a + b).len());
        assert(whole == a + b);
        assert forall|k: int| 0 <= k < a.len() implies s.subrange(at, at + a.len())[k] == a[k] by {
            assert(whole[k] == (a + b)[k]);
        }
        assert(s.subrange(at, at + a.len()) == a);
        assert forall|k: int| 0 <= k < b.len() implies s.subrange(
            at + a.len(),
            at + a.len() + b.len(),
        )[k] == b[k] by {
            assert(whole[a.len() + k] == (a + b)[a.len() + k]);
        }
        assert(s.subrange(at + a.len(), at + a.len() + b.len()) == b);
    }
    if has_at(s, at, a) && has_at(s, at + a.len(), b) {
        let left = s.subrange(at, at + a.len());
        let right = s.subrange(at + a.len(), at + a.len() + b.len());
        assert forall|k: int| 0 <= k < (a + b).len() implies s.subrange(
            at,
            at + (a + b).len(),
        )[k] == (a + b)[k] by {
            if k < a.len() {
                assert(left[k] == a[k]);
            } else {
                assert(right[k - a.len()] == b[k - a.len()]);
            }
        }
        assert(s.subrange(at, at + (a + b).len()) == a + b);
    }
}

/// Whether what stands at `end` ends a path: the text ends there, or the
/// character there is neither a dot nor one that a segment is made of.
pub open spec fn ends_path(s: Seq<char>, end: int) -> bool {
    end == s.len() || (0 <= end < s.len() && s[end] != '.' && !is_segment_char(s[end]))
}

/// Where the dotted segments of a path stand, and what follows ends the
/// path, reading gives those segments.
pub proof fn lemma_more_segments_read_back(s: Seq<char>, at: int, path: Seq<Seq<char>>, i: int)
    requires
        is_path(path),
        1 <= i <= path.len(),
        0 <= at,
        has_at(s, at, dotted_from(path, i)),
        ends_path(s, at + dotted_from(path, i).len()),
    ensures
        more_segments_at(s, at) == (path.skip(i), at + dotted_from(path, i).len()),
    decreases path.len() - i,
{
    if i == path.len() {
        assert(path.skip(i) == Seq::<Seq<char>>::empty());
    } else {
        let segment = path[i];
        let rest = dotted_from(path, i + 1);
        assert(is_segment(segment));
        assert(dotted_from(path, i) == seq!['.'] + segment + rest);
        lemma_has_at_concat(s, at, seq!['.'] + segment, rest);
        lemma_has_at_concat(s, at, seq!['.'], segment);
        lemma_has_at_index(s, at, seq!['.'], 0);
        let end = at + 1 + segment.len();
        assert forall|k: int| at + 1 <= k < end implies CharClass::Segment.has(
            #[trigger] s[k],
        ) by {
            lemma_has_at_index(s, at + 1, segment, k - at - 1);
            assert(is_segment_char(segment[k - at - 1]));
        }
        if i + 1 < path.len() {
            assert(rest == seq!['.'] + path[i + 1] + dotted_from(path, i + 2));
            lemma_has_at_index(s, end, rest, 0);
        }
        lemma_run_end_is(s, at + 1, end, CharClass::Segment);
        lemma_more_segments_read_back(s, end, path, i + 1);
        assert(s.subrange(at + 1, end) == segment);
        assert(seq![segment] + path.skip(i + 1) == path.skip(i));
    }
}

/// Where the text of a path stands, and what follows ends the path,
/// reading gives the path.
pub proof fn lemma_path_reads_back(s: Seq<char>, at: int, path: Seq<Seq<char>>)
    requires
        is_path(path),
        0 <= at,
        has_at(s, at, path_text(path)),
        ends_path(s, at + path_text(path).len()),
    ensures
        path_at(s, at) == Some((path, at + path_text(path).len())),
{
    let segment = path[0];
    let rest = dotted_from(path, 1);
    assert(is_segment(segment));
    lemma_has_at_concat(s, at, segment, rest);
    let end = at + segment.len();
    assert forall|k: int| at <= k < end implies CharClass::Segment.has(#[trigger] s[k]) by {
        lemma_has_at_index(s, at, segment, k - at);
        assert(is_segment_char(segment[k - at]));
    }
    if 1 < path.len() {
        assert(rest == seq!['.'] + path[1] + dotted_from(path, 2));
        lemma_has_at_index(s, end, rest, 0);
    }
    lemma_run_end_is(s, at, end, CharClass::Segment);
    lemma_more_segments_read_back(s, end, path, 1);
    assert(s.subrange(at, end) == segment);
    assert(seq![segment] + path.skip(1) == path);
}

/// Where the text of a literal stands, reading a value gives the literal.
pub proof fn lemma_value_reads_back(s: Seq<char>, at: int, literal: Seq<char>)
    requires
        is_literal(literal),
        0 <= at,
        has_at(s, at, quoted_text(literal)),
    ensures
        value_at(s, at) == Some((literal, at + literal.len() + 2)),
{
    let text = quoted_text(literal);
    lemma_has_at_index(s, at, text, 0);
    lemma_has_at_index(s, at, text, literal.len() as int + 1);
    let close = at + 1 + literal.len();
    assert forall|k: int| at + 1 <= k < close implies CharClass::Quoted.has(#[trigger] s[k]) by {
        lemma_has_at_index(s, at, text, k - at);
        assert(text[k - at] == literal[k - at - 1]);
    }
    lemma_run_end_is(s, at + 1, close, CharClass::Quoted);
    assert forall|k: int| 0 <= k < literal.len() implies s.subrange(at + 1, close)[k]
        == literal[k] by {
        lemma_has_at_index(s, at, text, k + 1);
    }
    assert(s.subrange(at + 1, close) == literal);
}

/// The text of a formula: the shortest way to write it, with no blanks and
/// each literal between quotes.
pub open spec fn text_of(formula: Formula) -> Seq<char>
    decreases formula, 0int,
{
    match formula {
        Formula::Equals(path, literal) => path_text(path) + "=="@ + quoted_text(literal),
        Formula::NotEquals(path, literal) => path_text(path) + "!="@ + quoted_text(literal),
        Formula::Exists(path) => "exists("@ + path_text(path) + seq![')'],
        Formula::Not(inner) => "not("@ + text_of(*inner) + seq![')'],
        Formula::And(operands) => "and("@ + list_text(operands) + seq![')'],
        Formula::Or(operands) => "or("@ + list_text(operands) + seq![')'],
        Formula::Contains(path, literal) => "contains("@ + path_text(path) + seq![',']
            + quoted_text(literal) + seq![')'],
    }
}

/// The texts of the formulas of a sequence, with a comma between each two.
pub open spec fn list_text(operands: Seq<Formula>) -> Seq<char>
    decreases operands, operands.len() + 1,
{
    if operands.len() > 0 {
        text_of(operands[0]) + listed_from(operands, 1)
    } else {
        Seq::empty()
    }
}

/// The texts of the formulas of a sequence from index `i` on, each behind a
/// comma.
pub open spec fn listed_from(operands: Seq<Formula>, i: int) -> Seq<char>
    decreases operands, operands.len() - i,
{
    if 0 <= i < operands.len() {
        seq![','] + text_of(operands[i]) + listed_from(operands, i + 1)
    } else {
        Seq::empty()
    }
}

/// Whether a word has the shape of a keyword with its bracket: characters
/// that a segment is made of, and a `(` behind them.
pub open spec fn is_keyword(word: Seq<char>) -> bool {
    &&& word.len() >= 2
    &&& word[word.len() - 1] == '('
    &&& forall|k: int| 0 <= k < word.len() - 1 ==> is_segment_char(#[trigger] word[k])
}

/// The five keywords have the shape of a keyword, and no two begin alike.
pub proof fn lemma_keywords()
    ensures
        is_keyword("or("@),
        is_keyword("and("@),
        is_keyword("not("@),
        is_keyword("contains("@),
        is_keyword("exists("@),
        "or("@[0] == 'o',
        "and("@[0] == 'a',
        "not("@[0] == 'n',
        "contains("@[0] == 'c',
        "exists("@[0] == 'e',
{
    reveal_strlit("or(");
    reveal_strlit("and(");
    reveal_strlit("not(");
    reveal_strlit("contains(");
    reveal_strlit("exists(");
}

/// A keyword stands only where the run of segment characters ends at a
/// `(`.
pub proof fn lemma_keyword_needs_bracket(s: Seq<char>, at: int, word: Seq<char>)
    requires
        is_keyword(word),
        0 <= at <= s.len(),
        !char_at(s, run_end(s, at, CharClass::Segment), '('),
    ensures
        word_at(s, at, word) is None,
{
    if has_at(s, at, word) {
        let stop = at + word.len() - 1;
        assert forall|k: int| at <= k < stop implies CharClass::Segment.has(#[trigger] s[k]) by {
            lemma_has_at_index(s, at, word, k - at);
        }
        lemma_has_at_index(s, at, word, word.len() - 1);
        lemma_run_end_is(s, at, stop, CharClass::Segment);
    }
}

/// A word does not stand where the first character is another.
pub proof fn lemma_other_start(s: Seq<char>, at: int, word: Seq<char>)
    requires
        0 <= at < s.len(),
        word.len() > 0,
        s[at] != word[0],
    ensures
        word_at(s, at, word) is None,
{
    if has_at(s, at, word) {
        lemma_has_at_index(s, at, word, 0);
    }
}

/// Where the text of a path stands and what follows ends the path, the run
/// of segment characters is the first segment, and no `(` follows it.
pub proof fn lemma_path_starts(s: Seq<char>, at: int, path: Seq<Seq<char>>)
    requires
        is_path(path),
        0 <= at,
        has_at(s, at, path_text(path)),
        ends_path(s, at + path_text(path).len()),
        !char_at(s, at + path_text(path).len(), '('),
    ensures
        !char_at(s, run_end(s, at, CharClass::Segment), '('),
        at < s.len(),
        is_segment_char(s[at]),
{
    let segment = path[0];
    let rest = dotted_from(path, 1);
    assert(is_segment(segment));
    lemma_has_at_concat(s, at, segment, rest);
    let end = at + segment.len();
    assert forall|k: int| at <= k < end implies CharClass::Segment.has(#[trigger] s[k]) by {
        lemma_has_at_index(s, at, segment, k - at);
        assert(is_segment_char(segment[k - at]));
    }
    assert(CharClass::Segment.has(s[at]));
    if 1 < path.len() {
        assert(rest == seq!['.'] + path[1] + dotted_from(path, 2));
        lemma_has_at_index(s, end, rest, 0);
    } else {
        assert(dotted_from(path, 2) == Seq::<char>::empty());
        assert(rest == Seq::<char>::empty());
    }
    lemma_run_end_is(s, at, end, CharClass::Segment);
}

/// No blank stands where a run of blanks starts at another character.
pub proof fn lemma_no_blanks(s: Seq<char>, at: int)
    requires
        0 <= at <= s.len(),
        at < s.len() ==> !is_blank(s[at]),
    ensures
        run_end(s, at, CharClass::Blank) == at,
{
    lemma_run_end_is(s, at, at, CharClass::Blank);
}

/// Where a path, an operator and a quoted literal stand one behind the
/// other, reading a comparison with that operator gives the path and the
/// literal.
pub proof fn lemma_comparison_reads_back(
    s: Seq<char>,
    at: int,
    path: Seq<Seq<char>>,
    operator: Seq<char>,
    literal: Seq<char>,
)
    requires
        is_path(path),
        is_literal(literal),
        0 <= at,
        operator.len() > 0,
        operator[0] == '=' || operator[0] == '!',
        has_at(s, at, path_text(path) + operator + quoted_text(literal)),
    ensures
        comparison_at(s, at, operator) == Some(
            (path, literal, at + (path_text(path) + operator + quoted_text(literal)).len()),
        ),
        !char_at(s, run_end(s, at, CharClass::Segment), '('),
        at < s.len(),
        is_segment_char(s[at]),
{
    let a = path_text(path);
    let q = quoted_text(literal);
    lemma_has_at_concat(s, at, a + operator, q);
    lemma_has_at_concat(s, at, a, operator);
    let e = at + a.len();
    lemma_has_at_index(s, e, operator, 0);
    lemma_path_reads_back(s, at, path);
    lemma_path_starts(s, at, path);
    lemma_no_blanks(s, e);
    let v = e + operator.len();
    lemma_has_at_index(s, v, q, 0);
    lemma_no_blanks(s, v);
    lemma_value_reads_back(s, v, literal);
}

/// The text of a well-formed formula begins with a character that a
/// segment is made of.
pub proof fn lemma_text_starts(formula: Formula)
    requires
        well_formed(formula),
    ensures
        text_of(formula).len() > 0,
        is_segment_char(text_of(formula)[0]),
{
    lemma_keywords();
    match formula {
        Formula::Equals(path, literal) => {
            assert(is_segment(path[0]));
            assert(is_segment_char(path[0][0]));
        },
        Formula::NotEquals(path, literal) => {
            assert(is_segment(path[0]));
            assert(is_segment_char(path[0][0]));
        },
        Formula::Exists(path) => {
            assert(is_segment_char("exists("@[0]));
        },
        Formula::Not(inner) => {
            assert(is_segment_char("not("@[0]));
        },
        Formula::And(operands) => {
            assert(is_segment_char("and("@[0]));
        },
        Formula::Or(operands) => {
            assert(is_segment_char("or("@[0]));
        },
        Formula::Contains(path, literal) => {
            assert(is_segment_char("contains("@[0]));
        },
    }
}

/// Where the text of an equality stands, reading an expression gives the
/// equality.
proof fn lemma_equals_reads_back(s: Seq<char>, at: int, path: Seq<Seq<char>>, literal: Seq<char>)
    requires
        is_path(path),
        is_literal(literal),
        0 <= at,
        has_at(s, at, text_of(Formula::Equals(path, literal))),
    ensures
        exp_at(s, at) == Some(
            (
                Formula::Equals(path, literal),
                at + text_of(Formula::Equals(path, literal)).len(),
            ),
        ),
{
    lemma_keywords();
    reveal_strlit("==");
    reveal_strlit("!=");
    lemma_comparison_reads_back(s, at, path, "=="@, literal);
    lemma_keyword_needs_bracket(s, at, "or("@);
    lemma_keyword_needs_bracket(s, at, "and("@);
    lemma_keyword_needs_bracket(s, at, "not("@);
    lemma_keyword_needs_bracket(s, at, "contains("@);
    lemma_keyword_needs_bracket(s, at, "exists("@);
    let a = path_text(path);
    lemma_has_at_concat(s, at, a + "=="@, quoted_text(literal));
    lemma_has_at_concat(s, at, a, "=="@);
    lemma_has_at_index(s, at + a.len(), "=="@, 0);
    lemma_path_reads_back(s, at, path);
    lemma_no_blanks(s, at + a.len());
    lemma_other_start(s, at + a.len(), "!="@);
    assert(comparison_at(s, at, "!="@) is None);
}

/// Where the text of an inequality stands, reading an expression gives the
/// inequality.
proof fn lemma_not_equals_reads_back(
    s: Seq<char>,
    at: int,
    path: Seq<Seq<char>>,
    literal: Seq<char>,
)
    requires
        is_path(path),
        is_literal(literal),
        0 <= at,
        has_at(s, at, text_of(Formula::NotEquals(path, literal))),
    ensures
        exp_at(s, at) == Some(
            (
                Formula::NotEquals(path, literal),
                at + text_of(Formula::NotEquals(path, literal)).len(),
            ),
        ),
{
    lemma_keywords();
    reveal_strlit("!=");
    lemma_comparison_reads_back(s, at, path, "!="@, literal);
    lemma_keyword_needs_bracket(s, at, "or("@);
    lemma_keyword_needs_bracket(s, at, "and("@);
    lemma_keyword_needs_bracket(s, at, "not("@);
    lemma_keyword_needs_bracket(s, at, "contains("@);
    lemma_keyword_needs_bracket(s, at, "exists("@);
}

/// Where the text of an existence test stands, reading an expression gives
/// the test.
proof fn lemma_exists_reads_back(s: Seq<char>, at: int, path: Seq<Seq<char>>)
    requires
        is_path(path),
        0 <= at,
        has_at(s, at, text_of(Formula::Exists(path))),
    ensures
        exp_at(s, at) == Some(
            (Formula::Exists(path), at + text_of(Formula::Exists(path)).len()),
        ),
{
    lemma_keywords();
    let k = "exists("@;
    let a = path_text(path);
    lemma_has_at_concat(s, at, k + a, seq![')']);
    lemma_has_at_concat(s, at, k, a);
    lemma_has_at_index(s, at, k, 0);
    lemma_has_at_index(s, at + k.len() + a.len(), seq![')'], 0);
    lemma_other_start(s, at, "or("@);
    lemma_other_start(s, at, "and("@);
    lemma_other_start(s, at, "not("@);
    lemma_other_start(s, at, "contains("@);
    lemma_path_reads_back(s, at + k.len(), path);
}

/// Where the text of a substring test stands, reading an expression gives
/// the test.
proof fn lemma_contains_reads_back(
    s: Seq<char>,
    at: int,
    path: Seq<Seq<char>>,
    literal: Seq<char>,
)
    requires
        is_path(path),
        is_literal(literal),
        0 <= at,
        has_at(s, at, text_of(Formula::Contains(path, literal))),
    ensures
        exp_at(s, at) == Some(
            (
                Formula::Contains(path, literal),
                at + text_of(Formula::Contains(path, literal)).len(),
            ),
        ),
{
    lemma_keywords();
    let k = "contains("@;
    let a = path_text(path);
    let q = quoted_text(literal);
    lemma_has_at_concat(s, at, k + a + seq![','] + q, seq![')']);
    lemma_has_at_concat(s, at, k + a + seq![','], q);
    lemma_has_at_concat(s, at, k + a, seq![',']);
    lemma_has_at_concat(s, at, k, a);
    let e = at + k.len() + a.len();
    lemma_has_at_index(s, at, k, 0);
    lemma_has_at_index(s, e, seq![','], 0);
    lemma_has_at_index(s, e + 1, q, 0);
    lemma_has_at_index(s, e + 1 + q.len(), seq![')'], 0);
    lemma_other_start(s, at, "or("@);
    lemma_other_start(s, at, "and("@);
    lemma_other_start(s, at, "not("@);
    lemma_path_reads_back(s, at + k.len(), path);
    lemma_no_blanks(s, e);
    lemma_no_blanks(s, e + 1);
    lemma_value_reads_back(s, e + 1, literal);
}

/// Where the text of a well-formed formula stands, reading an expression
/// gives the formula and ends behind the text.
pub proof fn lemma_reads_back(s: Seq<char>, at: int, formula: Formula)
    requires
        well_formed(formula),
        0 <= at,
        has_at(s, at, text_of(formula)),
    ensures
        exp_at(s, at) == Some((formula, at + text_of(formula).len())),
    decreases formula, 0int,
{
    match formula {
        Formula::Equals(path, literal) => {
            lemma_equals_reads_back(s, at, path, literal);
        },
        Formula::NotEquals(path, literal) => {
            lemma_not_equals_reads_back(s, at, path, literal);
        },
        Formula::Exists(path) => {
            lemma_exists_reads_back(s, at, path);
        },
        Formula::Not(inner) => {
            lemma_keywords();
            let k = "not("@;
            let a = text_of(*inner);
            lemma_has_at_concat(s, at, k + a, seq![')']);
            lemma_has_at_concat(s, at, k, a);
            lemma_has_at_index(s, at, k, 0);
            lemma_has_at_index(s, at + k.len() + a.len(), seq![')'], 0);
            lemma_other_start(s, at, "or("@);
            lemma_other_start(s, at, "and("@);
            lemma_reads_back(s, at + k.len(), *inner);
        },
        Formula::And(operands) => {
            lemma_keywords();
            let k = "and("@;
            let a = list_text(operands);
            lemma_has_at_concat(s, at, k + a, seq![')']);
            lemma_has_at_concat(s, at, k, a);
            lemma_has_at_index(s, at, k, 0);
            lemma_has_at_index(s, at + k.len() + a.len(), seq![')'], 0);
            lemma_other_start(s, at, "or("@);
            lemma_list_reads_back(s, at + k.len(), operands);
        },
        Formula::Or(operands) => {
            lemma_keywords();
            let k = "or("@;
            let a = list_text(operands);
            lemma_has_at_concat(s, at, k + a, seq![')']);
            lemma_has_at_concat(s, at, k, a);
            lemma_has_at_index(s, at + k.len() + a.len(), seq![')'], 0);
            lemma_list_reads_back(s, at + k.len(), operands);
        },
        Formula::Contains(path, literal) => {
            lemma_contains_reads_back(s, at, path, literal);
        },
    }
}

/// Where the texts of well-formed operands stand with commas between them
/// and a `)` behind, reading the operands gives them all.
pub proof fn lemma_list_reads_back(s: Seq<char>, at: int, operands: Seq<Formula>)
    requires
        operands.len() > 0,
        each_well_formed(operands),
        0 <= at,
        has_at(s, at, list_text(operands)),
        char_at(s, at + list_text(operands).len(), ')'),
    ensures
        operands_at(s, at) == Some((operands, at + list_text(operands).len())),
    decreases operands, operands.len() + 1,
{
    let first = text_of(operands[0]);
    let rest = listed_from(operands, 1);
    lemma_has_at_concat(s, at, first, rest);
    lemma_reads_back(s, at, operands[0]);
    lemma_text_starts(operands[0]);
    lemma_rest_reads_back(s, at + first.len(), operands, 1);
    assert(seq![operands[0]] + operands.skip(1) == operands);
}

/// Where the texts of the operands from index `i` on stand, each behind a
/// comma, and a `)` behind them, reading the rest of a list gives those
/// operands.
pub proof fn lemma_rest_reads_back(s: Seq<char>, at: int, operands: Seq<Formula>, i: int)
    requires
        1 <= i <= operands.len(),
        each_well_formed(operands),
        0 <= at,
        has_at(s, at, listed_from(operands, i)),
        char_at(s, at + listed_from(operands, i).len(), ')'),
    ensures
        more_operands_at(s, at) == (operands.skip(i), at + listed_from(operands, i).len()),
    decreases operands, operands.len() - i,
{
    if i == operands.len() {
        lemma_no_blanks(s, at);
        assert(operands.skip(i) == Seq::<Formula>::empty());
    } else {
        let operand = text_of(operands[i]);
        let rest = listed_from(operands, i + 1);
        lemma_has_at_concat(s, at, seq![','] + operand, rest);
        lemma_has_at_concat(s, at, seq![','], operand);
        lemma_has_at_index(s, at, seq![','], 0);
        lemma_text_starts(operands[i]);
        lemma_has_at_index(s, at + 1, operand, 0);
        lemma_no_blanks(s, at);
        lemma_no_blanks(s, at + 1);
        lemma_reads_back(s, at + 1, operands[i]);
        lemma_rest_reads_back(s, at + 1 + operand.len(), operands, i + 1);
        assert(seq![operands[i]] + operands.skip(i + 1) == operands.skip(i));
    }
}

/// Reading the text of a well-formed formula gives the formula back: each
/// well-formed formula can be written, and what is read from its text holds
/// of the same records.
pub proof fn lemma_text_parses_back(formula: Formula)
    requires
        well_formed(formula),
    ensures
        parse_of(text_of(formula)) == Ok::<Formula, SyntaxFault>(formula),
        forall|record: Json|
            holds(parse_of(text_of(formula))->Ok_0, record) == #[trigger] holds(formula, record),
{
    let s = text_of(formula);
    assert(s.subrange(0, s.len() as int) == s);
    lemma_reads_back(s, 0, formula);
}

/// Appends the text of a path to `out`.
pub fn write_path(path: &EPath, out: &mut String)
    ensures
        final(out)@ == old(out)@ + path_text(path@),
{
    let count = path.0.len();
    if count == 0 {
        assert(out@ + Seq::<char>::empty() == out@);
        return ;
    }
    out.append(path.0[0].as_str());
    let mut i: usize = 1;
    proof {
        assert((old(out)@ + path@[0]) + dotted_from(path@, 1) == old(out)@ + path_text(path@));
    }
    while i < count
        invariant
            1 <= i <= count,
            count == path.0.len(),
            count == path@.len(),
            out@ + dotted_from(path@, i as int) == old(out)@ + path_text(path@),
        decreases count - i,
    {
        let ghost before = out@;
        out.append(".");
        out.append(path.0[i].as_str());
        proof {
            reveal_strlit(".");
            assert("."@ == seq!['.']);
            let rest = dotted_from(path@, i + 1);
            let segment = path@[i as int];
            assert((before + "."@ + segment) + rest == before + (seq!['.'] + segment + rest));
        }
        i += 1;
    }
    assert(out@ + Seq::<char>::empty() == out@);
}

/// Appends a literal to `out`, between two `"`.
pub fn write_quoted(literal: &String, out: &mut String)
    ensures
        final(out)@ == old(out)@ + quoted_text(literal@),
{
    out.append("\"");
    out.append(literal.as_str());
    out.append("\"");
    proof {
        reveal_strlit("\"");
        assert("\""@ == seq!['"']);
        assert(old(out)@ + "\""@ + literal@ + "\""@ == old(out)@ + quoted_text(literal@));
    }
}

/// Appends the text of an expression to `out`.
pub fn write_exp(exp: &Exp, out: &mut String)
    ensures
        final(out)@ == old(out)@ + text_of(exp@),
    decreases exp, 0int,
{
    proof {
        reveal_strlit(")");
        reveal_strlit(",");
        assert(")"@ == seq![')']);
        assert(","@ == seq![',']);
    }
    let ghost before = out@;
    match exp {
        Exp::Equals(path, literal) => {
            write_path(path, out);
            out.append("==");
            write_quoted(literal, out);
            assert(before + path_text(path@) + "=="@ + quoted_text(literal@) == before + (
            path_text(path@) + "=="@ + quoted_text(literal@)));
        },
        Exp::NotEquals(path, literal) => {
            write_path(path, out);
            out.append("!=");
            write_quoted(literal, out);
            assert(before + path_text(path@) + "!="@ + quoted_text(literal@) == before + (
            path_text(path@) + "!="@ + quoted_text(literal@)));
        },
        Exp::Exists(path) => {
            out.append("exists(");
            write_path(path, out);
            out.append(")");
            assert(before + "exists("@ + path_text(path@) + ")"@ == before + ("exists("@
                + path_text(path@) + seq![')']));
        },
        Exp::Not(inner) => {
            out.append("not(");
            write_exp(inner, out);
            out.append(")");
            assert(before + "not("@ + text_of(inner@) + ")"@ == before + ("not("@ + text_of(
                inner@,
            ) + seq![')']));
        },
        Exp::And(operands) => {
            proof {
                lemma_and_view(*operands);
            }
            out.append("and(");
            write_list(operands, out);
            out.append(")");
            let ghost list = list_text(formulas_of(operands@));
            assert(before + "and("@ + list + ")"@ == before + ("and("@ + list + seq![')']));
        },
        Exp::Or(operands) => {
            proof {
                lemma_or_view(*operands);
            }
            out.append("or(");
            write_list(operands, out);
            out.append(")");
            let ghost list = list_text(formulas_of(operands@));
            assert(before + "or("@ + list + ")"@ == before + ("or("@ + list + seq![')']));
        },
        Exp::Contains(path, literal) => {
            out.append("contains(");
            write_path(path, out);
            out.append(",");
            write_quoted(literal, out);
            out.append(")");
            assert(before + "contains("@ + path_text(path@) + ","@ + quoted_text(literal@) + ")"@
                == before + ("contains("@ + path_text(path@) + seq![','] + quoted_text(
                literal@,
            ) + seq![')']));
        },
    }
}

/// Appends the texts of the expressions of a list to `out`, with a comma
/// between each two.
pub fn write_list(operands: &Vec<Exp>, out: &mut String)
    ensures
        final(out)@ == old(out)@ + list_text(formulas_of(operands@)),
    decreases operands, 1int,
{
    let count = operands.len();
    let ghost all = formulas_of(operands@);
    if count == 0 {
        assert(out@ + Seq::<char>::empty() == out@);
        return ;
    }
    write_exp(&operands[0], out);
    let mut i: usize = 1;
    proof {
        assert((old(out)@ + text_of(all[0])) + listed_from(all, 1) == old(out)@ + list_text(all));
    }
    while i < count
        invariant
            1 <= i <= count,
            count == operands.len(),
            all == formulas_of(operands@),
            out@ + listed_from(all, i as int) == old(out)@ + list_text(all),
        decreases count - i,
    {
        let ghost before = out@;
        out.append(",");
        write_exp(&operands[i], out);
        proof {
            reveal_strlit(",");
            assert(","@ == seq![',']);
            let rest = listed_from(all, i + 1);
            let operand = text_of(all[i as int]);
            assert((before + ","@ + operand) + rest == before + (seq![','] + operand + rest));
        }
        i += 1;
    }
    assert(out@ + Seq::<char>::empty() == out@);
}

impl Exp {
    /// The text of the expression: the shortest way to write it, with no
    /// blanks and each literal between quotes.
    pub fn to_text(&self) -> (text: String)
        ensures
            text@ == text_of(self@),
    {
        let mut out = String::new();
        write_exp(self, &mut out);
        assert(Seq::<char>::empty() + text_of(self@) == text_of(self@));
        out
    }
}

} // verus!
