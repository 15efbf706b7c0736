use jaxe::grammar::{CharClass, SyntaxErrorKind};
use jaxe::parser::{
    and, comma, contains, exp, in_class, is_char, not, operands, operation, or, path, path_exists,
    path_segment, quoted_value, scan, tag, unquoted_value, value, Input,
};
use jaxe::{parse, EPath, Exp, SyntaxError};

fn epath(segments: &[&str]) -> EPath {
    EPath(segments.iter().map(|segment| segment.to_string()).collect())
}

fn equals(segments: &[&str], literal: &str) -> Exp {
    Exp::Equals(epath(segments), literal.to_string())
}

fn no_match(source: &str) -> Result<Exp, SyntaxError> {
    Err(SyntaxError {
        kind: SyntaxErrorKind::NoMatch,
        position: 0,
        remainder: source.to_string(),
    })
}

fn trailing(position: usize, remainder: &str) -> Result<Exp, SyntaxError> {
    Err(SyntaxError {
        kind: SyntaxErrorKind::TrailingInput,
        position,
        remainder: remainder.to_string(),
    })
}

#[test]
fn unclosed_bracket_is_a_syntax_error() {
    assert_eq!(parse("not_closed("), no_match("not_closed("));
}

#[test]
fn text_left_over_is_a_syntax_error() {
    assert_eq!(parse("a == b "), trailing(6, " "));
    assert_eq!(parse("a == b c"), trailing(6, " c"));
    assert_eq!(parse("exists(a))"), trailing(9, ")"));
    assert_eq!(parse("a == \"b\"c"), trailing(8, "c"));
    assert_eq!(parse("a == b\n"), trailing(6, "\n"));
}

#[test]
fn nothing_to_read_is_a_syntax_error() {
    assert_eq!(parse(""), no_match(""));
    assert_eq!(parse(" a == b"), no_match(" a == b"));
    assert_eq!(parse("a"), no_match("a"));
    assert_eq!(parse("a = b"), no_match("a = b"));
    assert_eq!(parse("a =="), no_match("a =="));
    assert_eq!(parse("== b"), no_match("== b"));
    assert_eq!(parse("and()"), no_match("and()"));
    assert_eq!(parse("or()"), no_match("or()"));
    assert_eq!(parse("not()"), no_match("not()"));
    assert_eq!(parse("not (a == b)"), no_match("not (a == b)"));
    assert_eq!(parse("and(a == b,)"), no_match("and(a == b,)"));
    assert_eq!(parse("and(a == b"), no_match("and(a == b"));
    assert_eq!(parse("contains(a)"), no_match("contains(a)"));
    assert_eq!(parse("contains(a, )"), no_match("contains(a, )"));
    assert_eq!(parse("exists()"), no_match("exists()"));
    assert_eq!(parse("exists(a, b)"), no_match("exists(a, b)"));
    assert_eq!(parse("a == \"b"), no_match("a == \"b"));
}

#[test]
fn empty_segments_are_refused() {
    assert_eq!(parse("a..b == c"), no_match("a..b == c"));
    assert_eq!(parse(".a == c"), no_match(".a == c"));
    assert_eq!(parse("a. == c"), no_match("a. == c"));
    assert_eq!(parse("exists(a.)"), no_match("exists(a.)"));
    let input = Input::new("a..b");
    assert_eq!(path(&input, 0), Some((1, epath(&["a"]))));
    assert_eq!(path(&input, 1), None);
    assert_eq!(path(&input, 4), None);
}

#[test]
fn segments_are_letters_digits_underscore_and_hyphen() {
    let input = Input::new("aZ09_-x.y z");
    assert_eq!(path_segment(&input, 0), (7, "aZ09_-x".to_string()));
    assert_eq!(path_segment(&input, 7), (7, "".to_string()));
    assert_eq!(path_segment(&input, 8), (9, "y".to_string()));
    assert_eq!(path_segment(&input, 11), (11, "".to_string()));
    assert_eq!(path(&input, 0), Some((9, epath(&["aZ09_-x", "y"]))));
    for c in ['a', 'z', 'A', 'Z', '0', '9', '_', '-'] {
        assert!(in_class(CharClass::Segment, c), "{}", c);
    }
    for c in ['.', ' ', '=', '(', '\u{e9}', '/', ':', '@', '[', '`', '{'] {
        assert!(!in_class(CharClass::Segment, c), "{}", c);
    }
}

#[test]
fn unquoted_values_end_at_blank_comma_bracket_and_quote() {
    let input = Input::new("ab c,d)e\"f\tg\nh");
    assert_eq!(unquoted_value(&input, 0), Some((2, "ab".to_string())));
    assert_eq!(unquoted_value(&input, 2), None);
    assert_eq!(unquoted_value(&input, 3), Some((4, "c".to_string())));
    assert_eq!(unquoted_value(&input, 5), Some((6, "d".to_string())));
    assert_eq!(unquoted_value(&input, 7), Some((8, "e".to_string())));
    assert_eq!(unquoted_value(&input, 9), Some((10, "f".to_string())));
    assert_eq!(unquoted_value(&input, 11), Some((12, "g".to_string())));
    assert_eq!(unquoted_value(&input, 13), Some((14, "h".to_string())));
    assert_eq!(unquoted_value(&input, 14), None);
    let other = Input::new("a(b=c.d\u{e9}");
    assert_eq!(unquoted_value(&other, 0), Some((8, "a(b=c.d\u{e9}".to_string())));
}

#[test]
fn quoted_values_run_to_the_next_quote() {
    let input = Input::new("\"a b,c)\"x\"\"\"open");
    assert_eq!(quoted_value(&input, 0), Some((8, "a b,c)".to_string())));
    assert_eq!(quoted_value(&input, 8), None);
    assert_eq!(quoted_value(&input, 9), Some((11, "".to_string())));
    assert_eq!(quoted_value(&input, 11), None);
    assert_eq!(value(&input, 0), Some((8, "a b,c)".to_string())));
    assert_eq!(value(&input, 8), Some((9, "x".to_string())));
    assert_eq!(value(&input, 11), None);
    assert_eq!(value(&input, 12), Some((16, "open".to_string())));
    assert_eq!(parse("a == \"\""), Ok(equals(&["a"], "")));
    assert_eq!(parse("a == \"x y\""), Ok(equals(&["a"], "x y")));
}

#[test]
fn blanks_are_spaces_and_tabs() {
    let input = Input::new(" \t \n x");
    assert_eq!(scan(&input, 0, CharClass::Blank), 3);
    assert_eq!(scan(&input, 3, CharClass::Blank), 3);
    assert_eq!(scan(&input, 4, CharClass::Blank), 5);
    assert_eq!(scan(&input, 6, CharClass::Blank), 6);
    assert_eq!(scan(&input, 0, CharClass::Quoted), 6);
    assert_eq!(scan(&input, 0, CharClass::Bare), 0);
    assert_eq!(parse("a \t ==\t \tb"), Ok(equals(&["a"], "b")));
    assert_eq!(parse("a==b"), Ok(equals(&["a"], "b")));
    assert_eq!(parse("a ==\nb"), no_match("a ==\nb"));
}

#[test]
fn words_and_characters_are_read_where_they_stand() {
    let input = Input::new("and(x)");
    assert_eq!(tag(&input, 0, "and("), Some(4));
    assert_eq!(tag(&input, 0, "and"), Some(3));
    assert_eq!(tag(&input, 0, "or("), None);
    assert_eq!(tag(&input, 1, "and("), None);
    assert_eq!(tag(&input, 3, "(x)"), Some(6));
    assert_eq!(tag(&input, 3, "(x))"), None);
    assert_eq!(tag(&input, 6, ""), None);
    assert!(is_char(&input, 3, '('));
    assert!(!is_char(&input, 2, '('));
    assert!(!is_char(&input, 6, ')'));
}

#[test]
fn commas_take_the_blanks_around_them() {
    let input = Input::new("a \t, \tb,c ,d");
    assert_eq!(comma(&input, 1), Some(6));
    assert_eq!(comma(&input, 3), Some(6));
    assert_eq!(comma(&input, 7), Some(8));
    assert_eq!(comma(&input, 9), Some(11));
    assert_eq!(comma(&input, 0), None);
    assert_eq!(comma(&input, 12), None);
}

#[test]
fn inequality_is_tried_before_equality() {
    let input = Input::new("a != b");
    assert_eq!(
        operation(&input, 0),
        Some((6, Exp::NotEquals(epath(&["a"]), "b".to_string())))
    );
    let other = Input::new("a.b==c");
    assert_eq!(operation(&other, 0), Some((6, equals(&["a", "b"], "c"))));
    assert_eq!(parse("a == !=b"), Ok(equals(&["a"], "!=b")));
    assert_eq!(
        parse("a != ==b"),
        Ok(Exp::NotEquals(epath(&["a"]), "==b".to_string()))
    );
}

#[test]
fn keywords_are_paths_where_no_bracket_follows() {
    assert_eq!(parse("or == x"), Ok(equals(&["or"], "x")));
    assert_eq!(parse("and.not == x"), Ok(equals(&["and", "not"], "x")));
    assert_eq!(parse("exists == x"), Ok(equals(&["exists"], "x")));
    assert_eq!(parse("contains_x == x"), Ok(equals(&["contains_x"], "x")));
    assert_eq!(parse("not(or == x)"), Ok(Exp::Not(Box::new(equals(&["or"], "x")))));
}

#[test]
fn each_form_is_read_by_its_rule() {
    let input = Input::new("or(a==b),and(a==b),not(a==b),contains(a,b),exists(a)");
    assert_eq!(or(&input, 0), Some((8, Exp::Or(vec![equals(&["a"], "b")]))));
    assert_eq!(and(&input, 9), Some((18, Exp::And(vec![equals(&["a"], "b")]))));
    assert_eq!(not(&input, 19), Some((28, Exp::Not(Box::new(equals(&["a"], "b"))))));
    assert_eq!(
        contains(&input, 29),
        Some((42, Exp::Contains(epath(&["a"]), "b".to_string())))
    );
    assert_eq!(path_exists(&input, 43), Some((52, Exp::Exists(epath(&["a"])))));
    assert_eq!(or(&input, 9), None);
    assert_eq!(and(&input, 0), None);
    assert_eq!(not(&input, 0), None);
    assert_eq!(contains(&input, 0), None);
    assert_eq!(path_exists(&input, 0), None);
    assert_eq!(exp(&input, 9), and(&input, 9));
    assert_eq!(exp(&input, 43), path_exists(&input, 43));
    assert_eq!(exp(&input, 3), Some((7, equals(&["a"], "b"))));
}

#[test]
fn operands_are_separated_by_commas() {
    let input = Input::new("a==1 , b==2,c==3 ,d)");
    assert_eq!(
        operands(&input, 0),
        Some((16, vec![equals(&["a"], "1"), equals(&["b"], "2"), equals(&["c"], "3")]))
    );
    assert_eq!(operands(&input, 18), None);
    assert_eq!(
        parse("and(a==1 , b==2,c==3)"),
        Ok(Exp::And(vec![equals(&["a"], "1"), equals(&["b"], "2"), equals(&["c"], "3")]))
    );
    assert_eq!(parse("or(a==1)"), Ok(Exp::Or(vec![equals(&["a"], "1")])));
    assert_eq!(parse("and( a==1)"), no_match("and( a==1)"));
    assert_eq!(parse("and(a==1 )"), no_match("and(a==1 )"));
}

#[test]
fn nested_expressions_are_read() {
    let source = "or(and(a.b == 1, not(exists(c))), contains(d.0, \"x, y\"), e != \"\")";
    let expected = Exp::Or(vec![
        Exp::And(vec![
            equals(&["a", "b"], "1"),
            Exp::Not(Box::new(Exp::Exists(epath(&["c"])))),
        ]),
        Exp::Contains(epath(&["d", "0"]), "x, y".to_string()),
        Exp::NotEquals(epath(&["e"]), "".to_string()),
    ]);
    assert_eq!(parse(source), Ok(expected));
}

#[test]
fn text_of_an_expression_reads_back() {
    let source = "or(and(a.b == 1, not(exists(c))), contains(d.0, \"x, y\"), e != \"\")";
    let first = parse(source).unwrap();
    let text = first.to_text();
    assert_eq!(
        text,
        "or(and(a.b==\"1\",not(exists(c))),contains(d.0,\"x, y\"),e!=\"\")"
    );
    assert_eq!(parse(&text), Ok(first));
    assert_eq!(parse(&text), parse(&text));
    assert_eq!(equals(&["or"], "and(").to_text(), "or==\"and(\"");
    assert_eq!(parse("or==\"and(\""), Ok(equals(&["or"], "and(")));
}

#[test]
fn values_may_hold_any_other_character() {
    assert_eq!(parse("a == \u{e9}t\u{e9}"), Ok(equals(&["a"], "\u{e9}t\u{e9}")));
    assert_eq!(parse("a == \"\u{1f600} (x)\""), Ok(equals(&["a"], "\u{1f600} (x)")));
    assert_eq!(parse("caf\u{e9} == x"), no_match("caf\u{e9} == x"));
    assert_eq!(parse("a == b\u{a0}"), Ok(equals(&["a"], "b\u{a0}")));
    assert_eq!(parse("\u{e9} == \"b\"x"), no_match("\u{e9} == \"b\"x"));
    assert_eq!(parse("a == \"\u{e9}\"x"), Err(SyntaxError {
        kind: SyntaxErrorKind::TrailingInput,
        position: 8,
        remainder: "x".to_string(),
    }));
}
