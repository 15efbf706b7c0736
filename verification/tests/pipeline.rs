use jaxe::cli::{split_list, MultOpt};
use jaxe::filters::{jq_accepts, FilterError, Filters};
use jaxe::grammar::SyntaxErrorKind;
use jaxe::text::{chars_of, contains_chars, contains_text, same_text};
use jaxe::{parse, Exp, Record, SyntaxError};

fn record() -> Record {
    Record::Object(vec![
        ("level".to_string(), Record::Text("INFO".to_string())),
        ("code".to_string(), Record::Number("200".to_string())),
    ])
}

fn sources(texts: &[&str]) -> Vec<String> {
    texts.iter().map(|text| text.to_string()).collect()
}

#[test]
fn empty_pipeline_accepts_every_record() {
    let filters = Filters::from_opts(&vec![]).unwrap();
    assert_eq!(filters, Filters(vec![]));
    assert!(filters.apply(&record()));
    assert!(filters.apply(&Record::Null));
    assert_eq!(filters.rejected_by(&record()), None);
}

#[test]
fn pipeline_holds_each_filter_in_order() {
    let filters = Filters::from_opts(&sources(&["level == INFO", "exists(code)"])).unwrap();
    assert_eq!(
        filters,
        Filters(vec![parse("level == INFO").unwrap(), parse("exists(code)").unwrap()])
    );
}

#[test]
fn pipeline_accepts_where_every_filter_does() {
    let all = Filters::from_opts(&sources(&["level == INFO", "code != 500", "exists(code)"]))
        .unwrap();
    assert!(all.apply(&record()));
    assert_eq!(all.rejected_by(&record()), None);

    let second = Filters::from_opts(&sources(&["level == INFO", "code == 500", "exists(x)"]))
        .unwrap();
    assert!(!second.apply(&record()));
    assert_eq!(second.rejected_by(&record()), Some(1));

    let last = Filters::from_opts(&sources(&["level == INFO", "code == 200", "exists(x)"]))
        .unwrap();
    assert!(!last.apply(&record()));
    assert_eq!(last.rejected_by(&record()), Some(2));
}

#[test]
fn first_bad_source_stops_the_pipeline() {
    let failure = Filters::from_opts(&sources(&["level == INFO", "oops(", "also bad", "a == b"]));
    assert_eq!(
        failure,
        Err(FilterError {
            index: 1,
            error: SyntaxError {
                kind: SyntaxErrorKind::NoMatch,
                position: 0,
                remainder: "oops(".to_string(),
            },
        })
    );
    let trailing = Filters::from_opts(&sources(&["a == b c"]));
    assert_eq!(
        trailing,
        Err(FilterError {
            index: 0,
            error: SyntaxError {
                kind: SyntaxErrorKind::TrailingInput,
                position: 6,
                remainder: " c".to_string(),
            },
        })
    );
}

#[test]
fn filters_are_added_behind_those_there() {
    let mut filters: Vec<Exp> = vec![parse("exists(a)").unwrap()];
    let added = Filters::add_filters(&sources(&["b == 1", "c == 2"]), &mut filters);
    assert_eq!(added, Ok(()));
    assert_eq!(
        filters,
        vec![
            parse("exists(a)").unwrap(),
            parse("b == 1").unwrap(),
            parse("c == 2").unwrap()
        ]
    );
    let failed = Filters::add_filters(&sources(&["d == 3", "", "e == 4"]), &mut filters);
    assert_eq!(failed.unwrap_err().index, 1);
    assert_eq!(filters.len(), 4);
    assert_eq!(filters[3], parse("d == 3").unwrap());
}

#[test]
fn query_output_rejects_when_empty_null_or_false() {
    assert!(!jq_accepts(""));
    assert!(!jq_accepts("null\n"));
    assert!(!jq_accepts("false\n"));
    assert!(jq_accepts("true\n"));
    assert!(jq_accepts("null"));
    assert!(jq_accepts("false"));
    assert!(jq_accepts("\n"));
    assert!(jq_accepts("{}\n"));
    assert!(jq_accepts("null\nnull\n"));
    assert!(jq_accepts("0\n"));
}

#[test]
fn lists_are_split_at_commas() {
    assert_eq!(split_list("a,b"), vec!["a", "b"]);
    assert_eq!(split_list("a"), vec!["a"]);
    assert_eq!(split_list(""), vec![""]);
    assert_eq!(split_list(","), vec!["", ""]);
    assert_eq!(split_list("a,,b,"), vec!["a", "", "b", ""]);
    assert_eq!(split_list(" a , b "), vec![" a ", " b "]);
    assert_eq!(split_list("\u{e9},\u{1f600}x"), vec!["\u{e9}", "\u{1f600}x"]);
    assert_eq!(split_list("[]"), vec!["[]"]);
    for text in ["a,b", "", ",", "a,,b,", "x", ",x,"] {
        let expected: Vec<&str> = text.split(",").collect();
        assert_eq!(split_list(text), expected);
    }
}

#[test]
fn list_option_is_empty_when_written_as_brackets() {
    assert_eq!(MultOpt::from_text("[]"), MultOpt(vec![]));
    assert_eq!(MultOpt::from_text("[]"), MultOpt::<String>::default());
    assert_eq!(MultOpt::from_text("a,b"), MultOpt(vec!["a".to_string(), "b".to_string()]));
    assert_eq!(MultOpt::from_text(""), MultOpt(vec!["".to_string()]));
    assert_eq!(MultOpt::from_text("[],x"), MultOpt(vec!["[]".to_string(), "x".to_string()]));
    assert_eq!(MultOpt::from_text("[ ]"), MultOpt(vec!["[ ]".to_string()]));
}

#[test]
fn texts_are_compared_character_by_character() {
    assert!(same_text("", ""));
    assert!(same_text("abc", "abc"));
    assert!(!same_text("abc", "abd"));
    assert!(!same_text("abc", "ab"));
    assert!(!same_text("ab", "abc"));
    assert!(!same_text("", "a"));
    assert!(same_text("\u{e9}\u{1f600}", "\u{e9}\u{1f600}"));
    assert!(!same_text("\u{e9}", "e"));
    assert_eq!(chars_of("a\u{e9}b"), vec!['a', '\u{e9}', 'b']);
    assert_eq!(chars_of(""), Vec::<char>::new());
}

#[test]
fn substrings_are_found_anywhere() {
    assert!(contains_text("myval1.something-else", "myval1.something-el"));
    assert!(contains_text("abc", ""));
    assert!(contains_text("", ""));
    assert!(contains_text("abc", "a"));
    assert!(contains_text("abc", "c"));
    assert!(contains_text("abc", "abc"));
    assert!(contains_text("aab", "ab"));
    assert!(!contains_text("abc", "abcd"));
    assert!(!contains_text("abc", "ac"));
    assert!(!contains_text("", "a"));
    assert!(!contains_text("abc", "B"));
    assert!(contains_text("x\u{e9}y", "\u{e9}"));
    assert!(contains_chars(&vec!['a', 'b'], &vec!['b']));
    assert!(!contains_chars(&vec!['a', 'b'], &vec!['b', 'a']));
    for (hay, needle) in [("1111", "11"), ("1111", "2"), ("true", "ru"), ("abcabd", "abd")] {
        assert_eq!(contains_text(hay, needle), hay.contains(needle));
    }
}
