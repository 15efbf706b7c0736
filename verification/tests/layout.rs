use jaxe::layout::{
    insert_sorted, layout, level_initial, level_to_color, lists, pick, read_number, show,
    shown_keys, Color, Layout, Mark, Shown, ShownField,
};
use jaxe::text::text_precedes;
use jaxe::Record;

fn record_of(value: &serde_json::Value) -> Record {
    match value {
        serde_json::Value::Null => Record::Null,
        serde_json::Value::Bool(b) => Record::Bool(*b),
        serde_json::Value::Number(n) => Record::Number(n.to_string()),
        serde_json::Value::String(s) => Record::Text(s.clone()),
        serde_json::Value::Array(items) => Record::Array(items.iter().map(record_of).collect()),
        serde_json::Value::Object(entries) => Record::Object(
            entries.iter().map(|(key, value)| (key.clone(), record_of(value))).collect(),
        ),
    }
}

fn json(text: &str) -> Record {
    let value: serde_json::Value = serde_json::from_str(text).unwrap();
    record_of(&value)
}

fn strings(texts: &[&str]) -> Vec<String> {
    texts.iter().map(|text| text.to_string()).collect()
}

fn field(key: &str, value: Shown) -> ShownField {
    ShownField { key: key.to_string(), value }
}

fn text(value: &str) -> Shown {
    Shown::Text(value.to_string())
}

#[test]
fn levels_have_their_colors() {
    assert_eq!(level_to_color("TRACE"), Color::Magenta);
    assert_eq!(level_to_color("DEBUG"), Color::Blue);
    assert_eq!(level_to_color("INFO"), Color::Green);
    assert_eq!(level_to_color("WARN"), Color::Yellow);
    assert_eq!(level_to_color("ERROR"), Color::Red);
    assert_eq!(level_to_color("FATAL"), Color::Red);
    assert_eq!(level_to_color("info"), Color::Red);
    assert_eq!(level_to_color("INFO "), Color::Red);
    assert_eq!(level_to_color(""), Color::Red);
}

#[test]
fn levels_are_marked_by_their_first_letter() {
    assert_eq!(level_initial("INFO"), 'I');
    assert_eq!(level_initial("w"), 'w');
    assert_eq!(level_initial(""), '?');
    assert_eq!(level_initial("\u{e9}t\u{e9}"), '\u{e9}');
}

#[test]
fn numbers_are_read_as_std_reads_them() {
    assert_eq!(read_number("0"), Some(0));
    assert_eq!(read_number("42"), Some(42));
    assert_eq!(read_number("+42"), Some(42));
    assert_eq!(read_number("007"), Some(7));
    assert_eq!(read_number("18446744073709551615"), Some(u64::MAX));
    assert_eq!(read_number("18446744073709551616"), None);
    assert_eq!(read_number("-1"), None);
    assert_eq!(read_number(""), None);
    assert_eq!(read_number("+"), None);
    assert_eq!(read_number("1 "), None);
    for text in [
        "0", "1", "10", "+0", "+1", "-0", "++1", "+-1", "1+", "00", "0000000000000000000000001",
        "18446744073709551615", "18446744073709551616", "18446744073709551614",
        "99999999999999999999", "28446744073709551615", "1844674407370955161", "1a", "a1", " 1",
        "1.0", "1e3", "0x10", "\u{661}", "１", "", "+", "-", "1_000",
    ] {
        assert_eq!(read_number(text), text.parse::<u64>().ok(), "{:?}", text);
    }
}

#[test]
fn values_are_shown_by_what_they_are() {
    assert_eq!(show(&Record::Text("12".to_string())), Shown::Number(12));
    assert_eq!(show(&Record::Text("+12".to_string())), Shown::Number(12));
    assert_eq!(show(&Record::Text("12a".to_string())), text("12a"));
    assert_eq!(show(&Record::Text("".to_string())), text(""));
    assert_eq!(show(&Record::Number("12".to_string())), Shown::Other);
    assert_eq!(show(&Record::Bool(true)), Shown::Other);
    assert_eq!(show(&Record::Null), Shown::Other);
    assert_eq!(show(&Record::Array(vec![])), Shown::Other);
    assert_eq!(show(&Record::Object(vec![])), Shown::Other);
}

#[test]
fn texts_are_ordered_as_in_a_dictionary() {
    assert!(text_precedes("a", "b"));
    assert!(text_precedes("", "a"));
    assert!(text_precedes("a", "aa"));
    assert!(text_precedes("B", "a"));
    assert!(text_precedes("a1", "a2"));
    assert!(!text_precedes("a", "a"));
    assert!(!text_precedes("", ""));
    assert!(!text_precedes("b", "a"));
    assert!(!text_precedes("aa", "a"));
    let samples = ["", "a", "A", "aa", "ab", "b", "z", "\u{e9}", "\u{1f600}", "\u{ffff}", "~", "0"];
    for a in samples {
        for b in samples {
            assert_eq!(text_precedes(a, b), a.to_string() < b.to_string(), "{:?} {:?}", a, b);
        }
    }
}

#[test]
fn keys_are_kept_in_order_and_once() {
    let mut keys: Vec<String> = vec![];
    for key in ["m", "b", "z", "a", "m", "b", "ma", ""] {
        insert_sorted(&mut keys, key.to_string());
    }
    assert_eq!(keys, strings(&["", "a", "b", "m", "ma", "z"]));
    assert!(lists(&keys, "ma"));
    assert!(!lists(&keys, "mb"));
    assert!(!lists(&vec![], ""));
}

#[test]
fn first_key_with_a_text_is_picked() {
    let record = json(r#"{"lvl": 3, "level": "INFO", "severity": "WARN", "omitted": "ERROR"}"#);
    let entries = match &record {
        Record::Object(entries) => entries,
        _ => unreachable!(),
    };
    let none: Vec<String> = vec![];
    let keys = strings(&["missing", "lvl", "omitted", "severity", "level"]);
    assert_eq!(pick(&keys, entries, &strings(&["omitted"]), &none), Some((3, "WARN")));
    assert_eq!(pick(&keys, entries, &none, &none), Some((2, "ERROR")));
    assert_eq!(
        pick(&keys, entries, &strings(&["omitted"]), &strings(&["severity"])),
        Some((4, "INFO"))
    );
    assert_eq!(pick(&strings(&["lvl", "missing"]), entries, &none, &none), None);
    assert_eq!(pick(&none, entries, &none, &none), None);
}

#[test]
fn shown_keys_are_those_not_hidden_in_order() {
    let record = json(r#"{"z": 1, "a": 2, "m": 3, "k": 4}"#);
    let entries = match &record {
        Record::Object(entries) => entries,
        _ => unreachable!(),
    };
    let none: Vec<String> = vec![];
    assert_eq!(shown_keys(entries, &none, &none, &none), strings(&["a", "k", "m", "z"]));
    assert_eq!(
        shown_keys(entries, &strings(&["m"]), &strings(&["z"]), &none),
        strings(&["a", "k"])
    );
    assert_eq!(
        shown_keys(entries, &strings(&["m"]), &none, &strings(&["z", "m", "q", "a"])),
        strings(&["a", "z"])
    );
    assert_eq!(shown_keys(entries, &none, &none, &strings(&["q"])), none);
}

#[test]
fn line_is_laid_out() {
    let record = json(
        r#"{"msg": "started", "level": "INFO", "time": "12:00", "at": "13:00", "port": "8080",
            "pid": 17, "tags": ["a"], "plus": "+7", "pad": "007", "neg": "-1", "nil": null,
            "big": "18446744073709551616", "Zed": "z"}"#,
    );
    let plan = layout(
        &record,
        &strings(&["pid"]),
        &strings(&["level"]),
        &strings(&["time", "at"]),
        &vec![],
    );
    assert_eq!(
        plan,
        Some(Layout {
            level: Some(Mark { color: Color::Green, letter: 'I' }),
            time: Some("12:00".to_string()),
            fields: vec![
                field("Zed", text("z")),
                field("at", text("13:00")),
                field("big", text("18446744073709551616")),
                field("msg", text("started")),
                field("neg", text("-1")),
                field("nil", Shown::Other),
                field("pad", Shown::Number(7)),
                field("plus", Shown::Number(7)),
                field("port", Shown::Number(8080)),
                field("tags", Shown::Other),
            ],
        })
    );
}

#[test]
fn level_and_time_need_a_text() {
    let record = json(r#"{"level": 3, "severity": "", "time": null, "at": "now", "msg": "m"}"#);
    let plan = layout(
        &record,
        &vec![],
        &strings(&["level", "severity"]),
        &strings(&["time", "at"]),
        &vec![],
    );
    assert_eq!(
        plan,
        Some(Layout {
            level: Some(Mark { color: Color::Red, letter: '?' }),
            time: Some("now".to_string()),
            fields: vec![
                field("level", Shown::Other),
                field("msg", text("m")),
                field("time", Shown::Other),
            ],
        })
    );
}

#[test]
fn omitted_keys_are_neither_level_nor_time() {
    let record = json(r#"{"level": "WARN", "time": "t", "msg": "m"}"#);
    let plan = layout(
        &record,
        &strings(&["level", "time"]),
        &strings(&["level"]),
        &strings(&["time"]),
        &vec![],
    );
    assert_eq!(plan, Some(Layout { level: None, time: None, fields: vec![field("msg", text("m"))] }));
}

#[test]
fn level_key_is_not_the_time() {
    let record = json(r#"{"stamp": "DEBUG", "msg": "m"}"#);
    let plan = layout(&record, &vec![], &strings(&["stamp"]), &strings(&["stamp"]), &vec![]);
    assert_eq!(
        plan,
        Some(Layout {
            level: Some(Mark { color: Color::Blue, letter: 'D' }),
            time: None,
            fields: vec![field("msg", text("m"))],
        })
    );
}

#[test]
fn extracted_keys_alone_are_shown() {
    let record = json(r#"{"level": "TRACE", "a": "1", "b": "x", "c": true}"#);
    let plan = layout(
        &record,
        &vec![],
        &strings(&["level"]),
        &strings(&["time"]),
        &strings(&["c", "a", "level", "nope"]),
    );
    assert_eq!(
        plan,
        Some(Layout {
            level: Some(Mark { color: Color::Magenta, letter: 'T' }),
            time: None,
            fields: vec![field("a", Shown::Number(1)), field("c", Shown::Other)],
        })
    );
}

#[test]
fn only_an_object_is_laid_out() {
    let none: Vec<String> = vec![];
    for text in ["1", "\"x\"", "null", "true", "[1, 2]"] {
        assert_eq!(layout(&json(text), &none, &none, &none, &none), None);
    }
    assert_eq!(
        layout(&json("{}"), &none, &none, &none, &none),
        Some(Layout { level: None, time: None, fields: vec![] })
    );
}

#[test]
fn first_of_two_fields_with_one_key_is_shown() {
    let record = Record::Object(vec![
        ("k".to_string(), Record::Text("1".to_string())),
        ("k".to_string(), Record::Text("x".to_string())),
    ]);
    let none: Vec<String> = vec![];
    assert_eq!(
        layout(&record, &none, &none, &none, &none),
        Some(Layout { level: None, time: None, fields: vec![field("k", Shown::Number(1))] })
    );
}
