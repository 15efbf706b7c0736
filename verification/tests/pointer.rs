use jaxe::record::descend_to;
use jaxe::{eval, eval_exists, parse, EPath, Record};

fn record_of(value: &serde_json::Value) -> Record {
    match value {
        serde_json::Value::Null => Record::Null,
        serde_json::Value::Bool(b) => Record::Bool(*b),
        serde_json::Value::Number(n) => Record::Number(n.to_string()),
        serde_json::Value::String(s) => Record::Text(s.clone()),
        serde_json::Value::Array(items) => Record::Array(items.iter().map(record_of).collect()),
        serde_json::Value::Object(entries) => Record::Object(
            entries.iter().map(|(key, value)| (key.clone(), record_of(value))).collect(),
        ),
    }
}

fn documents() -> Vec<serde_json::Value> {
    [
        r#"{"a": {"b": [10, 20, {"c": null}], "0": "zero", "01": "padded"}, "n": -2.50, "t": true}"#,
        r#"[[1, 2], {"0": "x"}, "s", null, 1e3, 18446744073709551615, -7]"#,
        r#"{"": {"": 1}, "a-b": {"c_d": false}, "10": [0, 1, 2, 3, 4, 5, 6, 7, 8, 9, 10, 11]}"#,
        r#""scalar""#,
        r#"null"#,
        r#"{}"#,
        r#"[]"#,
    ]
    .iter()
    .map(|text| serde_json::from_str(text).unwrap())
    .collect()
}

fn paths() -> Vec<Vec<&'static str>> {
    vec![
        vec!["a"],
        vec!["a", "b"],
        vec!["a", "b", "0"],
        vec!["a", "b", "2"],
        vec!["a", "b", "2", "c"],
        vec!["a", "b", "2", "c", "d"],
        vec!["a", "b", "3"],
        vec!["a", "b", "00"],
        vec!["a", "b", "01"],
        vec!["a", "b", "-1"],
        vec!["a", "b", "x"],
        vec!["a", "0"],
        vec!["a", "01"],
        vec!["n"],
        vec!["t"],
        vec!["t", "0"],
        vec!["0"],
        vec!["0", "1"],
        vec!["1", "0"],
        vec!["2"],
        vec!["3"],
        vec!["4"],
        vec!["5"],
        vec!["6"],
        vec!["7"],
        vec!["10"],
        vec!["10", "10"],
        vec!["10", "11"],
        vec!["10", "12"],
        vec!["10", "010"],
        vec!["a-b", "c_d"],
        vec!["a-b", "c-d"],
        vec!["18446744073709551616"],
        vec!["99999999999999999999999999"],
    ]
}

#[test]
fn descent_resolves_as_a_json_pointer_does() {
    for document in documents() {
        let record = record_of(&document);
        for segments in paths() {
            let pointer = format!("/{}", segments.join("/"));
            let expected = document.pointer(&pointer).map(record_of);
            let path = EPath(segments.iter().map(|segment| segment.to_string()).collect());
            let found = descend_to(&path, &record);
            assert_eq!(found, expected.as_ref(), "{} in {}", pointer, document);
            assert_eq!(eval_exists(&path, &record), expected.is_some());
        }
    }
}

#[test]
fn numbers_are_compared_by_their_json_text() {
    let document: serde_json::Value =
        serde_json::from_str(r#"{"i": 1, "n": -7, "f": 2.5, "e": 1e3, "z": 0.10, "b": 18446744073709551615}"#)
            .unwrap();
    let record = record_of(&document);
    for (source, expected) in [
        ("i == 1", true),
        ("i == 1.0", false),
        ("i == 01", false),
        ("n == -7", true),
        ("f == 2.5", true),
        ("e == 1000.0", true),
        ("e == 1e3", false),
        ("z == 0.1", true),
        ("b == 18446744073709551615", true),
        ("contains(b, 5516)", true),
        ("contains(n, -)", true),
    ] {
        let m = parse(source).unwrap();
        assert_eq!(eval(&m, &record), expected, "{}", source);
    }
}
