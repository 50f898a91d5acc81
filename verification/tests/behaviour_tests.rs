use agent_replay_trace::{is_blank_line, read_line, JsonValue, JsonlLine, JsonlLoader, Replay, ReplayError};

fn s(x: &str) -> JsonValue {
    JsonValue::string(x)
}

fn num(text: &str) -> JsonValue {
    JsonValue::Number(text.to_string())
}

fn obj(pairs: Vec<(&str, JsonValue)>) -> JsonValue {
    JsonValue::Object(pairs.into_iter().map(|(k, v)| (k.to_string(), v)).collect())
}

fn from_serde(v: &serde_json::Value) -> JsonValue {
    match v {
        serde_json::Value::Null => JsonValue::Null,
        serde_json::Value::Bool(b) => JsonValue::Bool(*b),
        serde_json::Value::Number(n) => JsonValue::Number(n.to_string()),
        serde_json::Value::String(t) => JsonValue::Str(t.clone()),
        serde_json::Value::Array(a) => JsonValue::Array(a.iter().map(from_serde).collect()),
        serde_json::Value::Object(m) => {
            JsonValue::Object(m.iter().map(|(k, x)| (k.clone(), from_serde(x))).collect())
        }
    }
}

fn sample() -> Replay {
    Replay::new(vec![
        obj(vec![("kind", s("tool_called")), ("ts", num("1.0")), ("tool_name", s("search"))]),
        obj(vec![("kind", s("tool_returned")), ("ts", num("1.5")), ("tool_name", s("search"))]),
        obj(vec![("kind", s("tool_called")), ("ts", num("2.0")), ("tool_name", s("read"))]),
        obj(vec![("kind", s("errored")), ("ts", num("2.5")), ("error", s("timeout"))]),
    ])
}

#[test]
fn string_text_is_escaped_like_serde_json() {
    let raw = "a\"b\\c\n\t\u{1}\u{7f}é/";
    let expected = serde_json::to_string(raw).unwrap();
    assert_eq!(s(raw).to_json_text(), expected);
    assert_eq!(s("a\"b").to_json_text(), "\"a\\\"b\"");
    assert_eq!(s("\u{1f}").to_json_text(), "\"\\u001f\"");
}

#[test]
fn value_text_matches_serde_json_compact_form() {
    let text = r#"{"a":[1,2.5,null,true,{"b":"x\ny"}],"c":-3,"d":false}"#;
    let v: serde_json::Value = serde_json::from_str(text).unwrap();
    assert_eq!(from_serde(&v).to_json_text(), v.to_string());
    assert_eq!(JsonValue::Array(vec![]).to_json_text(), "[]");
    assert_eq!(JsonValue::Object(vec![]).to_json_text(), "{}");
}

#[test]
fn float_zero_text_by_sign() {
    // The model of numbers relies on serde_json printing the two zeros so.
    assert_eq!(serde_json::Number::from_f64(0.0).unwrap().to_string(), "0.0");
    assert_eq!(serde_json::Number::from_f64(-0.0).unwrap().to_string(), "-0.0");
    assert_eq!(num("0.0"), num("-0.0"));
    assert_ne!(num("1"), num("1.0"));
}

#[test]
fn equality_of_objects_ignores_member_order() {
    let a = obj(vec![("x", num("1")), ("y", s("z"))]);
    let b = obj(vec![("y", s("z")), ("x", num("1"))]);
    let c = obj(vec![("y", s("z")), ("x", num("2"))]);
    assert_eq!(a, b);
    assert_ne!(a, c);
    assert_ne!(a, obj(vec![("x", num("1"))]));
    assert_eq!(
        JsonValue::Array(vec![num("1"), s("a")]),
        JsonValue::Array(vec![num("1"), s("a")])
    );
    assert_ne!(JsonValue::Array(vec![num("1")]), JsonValue::Array(vec![s("1")]));
    assert_ne!(JsonValue::Null, JsonValue::Bool(false));
}

#[test]
fn get_on_non_objects_is_none() {
    assert!(JsonValue::Array(vec![s("kind")]).get("kind").is_none());
    assert!(s("kind").get("kind").is_none());
    assert!(obj(vec![("a", num("1"))]).get("b").is_none());
    assert!(obj(vec![("a", num("1"))]).is_object());
    assert!(!JsonValue::Null.is_object());
}

#[test]
fn by_kind_labels_non_strings_by_their_text() {
    let r = Replay::new(vec![
        obj(vec![("kind", num("1"))]),
        obj(vec![("kind", JsonValue::Bool(true))]),
        obj(vec![("kind", obj(vec![("q", s("\"x\""))]))]),
        obj(vec![("kind", JsonValue::Null)]),
        obj(vec![("kind", s("1"))]),
        JsonValue::Array(vec![]),
    ]);
    let counts = r.by_kind("kind");
    assert_eq!(counts.get("1"), Some(2));
    assert_eq!(counts.get("true"), Some(1));
    assert_eq!(counts.get("{\"q\":\"\\\"x\\\"\"}"), Some(1));
    assert_eq!(counts.get("null"), Some(1));
    assert_eq!(counts.get("<no-kind>"), Some(1));
    assert_eq!(counts.len(), 5);
    let total: usize = counts.entries().iter().map(|e| e.1).sum();
    assert_eq!(total, r.len());
}

#[test]
fn by_kind_counts_add_up_to_len() {
    let r = sample();
    let counts = r.by_kind("tool_name");
    let labels: Vec<_> = counts.entries().iter().map(|e| e.0.clone()).collect();
    assert_eq!(labels, vec!["search", "read", "<no-kind>"]);
    let total: usize = counts.entries().iter().map(|e| e.1).sum();
    assert_eq!(total, 4);
    assert_eq!(counts.get("write"), None);
}

#[test]
fn slice_clamps_its_bounds() {
    let r = sample();
    assert_eq!(r.slice(2, 99).len(), 2);
    assert_eq!(r.slice(3, 1).len(), 0);
    assert_eq!(r.slice(9, 12).len(), 0);
    assert_eq!(r.slice(0, 4).len(), 4);
    assert_eq!(r.slice(1, 2).get(0).unwrap().get("kind").unwrap(), &s("tool_returned"));
}

#[test]
fn filter_eq_skips_non_objects_and_keeps_order() {
    let r = Replay::new(vec![
        s("kind"),
        obj(vec![("kind", s("a")), ("n", num("1"))]),
        obj(vec![("kind", s("b"))]),
        obj(vec![("kind", s("a")), ("n", num("2"))]),
    ]);
    let hits = r.filter_eq(&[("kind", s("a"))]);
    assert_eq!(hits.len(), 2);
    assert_eq!(hits.get(0).unwrap().get("n").unwrap(), &num("1"));
    assert_eq!(hits.get(1).unwrap().get("n").unwrap(), &num("2"));
    // No pairs at all: every object matches, nothing else does.
    assert_eq!(r.count_eq(&[]), 3);
    // Filtering again by the same pairs changes nothing.
    assert_eq!(hits.filter_eq(&[("kind", s("a"))]).len(), 2);
}

#[test]
fn first_and_last_match_ends_of_filter() {
    let r = sample();
    let f = [("kind", s("tool_called"))];
    let filtered = r.filter_eq(&f);
    assert_eq!(r.first_eq(&f).unwrap(), filtered.get(0).unwrap());
    assert_eq!(r.last_eq(&f).unwrap(), filtered.get(filtered.len() - 1).unwrap());
    assert_eq!(r.index_of(&f), Some(0));
    assert_eq!(r.index_of(&[("kind", s("nope"))]), None);
    assert!(r.last_eq(&[("kind", s("nope"))]).is_none());
}

#[test]
fn pluck_and_distinct() {
    let r = Replay::new(vec![
        obj(vec![("t", s("b"))]),
        obj(vec![("u", s("x"))]),
        obj(vec![("t", num("10"))]),
        obj(vec![("t", s("a"))]),
        obj(vec![("t", s("b"))]),
        obj(vec![("t", obj(vec![("p", num("1")), ("q", num("2"))]))]),
        obj(vec![("t", obj(vec![("q", num("2")), ("p", num("1"))]))]),
        obj(vec![("t", num("-0.0"))]),
        obj(vec![("t", num("0.0"))]),
    ]);
    let plucked = r.pluck("t");
    assert_eq!(plucked.len(), 8);
    assert_eq!(plucked[0], s("b"));
    let d = r.distinct("t");
    let texts: Vec<String> = d.iter().map(|v| v.to_json_text()).collect();
    assert_eq!(texts, vec!["\"a\"", "\"b\"", "-0.0", "10", "{\"p\":1,\"q\":2}"]);
    assert!(r.distinct("missing").is_empty());
}

#[test]
fn numbers_at_collects_number_texts() {
    let r = Replay::new(vec![
        obj(vec![("ts", num("1.0"))]),
        obj(vec![("ts", s("2.0"))]),
        obj(vec![("kind", s("x"))]),
        obj(vec![("ts", num("5"))]),
    ]);
    assert_eq!(r.numbers_at("ts"), vec!["1.0".to_string(), "5".to_string()]);
    assert!(r.numbers_at("nope").is_empty());
}

#[test]
fn debugger_walks_and_steps_back() {
    let r = sample();
    let mut d = r.debugger();
    assert!(d.next().is_some());
    assert!(d.next().is_some());
    assert_eq!(d.position(), 1);
    // A step back undoes a step forward.
    assert!(d.prev().is_some());
    assert_eq!(d.position(), 0);
    assert!(d.next().is_some());
    assert_eq!(d.position(), 1);
    // Past the end the cursor stays past the end.
    d.seek(3);
    assert!(d.next().is_none());
    assert_eq!(d.position(), 4);
    assert!(d.next().is_none());
    assert_eq!(d.position(), 4);
    assert!(d.current().is_none());
    assert!(d.peek(0).is_empty());
    assert!(d.peek(3).is_empty());
    assert!(d.peek(usize::MAX).is_empty());
    // A step back from past the end reaches the last event.
    assert_eq!(d.prev().unwrap().get("kind").unwrap(), &s("errored"));
    assert_eq!(d.position(), 3);
}

#[test]
fn debugger_seek_and_peek() {
    let r = sample();
    let mut d = r.debugger();
    assert_eq!(d.seek(2).unwrap().get("tool_name").unwrap(), &s("read"));
    assert_eq!(d.current().unwrap().get("tool_name").unwrap(), &s("read"));
    let ahead = d.peek(10);
    assert_eq!(ahead.len(), 1);
    assert_eq!(d.position(), 2);
    assert!(d.seek(7).is_none());
    assert_eq!(d.position(), 4);
    d.reset();
    assert_eq!(d.peek(usize::MAX).len(), 4);
}

#[test]
fn debugger_find_starts_after_cursor() {
    let r = sample();
    let mut d = r.debugger();
    d.next();
    let ev = d.find(|e| e.get("kind") == Some(&s("tool_called"))).unwrap();
    assert_eq!(ev.get("tool_name").unwrap(), &s("read"));
    assert_eq!(d.position(), 2);
    assert!(d.find(|e| e.get("kind") == Some(&s("tool_called"))).is_none());
    assert_eq!(d.position(), 4);
}

#[test]
fn debugger_collect_rest_from_cursor() {
    let r = sample();
    let mut d = r.debugger();
    d.next();
    let rest = d.collect_rest();
    assert_eq!(rest.len(), 3);
    assert_eq!(d.position(), 4);
    assert!(d.collect_rest().is_empty());
}

#[test]
fn blank_lines_are_white_space_only() {
    assert!(is_blank_line(""));
    assert!(is_blank_line("  \t\r"));
    assert!(is_blank_line("\u{3000}\u{a0}\u{2028}"));
    assert!(!is_blank_line(" x "));
    assert!(!is_blank_line("\u{200b}"));
    for c in ['\t', '\n', ' ', '\u{85}', '\u{a0}', '\u{1680}', '\u{2000}', '\u{200a}', '\u{202f}', '\u{205f}', '\u{3000}', 'a', '\u{200b}', '\u{feff}'] {
        let line = c.to_string();
        assert_eq!(is_blank_line(&line), line.trim().is_empty());
    }
}

#[test]
fn loader_numbers_lines_including_blank_ones() {
    let mut loader = JsonlLoader::new();
    assert!(loader.feed(JsonlLine::Blank).is_ok());
    assert!(loader.feed(JsonlLine::Parsed(obj(vec![("kind", s("a"))]))).is_ok());
    assert!(loader.feed(JsonlLine::Blank).is_ok());
    match loader.feed(JsonlLine::Parsed(num("3"))) {
        Err(ReplayError::Decode { line, message }) => {
            assert_eq!(line, 4);
            assert_eq!(message, "not a JSON object");
        }
        other => panic!("unexpected {other:?}"),
    }
    let r = loader.finish();
    assert_eq!(r.len(), 1);
}

#[test]
fn load_reports_first_bad_line_with_message() {
    let lines = vec![
        JsonlLine::Parsed(obj(vec![])),
        JsonlLine::Blank,
        JsonlLine::Malformed("expected value".to_string()),
        JsonlLine::Parsed(s("late")),
    ];
    match Replay::from_jsonl_lines(lines) {
        Err(ReplayError::Decode { line, message }) => {
            assert_eq!(line, 3);
            assert_eq!(message, "expected value");
        }
        other => panic!("unexpected {other:?}"),
    }
    let ok = Replay::from_jsonl_lines(vec![JsonlLine::Blank, JsonlLine::Blank]).unwrap();
    assert!(ok.is_empty());
}

#[test]
fn io_errors_convert_into_replay_errors() {
    let e = std::io::Error::new(std::io::ErrorKind::Other, "gone");
    let r: ReplayError = e.into();
    assert!(matches!(r, ReplayError::Io(_)));
}

#[test]
fn clones_are_equal() {
    let r = sample();
    let c = r.clone();
    assert_eq!(c.events(), r.events());
    let v = obj(vec![("a", JsonValue::Array(vec![num("1"), JsonValue::Null]))]);
    assert_eq!(v.clone(), v);
    assert_eq!(v.duplicate(), v);
}

#[test]
fn equality_is_reflexive_symmetric_transitive_on_read_values() {
    let a = obj(vec![("x", num("-0.0")), ("y", JsonValue::Array(vec![s("p")]))]);
    let b = obj(vec![("y", JsonValue::Array(vec![s("p")])), ("x", num("0.0"))]);
    let c = obj(vec![("x", num("0.0")), ("y", JsonValue::Array(vec![s("p")]))]);
    assert_eq!(a, a);
    assert_eq!(a, b);
    assert_eq!(b, a);
    assert_eq!(b, c);
    assert_eq!(a, c);
}

#[test]
fn read_line_parses_with_serde_json() {
    assert!(matches!(read_line(" \t"), JsonlLine::Blank));
    match read_line("{\"b\":[1,2.5],\"a\":\"x\"}") {
        JsonlLine::Parsed(v) => {
            assert_eq!(v.get("a").unwrap(), &s("x"));
            assert_eq!(v.get("b").unwrap(), &JsonValue::Array(vec![num("1"), num("2.5")]));
            assert_eq!(v.to_json_text(), "{\"a\":\"x\",\"b\":[1,2.5]}");
        }
        other => panic!("unexpected {other:?}"),
    }
    match read_line("{\"a\":1,\"a\":2}") {
        JsonlLine::Parsed(JsonValue::Object(members)) => {
            assert_eq!(members.len(), 1);
            assert_eq!(members[0].1, num("2"));
        }
        other => panic!("unexpected {other:?}"),
    }
    let expected = serde_json::from_str::<serde_json::Value>("[1").unwrap_err().to_string();
    match read_line("[1") {
        JsonlLine::Malformed(m) => assert_eq!(m, expected),
        other => panic!("unexpected {other:?}"),
    }
}

#[test]
fn feed_text_numbers_lines_and_rejects_non_objects() {
    let mut loader = JsonlLoader::new();
    assert!(loader.feed_text("{\"kind\":\"a\"}").is_ok());
    assert!(loader.feed_text("   ").is_ok());
    match loader.feed_text("\"just a string\"") {
        Err(ReplayError::Decode { line, message }) => {
            assert_eq!(line, 3);
            assert_eq!(message, "not a JSON object");
        }
        other => panic!("unexpected {other:?}"),
    }
    assert_eq!(loader.lines_read(), 3);
    assert_eq!(loader.finish().len(), 1);
}

#[test]
fn peek_past_the_end_is_empty() {
    let r = Replay::new(vec![obj(vec![("k", num("1"))])]);
    let mut d = r.debugger();
    assert!(d.next().is_some());
    assert!(d.next().is_none());
    assert_eq!(d.position(), 1);
    assert!(d.peek(5).is_empty());
    assert_eq!(d.position(), 1);
    let mut e = sample().debugger();
    e.next();
    assert_eq!(e.peek(usize::MAX).len(), 3);
    assert_eq!(e.position(), 0);
}

#[test]
fn errors_are_shown_as_text() {
    let e = ReplayError::Decode { line: 12, message: "expected value".to_string() };
    assert_eq!(e.display_text(), "decode error at line 12: expected value");
    let io = ReplayError::Io(std::io::Error::new(std::io::ErrorKind::Other, "gone"));
    assert_eq!(io.display_text(), "IO error: gone");
    assert_eq!(agent_replay_trace::error::decimal_text(0), "0");
    assert_eq!(agent_replay_trace::error::decimal_text(9), "9");
    assert_eq!(agent_replay_trace::error::decimal_text(10), "10");
    assert_eq!(agent_replay_trace::error::decimal_text(usize::MAX), usize::MAX.to_string());
}
