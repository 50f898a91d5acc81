//! The public API driven the way a consumer would: a JSONL trace read line
//! by line, then analysed and stepped through.

use agent_replay_trace::{JsonValue, JsonlLoader, Replay, ReplayError};

/// Load a JSONL text line by line, as `from_jsonl` loads a file.
fn load(contents: &str) -> Result<Replay, ReplayError> {
    let mut loader = JsonlLoader::new();
    for line in contents.lines() {
        loader.feed_text(line)?;
    }
    Ok(loader.finish())
}

/// `max(ts) - min(ts)` over the numbers at `ts_key`.
fn span(trace: &Replay, ts_key: &str) -> Option<f64> {
    let mut vals: Vec<f64> = trace
        .numbers_at(ts_key)
        .iter()
        .map(|t| t.parse::<f64>().unwrap())
        .collect();
    if vals.is_empty() {
        return None;
    }
    vals.sort_by(|a, b| a.partial_cmp(b).unwrap());
    Some(vals[vals.len() - 1] - vals[0])
}

const TRACE: &str = r#"{"kind": "tool_called", "ts": 1.0, "tool_name": "search"}

{"kind": "tool_returned", "ts": 1.5, "tool_name": "search"}
{"kind": "tool_called", "ts": 2.0, "tool_name": "read"}
{"kind": "tool_returned", "ts": 2.4, "tool_name": "read"}
{"kind": "errored", "ts": 3.0, "error": "timeout"}
"#;

#[test]
fn load_and_analyze_full_trace() {
    let trace = load(TRACE).expect("trace should load");

    // Blank line is skipped, five real events remain.
    assert_eq!(trace.len(), 5);

    let counts = trace.by_kind("kind");
    assert_eq!(counts.get("tool_called").unwrap(), 2);
    assert_eq!(counts.get("tool_returned").unwrap(), 2);
    assert_eq!(counts.get("errored").unwrap(), 1);

    // Wall-clock span of the whole trace.
    let span = span(&trace, "ts").expect("has timestamps");
    assert!((span - 2.0).abs() < 1e-9, "span was {span}");

    // Distinct tools used, in stable sorted order.
    assert_eq!(
        trace.distinct("tool_name"),
        vec![JsonValue::string("read"), JsonValue::string("search")]
    );

    // The first error is locatable both by event and by index.
    assert_eq!(trace.index_of(&[("kind", JsonValue::string("errored"))]), Some(4));
    let err = trace.first_eq(&[("kind", JsonValue::string("errored"))]).unwrap();
    assert_eq!(err.get("error").unwrap(), &JsonValue::string("timeout"));
}

#[test]
fn filter_then_pluck_columns() {
    let trace = load(TRACE).expect("trace should load");

    let calls = trace.filter_eq(&[("kind", JsonValue::string("tool_called"))]);
    assert_eq!(calls.len(), 2);

    let names: Vec<_> = calls
        .pluck("tool_name")
        .into_iter()
        .map(|v| v.as_str().unwrap().to_owned())
        .collect();
    assert_eq!(names, vec!["search", "read"]);
}

#[test]
fn step_through_with_debugger() {
    let trace = load(TRACE).expect("trace should load");

    let mut dbg = trace.debugger();
    assert_eq!(dbg.position(), -1);

    // Walk to the first event.
    let first = dbg.next().unwrap();
    assert_eq!(first.get("tool_name").unwrap(), &JsonValue::string("search"));

    // Jump straight to the error and confirm we can read it.
    let err_idx = trace.index_of(&[("kind", JsonValue::string("errored"))]).unwrap();
    let err = dbg.seek(err_idx).unwrap();
    assert_eq!(err.get("error").unwrap(), &JsonValue::string("timeout"));
    assert_eq!(dbg.position(), err_idx as i64);

    // Past the last event, next() yields None.
    assert!(dbg.next().is_none());
}

#[test]
fn malformed_line_reports_line_number() {
    // Second line is invalid JSON; the error should point at line 2.
    let bad = "{\"kind\":\"ok\"}\nnot-json\n";
    let err = load(bad).unwrap_err();

    match err {
        ReplayError::Decode { line, .. } => assert_eq!(line, 2),
        other => panic!("expected Decode error, got {other:?}"),
    }
}
