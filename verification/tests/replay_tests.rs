use agent_replay_trace::{JsonValue, Replay, ReplayError};

fn s(x: &str) -> JsonValue {
    JsonValue::string(x)
}

fn num(text: &str) -> JsonValue {
    JsonValue::Number(text.to_string())
}

fn obj(pairs: Vec<(&str, JsonValue)>) -> JsonValue {
    JsonValue::Object(pairs.into_iter().map(|(k, v)| (k.to_string(), v)).collect())
}

/// The lines of a JSONL text, as `from_jsonl` reads them from a file.
fn text_lines(contents: &str) -> Vec<String> {
    contents.lines().map(|l| l.to_string()).collect()
}

/// `max(ts) - min(ts)` over the numbers that the library finds at `ts_key`
/// (the floating-point part lives outside the library).
fn duration_s(r: &Replay, ts_key: &str) -> Option<f64> {
    let mut vals: Vec<f64> = r.numbers_at(ts_key).iter().map(|t| t.parse::<f64>().unwrap()).collect();
    if vals.is_empty() {
        return None;
    }
    vals.sort_by(|a, b| a.partial_cmp(b).unwrap());
    Some(vals[vals.len() - 1] - vals[0])
}

fn sample() -> Replay {
    Replay::new(vec![
        obj(vec![("kind", s("tool_called")), ("ts", num("1.0")), ("tool_name", s("search"))]),
        obj(vec![("kind", s("tool_returned")), ("ts", num("1.5")), ("tool_name", s("search"))]),
        obj(vec![("kind", s("tool_called")), ("ts", num("2.0")), ("tool_name", s("read"))]),
        obj(vec![("kind", s("errored")), ("ts", num("2.5")), ("error", s("timeout"))]),
    ])
}

#[test]
fn new_and_len() {
    let r = sample();
    assert_eq!(r.len(), 4);
    assert!(!r.is_empty());
}

#[test]
fn empty_replay() {
    let r = Replay::new(vec![]);
    assert!(r.is_empty());
    assert_eq!(r.len(), 0);
}

#[test]
fn get_by_index() {
    let r = sample();
    assert_eq!(r.get(0).unwrap().get("kind").unwrap(), &s("tool_called"));
    assert!(r.get(99).is_none());
}

#[test]
fn iter() {
    let r = sample();
    let kinds: Vec<_> = r.iter().map(|e| e.get("kind").unwrap().as_str().unwrap()).collect();
    assert_eq!(kinds, ["tool_called", "tool_returned", "tool_called", "errored"]);
}

#[test]
fn into_iter_owned() {
    let r = sample();
    let v: Vec<_> = r.into_events();
    assert_eq!(v.len(), 4);
}

#[test]
fn slice() {
    let r = sample();
    let s1 = r.slice(1, 3);
    assert_eq!(s1.len(), 2);
    assert_eq!(s1.get(0).unwrap().get("kind").unwrap(), &s("tool_returned"));
}

#[test]
fn filter_predicate() {
    let r = sample();
    let errors = r.filter(|e| e.get("error").is_some());
    assert_eq!(errors.len(), 1);
}

#[test]
fn filter_eq_single() {
    let r = sample();
    let calls = r.filter_eq(&[("kind", s("tool_called"))]);
    assert_eq!(calls.len(), 2);
}

#[test]
fn filter_eq_multiple() {
    let r = sample();
    let hits = r.filter_eq(&[("kind", s("tool_called")), ("tool_name", s("search"))]);
    assert_eq!(hits.len(), 1);
}

#[test]
fn by_kind_basic() {
    let r = sample();
    let counts = r.by_kind("kind");
    assert_eq!(counts.get("tool_called").unwrap(), 2);
    assert_eq!(counts.get("tool_returned").unwrap(), 1);
    assert_eq!(counts.get("errored").unwrap(), 1);
}

#[test]
fn by_kind_missing_key() {
    let r = Replay::new(vec![obj(vec![("x", num("1"))]), obj(vec![("kind", s("a"))])]);
    let counts = r.by_kind("kind");
    assert_eq!(counts.get("<no-kind>").unwrap(), 1);
    assert_eq!(counts.get("a").unwrap(), 1);
}

#[test]
fn duration_s_basic() {
    let r = sample();
    let d = duration_s(&r, "ts").unwrap();
    assert!((d - 1.5).abs() < 1e-9);
}

#[test]
fn duration_s_no_ts() {
    let r = Replay::new(vec![obj(vec![("kind", s("x"))])]);
    assert!(duration_s(&r, "ts").is_none());
}

#[test]
fn duration_s_single_event() {
    let r = Replay::new(vec![obj(vec![("ts", num("5.0"))])]);
    assert_eq!(duration_s(&r, "ts").unwrap(), 0.0);
}

#[test]
fn first_eq() {
    let r = sample();
    let first = r.first_eq(&[("kind", s("tool_called"))]).unwrap();
    assert_eq!(first.get("tool_name").unwrap(), &s("search"));
}

#[test]
fn first_eq_none() {
    let r = sample();
    assert!(r.first_eq(&[("kind", s("no_such"))]).is_none());
}

#[test]
fn last_eq() {
    let r = sample();
    let last = r.last_eq(&[("kind", s("tool_called"))]).unwrap();
    assert_eq!(last.get("tool_name").unwrap(), &s("read"));
}

#[test]
fn count_eq() {
    let r = sample();
    assert_eq!(r.count_eq(&[("kind", s("tool_called"))]), 2);
    assert_eq!(r.count_eq(&[("kind", s("never"))]), 0);
}

#[test]
fn from_jsonl_roundtrip() {
    let lines = text_lines("{\"kind\":\"tool_called\",\"ts\":1.0}\n\n{\"kind\":\"errored\"}\n");
    let r = Replay::from_jsonl_texts(&lines).unwrap();
    assert_eq!(r.len(), 2);
}

#[test]
fn from_jsonl_bad_json() {
    let lines = text_lines("not json\n");
    let err = Replay::from_jsonl_texts(&lines).unwrap_err();
    assert!(matches!(err, ReplayError::Decode { .. }));
}

#[test]
fn from_jsonl_not_object() {
    let lines = text_lines("[1,2,3]\n");
    let err = Replay::from_jsonl_texts(&lines).unwrap_err();
    assert!(matches!(err, ReplayError::Decode { .. }));
}

#[test]
fn debugger_position_starts_at_neg1() {
    let r = sample();
    let d = r.debugger();
    assert_eq!(d.position(), -1);
    assert!(d.current().is_none());
}

#[test]
fn debugger_next_advances() {
    let r = sample();
    let mut d = r.debugger();
    let ev = d.next().unwrap();
    assert_eq!(ev.get("kind").unwrap(), &s("tool_called"));
    assert_eq!(d.position(), 0);
}

#[test]
fn debugger_next_at_end_returns_none() {
    let r = Replay::new(vec![obj(vec![("kind", s("x"))])]);
    let mut d = r.debugger();
    assert!(d.next().is_some());
    assert!(d.next().is_none());
}

#[test]
fn debugger_prev() {
    let r = sample();
    let mut d = r.debugger();
    d.next();
    d.next();
    let ev = d.prev().unwrap();
    assert_eq!(ev.get("kind").unwrap(), &s("tool_called"));
    assert_eq!(d.position(), 0);
}

#[test]
fn debugger_prev_at_start_returns_none() {
    let r = sample();
    let mut d = r.debugger();
    assert!(d.prev().is_none());
    assert_eq!(d.position(), -1);
}

#[test]
fn debugger_reset() {
    let r = sample();
    let mut d = r.debugger();
    d.next();
    d.next();
    d.reset();
    assert_eq!(d.position(), -1);
}

#[test]
fn debugger_peek() {
    let r = sample();
    let d = r.debugger();
    let peeked = d.peek(2);
    assert_eq!(peeked.len(), 2);
    assert_eq!(peeked[0].get("kind").unwrap(), &s("tool_called"));
}

#[test]
fn debugger_peek_at_end() {
    let r = Replay::new(vec![obj(vec![("k", num("1"))])]);
    let mut d = r.debugger();
    d.next();
    let peeked = d.peek(5);
    assert!(peeked.is_empty());
}

#[test]
fn debugger_peek_zero_window() {
    let r = sample();
    let d = r.debugger();
    assert!(d.peek(0).is_empty());
}

#[test]
fn debugger_find() {
    let r = sample();
    let mut d = r.debugger();
    let ev = d.find(|e| e.get("error").is_some()).unwrap();
    assert_eq!(ev.get("kind").unwrap(), &s("errored"));
}

#[test]
fn debugger_find_not_found() {
    let r = sample();
    let mut d = r.debugger();
    let result = d.find(|e| e.get("never").is_some());
    assert!(result.is_none());
}

#[test]
fn debugger_iterator() {
    let r = sample();
    let events: Vec<_> = r.debugger().collect_rest();
    assert_eq!(events.len(), 4);
}
