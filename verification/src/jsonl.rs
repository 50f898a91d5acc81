use vstd::prelude::*;
use vstd::string::StrSliceExecFns;

use crate::error::ReplayError;
use crate::json::{JsonValue, JsonView, views, lemma_views_push, well_formed};
use crate::replay::Replay;
use crate::seqs::{first_index, lemma_first_index, lemma_filter_map_take_step};

verus! {

broadcast use vstd::std_specs::vec::group_vec_axioms;

/// Whether a character has the Unicode `White_Space` property, which is
/// what `char::is_whitespace`, and so `str::trim`, go by.
pub open spec fn is_white_space(c: char) -> bool {
    let n = c as int;
    ||| 0x09 <= n <= 0x0d
    ||| n == 0x20
    ||| n == 0x85
    ||| n == 0xa0
    ||| n == 0x1680
    ||| 0x2000 <= n <= 0x200a
    ||| n == 0x2028
    ||| n == 0x2029
    ||| n == 0x202f
    ||| n == 0x205f
    ||| n == 0x3000
}

/// Whether a line holds nothing but white space (it trims to nothing).
pub open spec fn is_blank(s: Seq<char>) -> bool {
    forall|i: int| 0 <= i < s.len() ==> is_white_space(#[trigger] s[i])
}

/// Whether `c` has the Unicode `White_Space` property.
pub fn is_white_space_char(c: char) -> (r: bool)
    ensures
        r == is_white_space(c),
{
    let n = c as u32;
    (0x09 <= n && n <= 0x0d) || n == 0x20 || n == 0x85 || n == 0xa0 || n == 0x1680 || (0x2000
        <= n && n <= 0x200a) || n == 0x2028 || n == 0x2029 || n == 0x202f || n == 0x205f || n
        == 0x3000
}

/// Whether a line is blank: empty, or white space only.
pub fn is_blank_line(line: &str) -> (r: bool)
    ensures
        r == is_blank(line@),
{
    let n = line.unicode_len();
    let mut i: usize = 0;
    while i < n
        invariant
            n == line@.len(),
            i <= n,
            forall|j: int| 0 <= j < i ==> is_white_space(#[trigger] line@[j]),
        decreases n - i,
    {
        let c = line.get_char(i);
        if !is_white_space_char(c) {
            return false;
        }
        i = i + 1;
    }
    true
}

/// One line of a JSONL trace, as read: blank, not JSON (with the parser's
/// message), or a JSON value.
#[derive(Debug)]
pub enum JsonlLine {
    Blank,
    Malformed(String),
    Parsed(JsonValue),
}

/// The model of a JSONL line.
pub enum LineView {
    Blank,
    Malformed(Seq<char>),
    Parsed(JsonView),
}

impl View for JsonlLine {
    type V = LineView;

    open spec fn view(&self) -> LineView {
        match self {
            JsonlLine::Blank => LineView::Blank,
            JsonlLine::Malformed(m) => LineView::Malformed(m@),
            JsonlLine::Parsed(v) => LineView::Parsed(v@),
        }
    }
}

/// A JSON value as serde_json reads it, carried through to be converted.
#[verifier::external_type_specification]
#[verifier::external_body]
pub struct ExSerdeValue(serde_json::Value);

/// What serde_json makes of the text of one line: its value, or its error
/// message.
pub uninterp spec fn parsed_line(line: Seq<char>) -> LineView;

/// The library's value for a value that serde_json read, part for part
/// (a number keeps the text serde_json prints for it). This only converts.
#[verifier::external_body]
fn library_value(v: &serde_json::Value) -> JsonValue {
    match v {
        serde_json::Value::Null => JsonValue::Null,
        serde_json::Value::Bool(b) => JsonValue::Bool(*b),
        serde_json::Value::Number(n) => JsonValue::Number(n.to_string()),
        serde_json::Value::String(s) => JsonValue::Str(s.clone()),
        serde_json::Value::Array(a) => JsonValue::Array(a.iter().map(library_value).collect()),
        serde_json::Value::Object(m) => JsonValue::Object(
            m.iter().map(|(k, x)| (k.clone(), library_value(x))).collect(),
        ),
    }
}

/// `serde_json::from_str::<serde_json::Value>` on the text of one line.
///
/// The contract names the outcome `parsed_line(line@)`, a function of the
/// text alone: a value, or the parser's message. It also claims that the
/// outcome is never a blank line (the body makes a value or a message) and
/// that a value holds each key of each of its objects once (serde_json's
/// `Map` is a map). What value or message a given text gives is left unsaid.
#[verifier::external_body]
fn parse_line(line: &str) -> (r: JsonlLine)
    ensures
        r@ == parsed_line(line@),
        !(r@ is Blank),
        r@ matches LineView::Parsed(v) ==> well_formed(v),
{
    match serde_json::from_str::<serde_json::Value>(line) {
        Ok(v) => JsonlLine::Parsed(library_value(&v)),
        Err(e) => JsonlLine::Malformed(e.to_string()),
    }
}

/// How a line of text is read: a blank line is blank, any other line is
/// what serde_json makes of it.
pub open spec fn line_of_text(s: Seq<char>) -> LineView {
    if is_blank(s) {
        LineView::Blank
    } else {
        parsed_line(s)
    }
}

/// The lines of a trace's text, each as it is read.
pub open spec fn text_line_views(lines: Seq<String>) -> Seq<LineView> {
    Seq::new(lines.len(), |i: int| line_of_text(lines[i]@))
}

/// Read one line of text: blank, or parsed by serde_json.
pub fn read_line(line: &str) -> (r: JsonlLine)
    ensures
        r@ == line_of_text(line@),
        r@ matches LineView::Parsed(v) ==> well_formed(v),
{
    if is_blank_line(line) {
        JsonlLine::Blank
    } else {
        parse_line(line)
    }
}

/// Whether a line stops the load: it is not JSON, or its value is not an object.
pub open spec fn is_bad_line(l: LineView) -> bool {
    match l {
        LineView::Blank => false,
        LineView::Malformed(_) => true,
        LineView::Parsed(v) => !(v is Object),
    }
}

/// The message a bad line is reported with.
pub open spec fn bad_line_message(l: LineView) -> Seq<char> {
    match l {
        LineView::Malformed(m) => m,
        _ => "not a JSON object"@,
    }
}

/// The event a line contributes, if any.
pub open spec fn line_event(l: LineView) -> Option<JsonView> {
    match l {
        LineView::Parsed(v) => Some(v),
        _ => None,
    }
}

/// The predicate "this line stops the load".
pub open spec fn bad_line() -> spec_fn(LineView) -> bool {
    |l: LineView| is_bad_line(l)
}

/// The event of each line, if any.
pub open spec fn event_of_line() -> spec_fn(LineView) -> Option<JsonView> {
    |l: LineView| line_event(l)
}

/// The events a trace loads to: the values of its lines, blank lines skipped.
pub open spec fn loaded_events(ls: Seq<LineView>) -> Seq<JsonView> {
    ls.filter_map(event_of_line())
}

/// The position of the first line that stops the load.
pub open spec fn first_bad_line(ls: Seq<LineView>) -> Option<int> {
    first_index(ls, bad_line())
}

/// The views of a sequence of lines.
pub open spec fn line_views(s: Seq<JsonlLine>) -> Seq<LineView> {
    Seq::new(s.len(), |i: int| s[i]@)
}

/// Whether `r` is the decode error for line number `line` with `message`.
pub open spec fn is_decode_error<T>(r: Result<T, ReplayError>, line: int, message: Seq<char>) -> bool {
    match r {
        Err(ReplayError::Decode { line: l, message: m }) => l == line && m@ == message,
        _ => false,
    }
}

/// A JSONL trace being loaded line by line: the events so far and the
/// number of lines seen (blank ones included).
pub struct JsonlLoader {
    events: Vec<JsonValue>,
    lines: usize,
}

impl View for JsonlLoader {
    type V = (Seq<JsonView>, nat);

    closed spec fn view(&self) -> (Seq<JsonView>, nat) {
        (views(self.events@), self.lines as nat)
    }
}

impl JsonlLoader {
    /// Nothing loaded yet.
    pub fn new() -> (r: JsonlLoader)
        ensures
            r@ == (Seq::<JsonView>::empty(), 0nat),
    {
        let r = JsonlLoader { events: Vec::new(), lines: 0 };
        assert(r@.0 =~= Seq::<JsonView>::empty());
        r
    }

    /// Take the next line: a blank line is skipped, an object becomes the
    /// next event, and anything else is a decode error at this line's
    /// (1-based) number.
    pub fn feed(&mut self, line: JsonlLine) -> (r: Result<(), ReplayError>)
        requires
            old(self)@.1 < usize::MAX,
        ensures
            final(self)@.1 == old(self)@.1 + 1,
            if is_bad_line(line@) {
                is_decode_error(r, old(self)@.1 + 1int, bad_line_message(line@))
            } else {
                r is Ok && final(self)@.0 == (match line_event(line@) {
                    Some(v) => old(self)@.0.push(v),
                    None => old(self)@.0,
                })
            },
    {
        self.lines = self.lines + 1;
        match line {
            JsonlLine::Blank => Ok(()),
            JsonlLine::Malformed(message) => Err(ReplayError::Decode { line: self.lines, message }),
            JsonlLine::Parsed(v) => {
                if !v.is_object() {
                    return Err(
                        ReplayError::Decode {
                            line: self.lines,
                            message: "not a JSON object".to_owned(),
                        },
                    );
                }
                let ghost before = self.events@;
                let ghost vv = v@;
                self.events.push(v);
                proof {
                    lemma_views_push(before, self.events@.last());
                }
                Ok(())
            },
        }
    }

    /// Take the next line of text, read as `read_line` reads it: a blank
    /// line is skipped, an object becomes the next event, and anything else
    /// is a decode error at this line's (1-based) number.
    pub fn feed_text(&mut self, line: &str) -> (r: Result<(), ReplayError>)
        requires
            old(self)@.1 < usize::MAX,
        ensures
            final(self)@.1 == old(self)@.1 + 1,
            if is_bad_line(line_of_text(line@)) {
                is_decode_error(r, old(self)@.1 + 1int, bad_line_message(line_of_text(line@)))
            } else {
                r is Ok && final(self)@.0 == (match line_event(line_of_text(line@)) {
                    Some(v) => old(self)@.0.push(v),
                    None => old(self)@.0,
                })
            },
            line_of_text(line@) matches LineView::Parsed(v) ==> well_formed(v),
    {
        let item = read_line(line);
        self.feed(item)
    }

    /// The number of lines taken so far, blank ones included.
    pub fn lines_read(&self) -> (r: usize)
        ensures
            r == self@.1,
    {
        self.lines
    }

    /// The events loaded.
    pub fn finish(self) -> (r: Replay)
        ensures
            r@ == self@.0,
    {
        Replay::new(self.events)
    }
}

impl Replay {
    /// Load a trace from its lines, read in order: blank lines are skipped,
    /// and the first line that is not JSON, or not a JSON object, stops the
    /// load with a decode error carrying its 1-based line number.
    pub fn from_jsonl_lines(lines: Vec<JsonlLine>) -> (r: Result<Replay, ReplayError>)
        requires
            lines@.len() < usize::MAX,
        ensures
            match first_bad_line(line_views(lines@)) {
                Some(i) => is_decode_error(
                    r,
                    i + 1,
                    bad_line_message(line_views(lines@)[i]),
                ),
                None => r matches Ok(rep) && rep@ == loaded_events(line_views(lines@)),
            },
    {
        let ghost ls = line_views(lines@);
        let ghost bad = bad_line();
        let ghost ev = event_of_line();
        proof {
            lemma_first_index(ls, bad);
        }
        let mut loader = JsonlLoader::new();
        let n = lines.len();
        let mut pending = lines;
        let mut rest: Vec<JsonlLine> = Vec::new();
        // Take the lines out in order, last one first, so that each can be
        // handed over by value.
        while pending.len() > 0
            invariant
                rest@.len() + pending@.len() == n,
                n == ls.len(),
                forall|j: int| 0 <= j < rest@.len() ==> #[trigger] rest@[j]@ == ls[n - 1 - j],
                forall|j: int| 0 <= j < pending@.len() ==> #[trigger] pending@[j]@ == ls[j],
            decreases pending@.len(),
        {
            let l = pending.pop().unwrap();
            rest.push(l);
        }
        let mut i: usize = 0;
        while i < n
            invariant
                n == ls.len(),
                ls == line_views(lines@),
                n < usize::MAX,
                bad == bad_line(),
                ev == event_of_line(),
                rest@.len() == n - i,
                forall|j: int| 0 <= j < rest@.len() ==> #[trigger] rest@[j]@ == ls[n - 1 - j],
                loader@.1 == i,
                loader@.0 == ls.take(i as int).filter_map(ev),
                forall|j: int| 0 <= j < i ==> !bad(ls[j]),
                match first_index(ls, bad) {
                    Some(t) => 0 <= t < ls.len() && bad(ls[t]) && forall|j: int|
                        0 <= j < t ==> !bad(ls[j]),
                    None => forall|j: int| 0 <= j < ls.len() ==> !bad(ls[j]),
                },
            decreases n - i,
        {
            let l = rest.pop().unwrap();
            let ghost lv = l@;
            assert(lv == ls[i as int]);
            proof {
                lemma_filter_map_take_step(ls, ev, i as int);
                assert(bad(lv) == is_bad_line(lv));
                assert(ev(lv) == line_event(lv));
            }
            match loader.feed(l) {
                Ok(()) => {},
                Err(e) => {
                    assert(is_bad_line(lv));
                    assert(first_bad_line(ls) == Some(i as int));
                    assert(is_decode_error(Err::<(), ReplayError>(e), i + 1, bad_line_message(lv)));
                    let r: Result<Replay, ReplayError> = Err(e);
                    assert(is_decode_error(r, i + 1, bad_line_message(ls[i as int])));

                    return r;
                },
            }
            i = i + 1;
        }
        assert(ls.take(n as int) =~= ls);
        Ok(loader.finish())
    }
}

impl Replay {
    /// Load a trace from the text of its lines, in order: blank lines are
    /// skipped, each other line is parsed by serde_json, and the first line
    /// that is not JSON, or not a JSON object, stops the load with a decode
    /// error carrying its 1-based line number. Every event loaded holds
    /// each key of each of its objects once.
    pub fn from_jsonl_texts(lines: &Vec<String>) -> (r: Result<Replay, ReplayError>)
        requires
            lines@.len() < usize::MAX,
        ensures
            match first_bad_line(text_line_views(lines@)) {
                Some(i) => is_decode_error(
                    r,
                    i + 1,
                    bad_line_message(text_line_views(lines@)[i]),
                ),
                None => r matches Ok(rep) && rep@ == loaded_events(text_line_views(lines@)),
            },
            r matches Ok(rep) ==> forall|i: int| 0 <= i < rep@.len() ==> well_formed(#[trigger] rep@[i]),
    {
        let ghost ls = text_line_views(lines@);
        let ghost bad = bad_line();
        let ghost ev = event_of_line();
        proof {
            lemma_first_index(ls, bad);
        }
        let mut loader = JsonlLoader::new();
        let n = lines.len();
        let mut i: usize = 0;
        while i < n
            invariant
                n == ls.len(),
                ls == text_line_views(lines@),
                n == lines@.len(),
                i <= n,
                n < usize::MAX,
                bad == bad_line(),
                ev == event_of_line(),
                loader@.1 == i,
                loader@.0 == ls.take(i as int).filter_map(ev),
                forall|j: int| 0 <= j < loader@.0.len() ==> well_formed(#[trigger] loader@.0[j]),
                forall|j: int| 0 <= j < i ==> !bad(ls[j]),
                match first_index(ls, bad) {
                    Some(t) => 0 <= t < ls.len() && bad(ls[t]) && forall|j: int|
                        0 <= j < t ==> !bad(ls[j]),
                    None => forall|j: int| 0 <= j < ls.len() ==> !bad(ls[j]),
                },
            decreases n - i,
        {
            let ghost lv = ls[i as int];
            assert(lv == line_of_text(lines@[i as int]@));
            proof {
                lemma_filter_map_take_step(ls, ev, i as int);
                assert(bad(lv) == is_bad_line(lv));
                assert(ev(lv) == line_event(lv));
            }
            let ghost before = loader@.0;
            match loader.feed_text(lines[i].as_str()) {
                Ok(()) => {},
                Err(e) => {
                    assert(is_bad_line(lv));
                    assert(first_bad_line(ls) == Some(i as int));
                    let r: Result<Replay, ReplayError> = Err(e);
                    assert(is_decode_error(r, i + 1, bad_line_message(ls[i as int])));
                    return r;
                },
            }
            assert forall|j: int| 0 <= j < loader@.0.len() implies well_formed(#[trigger] loader@.0[j]) by {
                if j < before.len() {
                    assert(loader@.0[j] == before[j]);
                }
            }
            i = i + 1;
        }
        assert(ls.take(n as int) =~= ls);
        Ok(loader.finish())
    }
}

} // verus!
