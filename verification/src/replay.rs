use vstd::prelude::*;
use vstd::std_specs::iter::IteratorSpec;

use crate::counts::{KindCounts, tally};
use crate::debugger::Debugger;
use crate::json::{JsonValue, JsonView, views, field_of, json_eq, lemma_views_push, lemma_views_insert};
use crate::text::{json_text, text_lt, text_less, lemma_text_lt_asymmetric, lemma_text_lt_transitive};
use crate::seqs::{
    first_index,
    last_index,
    select,
    lemma_first_index,
    lemma_last_index,
    lemma_filter_take_step,
    lemma_filter_map_take_step,
    lemma_select_take_step,
};

verus! {

broadcast use vstd::std_specs::vec::group_vec_axioms;

/// An immutable list of trace events.
#[derive(Debug)]
pub struct Replay {
    events: Vec<JsonValue>,
}

/// The `(key, value)` pairs of a filter, each taken by its view.
pub open spec fn filter_pairs(filters: Seq<(&str, JsonValue)>) -> Seq<(Seq<char>, JsonView)> {
    Seq::new(filters.len(), |i: int| (filters[i].0@, filters[i].1@))
}

/// Whether the event holds, at the pair's key, a value equal to the pair's value.
pub open spec fn field_matches(event: JsonView, pair: (Seq<char>, JsonView)) -> bool {
    match field_of(event, pair.0) {
        Some(v) => json_eq(v, pair.1),
        None => false,
    }
}

/// Whether an event is an object that matches every pair of the filter.
pub open spec fn matches_all(event: JsonView, filters: Seq<(Seq<char>, JsonView)>) -> bool {
    &&& event is Object
    &&& forall|i: int| 0 <= i < filters.len() ==> #[trigger] field_matches(event, filters[i])
}

/// The predicate "matches every pair of the filter".
pub open spec fn matcher(filters: Seq<(Seq<char>, JsonView)>) -> spec_fn(JsonView) -> bool {
    |e: JsonView| matches_all(e, filters)
}

/// The value at `key` of an event, if it has one.
pub open spec fn field_at(key: Seq<char>) -> spec_fn(JsonView) -> Option<JsonView> {
    |e: JsonView| field_of(e, key)
}

/// The text of the number at `key` of an event, if it holds a number there.
pub open spec fn number_at(key: Seq<char>) -> spec_fn(JsonView) -> Option<Seq<char>> {
    |e: JsonView|
        match field_of(e, key) {
            Some(JsonView::Number(t)) => Some(t),
            _ => None,
        }
}

/// The label of an event under `key`, as events are grouped by it: the
/// characters of a string value, the JSON text of any other value, and
/// `<no-kind>` where the event has no value at `key`.
pub open spec fn label_of(e: JsonView, key: Seq<char>) -> Seq<char> {
    match field_of(e, key) {
        Some(JsonView::Str(s)) => s,
        Some(v) => json_text(v),
        None => "<no-kind>"@,
    }
}

/// The labels of a sequence of events under `key`, in order.
pub open spec fn labels_of(s: Seq<JsonView>, key: Seq<char>) -> Seq<Seq<char>> {
    s.map_values(|e: JsonView| label_of(e, key))
}

/// Whether either value equals the other as JSON.
#[verifier::opaque]
pub open spec fn json_eq_either(a: JsonView, b: JsonView) -> bool {
    json_eq(a, b) || json_eq(b, a)
}

/// The values of `s` without repeats: a value is kept unless one kept
/// before it equals it as JSON.
pub open spec fn dedup(s: Seq<JsonView>) -> Seq<JsonView>
    decreases s.len(),
{
    if s.len() == 0 {
        Seq::empty()
    } else {
        let d = dedup(s.drop_last());
        if exists|j: int| 0 <= j < d.len() && json_eq_either(#[trigger] d[j], s.last()) {
            d
        } else {
            d.push(s.last())
        }
    }
}

/// Whether the values are in the order of their JSON texts.
pub open spec fn sorted_by_text(s: Seq<JsonView>) -> bool {
    forall|i: int, j: int|
        0 <= i < j < s.len() ==> !text_lt(#[trigger] json_text(s[j]), #[trigger] json_text(s[i]))
}

/// The label of `ev` under `key`.
pub fn event_label(ev: &JsonValue, key: &str) -> (r: String)
    ensures
        r@ == label_of(ev@, key@),
{
    match ev.get(key) {
        Some(JsonValue::Str(s)) => s.clone(),
        Some(v) => v.to_json_text(),
        None => "<no-kind>".to_owned(),
    }
}

/// Whether some value of `kept` equals `v` as JSON, either way round.
fn has_equal(kept: &Vec<JsonValue>, v: &JsonValue) -> (r: bool)
    ensures
        r == exists|j: int| 0 <= j < kept@.len() && json_eq_either(#[trigger] views(kept@)[j], v@),
{
    let mut i: usize = 0;
    while i < kept.len()
        invariant
            i <= kept@.len(),
            forall|j: int| 0 <= j < i ==> !json_eq_either(#[trigger] views(kept@)[j], v@),
        decreases kept@.len() - i,
    {
        if kept[i].equals(v) || v.equals(&kept[i]) {
            assert(json_eq_either(views(kept@)[i as int], v@)) by {
                reveal(json_eq_either);
            }
            return true;
        }
        proof {
            reveal(json_eq_either);
        }
        i = i + 1;
    }
    false
}

/// The position at which a value with text `t` goes into `texts`: before
/// the first text that comes after it.
fn insertion_point(texts: &Vec<String>, t: &String) -> (r: usize)
    ensures
        r <= texts@.len(),
        forall|j: int| 0 <= j < r ==> !text_lt(t@, #[trigger] texts@[j]@),
        r < texts@.len() ==> text_lt(t@, texts@[r as int]@),
{
    let mut i: usize = 0;
    while i < texts.len()
        invariant
            i <= texts@.len(),
            forall|j: int| 0 <= j < i ==> !text_lt(t@, #[trigger] texts@[j]@),
        decreases texts@.len() - i,
    {
        if text_less(t.as_str(), texts[i].as_str()) {
            return i;
        }
        i = i + 1;
    }
    i
}

/// The smaller of two integers.
pub open spec fn min_int(a: int, b: int) -> int {
    if a < b {
        a
    } else {
        b
    }
}

/// Whether `ev` matches every `(key, value)` pair of `filters`.
pub fn event_matches(ev: &JsonValue, filters: &[(&str, JsonValue)]) -> (r: bool)
    ensures
        r == matches_all(ev@, filter_pairs(filters@)),
{
    let ghost fs = filter_pairs(filters@);
    if !ev.is_object() {
        return false;
    }
    let mut i: usize = 0;
    while i < filters.len()
        invariant
            fs == filter_pairs(filters@),
            ev@ is Object,
            i <= filters@.len(),
            forall|j: int| 0 <= j < i ==> #[trigger] field_matches(ev@, fs[j]),
        decreases filters@.len() - i,
    {
        let (k, v) = &filters[i];
        assert(fs[i as int] == (k@, v@));
        match ev.get(*k) {
            Some(found) => {
                if !found.equals(v) {
                    assert(!field_matches(ev@, fs[i as int]));
                    return false;
                }
            },
            None => {
                assert(!field_matches(ev@, fs[i as int]));
                return false;
            },
        }
        i = i + 1;
    }
    true
}

/// A copy of every value of `v`, in order.
pub fn copy_values(v: &Vec<JsonValue>) -> (r: Vec<JsonValue>)
    ensures
        views(r@) == views(v@),
{
    let mut out: Vec<JsonValue> = Vec::new();
    let mut i: usize = 0;
    while i < v.len()
        invariant
            i <= v@.len(),
            views(out@) == views(v@).take(i as int),
        decreases v@.len() - i,
    {
        let ghost before = out@;
        out.push(v[i].duplicate());
        proof {
            lemma_views_push(before, out@.last());
            assert(out@.last()@ == views(v@)[i as int]);
            assert(views(v@).take(i + 1) =~= views(v@).take(i as int).push(views(v@)[i as int]));
        }
        i = i + 1;
    }
    assert(views(v@).take(v@.len() as int) =~= views(v@));
    out
}

impl View for Replay {
    type V = Seq<JsonView>;

    open spec fn view(&self) -> Seq<JsonView> {
        views(self.items())
    }
}

impl Replay {
    /// The events as they are held.
    pub closed spec fn items(&self) -> Seq<JsonValue> {
        self.events@
    }

    /// Wrap an in-memory list of events.
    pub fn new(events: Vec<JsonValue>) -> (r: Replay)
        ensures
            r.items() == events@,
            r@ == views(events@),
    {
        Replay { events }
    }

    /// The number of events.
    pub fn len(&self) -> (r: usize)
        ensures
            r == self@.len(),
    {
        self.events.len()
    }

    /// Whether there are no events.
    pub fn is_empty(&self) -> (r: bool)
        ensures
            r == (self@.len() == 0),
    {
        self.events.len() == 0
    }

    /// All events, in order.
    pub fn events(&self) -> (r: &[JsonValue])
        ensures
            r@ == self.items(),
            views(r@) == self@,
    {
        self.events.as_slice()
    }

    /// An iterator over the events, in order.
    pub fn iter(&self) -> (r: std::slice::Iter<'_, JsonValue>)
        ensures
            IteratorSpec::remaining(&r) == self.items().as_ref(),
    {
        self.events.as_slice().iter()
    }

    /// The event at `idx`, or `None` past the end.
    pub fn get(&self, idx: usize) -> (r: Option<&JsonValue>)
        ensures
            match r {
                Some(v) => idx < self@.len() && v@ == self@[idx as int],
                None => idx >= self@.len(),
            },
    {
        if idx < self.events.len() {
            Some(&self.events[idx])
        } else {
            None
        }
    }

    /// The events from `start` up to (not including) `end`; both bounds are
    /// clamped to the trace, and `start` to `end`.
    pub fn slice(&self, start: usize, end: usize) -> (r: Replay)
        ensures
            r@ == self@.subrange(
                min_int(start as int, min_int(end as int, self@.len() as int)),
                min_int(end as int, self@.len() as int),
            ),
    {
        let len = self.events.len();
        let end = if end < len {
            end
        } else {
            len
        };
        let start = if start < end {
            start
        } else {
            end
        };
        let mut out: Vec<JsonValue> = Vec::new();
        let mut i: usize = start;
        while i < end
            invariant
                start <= i <= end <= self@.len(),
                views(out@) == self@.subrange(start as int, i as int),
            decreases end - i,
        {
            let ghost before = out@;
            out.push(self.events[i].duplicate());
            proof {
                lemma_views_push(before, out@.last());
            }
            assert(views(out@) =~= self@.subrange(start as int, i + 1));
            i = i + 1;
        }
        Replay { events: out }
    }

    /// A new `Replay` holding only the events for which `predicate` holds.
    pub fn filter<F: Fn(&JsonValue) -> bool>(&self, predicate: F) -> (r: Replay)
        requires
            forall|i: int|
                0 <= i < self.items().len() ==> call_requires(predicate, (&self.items()[i],)),
        ensures
            exists|keep: Seq<bool>|
                {
                    &&& keep.len() == self@.len()
                    &&& forall|i: int|
                        0 <= i < self@.len() ==> call_ensures(
                            predicate,
                            (&self.items()[i],),
                            #[trigger] keep[i],
                        )
                    &&& r@ == select(self@, keep)
                },
    {
        let ghost mut keep: Seq<bool> = Seq::empty();
        let mut out: Vec<JsonValue> = Vec::new();
        let mut i: usize = 0;
        while i < self.events.len()
            invariant
                i <= self@.len(),
                keep.len() == i,
                forall|j: int|
                    0 <= j < self.items().len() ==> call_requires(predicate, (&self.items()[j],)),
                forall|j: int|
                    0 <= j < i ==> call_ensures(predicate, (&self.items()[j],), #[trigger] keep[j]),
                views(out@) == select(self@.take(i as int), keep),
            decreases self@.len() - i,
        {
            let b = predicate(&self.events[i]);
            let ghost old_keep = keep;
            proof {
                keep = keep.push(b);
                lemma_select_prefix(self@.take(i as int), old_keep, keep);
                lemma_select_take_step(self@, keep, i as int);
            }
            if b {
                let ghost before = out@;
                out.push(self.events[i].duplicate());
                proof {
                    lemma_views_push(before, out@.last());
                    assert(out@.last()@ == self@[i as int]);
                }
            }
            assert(views(out@) == select(self@.take(i + 1), keep));
            i = i + 1;
        }
        assert(self@.take(self@.len() as int) =~= self@);
        Replay { events: out }
    }

    /// A new `Replay` holding only the events that match every `(key, value)`
    /// pair exactly.
    pub fn filter_eq(&self, filters: &[(&str, JsonValue)]) -> (r: Replay)
        ensures
            r@ == self@.filter(matcher(filter_pairs(filters@))),
    {
        let ghost p = matcher(filter_pairs(filters@));
        let mut out: Vec<JsonValue> = Vec::new();
        let mut i: usize = 0;
        while i < self.events.len()
            invariant
                p == matcher(filter_pairs(filters@)),
                i <= self@.len(),
                views(out@) == self@.take(i as int).filter(p),
            decreases self@.len() - i,
        {
            proof {
                lemma_filter_take_step(self@, p, i as int);
            }
            if event_matches(&self.events[i], filters) {
                let ghost before = out@;
                out.push(self.events[i].duplicate());
                proof {
                    lemma_views_push(before, out@.last());
                }
                assert(views(out@) =~= self@.take(i as int).filter(p).push(self@[i as int]));
            }
            i = i + 1;
        }
        assert(self@.take(self@.len() as int) =~= self@);
        Replay { events: out }
    }

    /// The number of events that match every `(key, value)` pair.
    pub fn count_eq(&self, filters: &[(&str, JsonValue)]) -> (r: usize)
        ensures
            r == self@.filter(matcher(filter_pairs(filters@))).len(),
    {
        let ghost p = matcher(filter_pairs(filters@));
        let mut n: usize = 0;
        let mut i: usize = 0;
        while i < self.events.len()
            invariant
                p == matcher(filter_pairs(filters@)),
                i <= self@.len(),
                n == self@.take(i as int).filter(p).len(),
            decreases self@.len() - i,
        {
            proof {
                lemma_filter_take_step(self@, p, i as int);
                self@.take(i as int).lemma_filter_len(p);
            }
            if event_matches(&self.events[i], filters) {
                n = n + 1;
            }
            i = i + 1;
        }
        assert(self@.take(self@.len() as int) =~= self@);
        n
    }

    /// The position of the first event that matches every pair.
    pub fn index_of(&self, filters: &[(&str, JsonValue)]) -> (r: Option<usize>)
        ensures
            match r {
                Some(i) => first_index(self@, matcher(filter_pairs(filters@))) == Some(i as int),
                None => first_index(self@, matcher(filter_pairs(filters@))) is None,
            },
    {
        let ghost p = matcher(filter_pairs(filters@));
        proof {
            lemma_first_index(self@, p);
        }
        let mut i: usize = 0;
        while i < self.events.len()
            invariant
                p == matcher(filter_pairs(filters@)),
                i <= self@.len(),
                forall|j: int| 0 <= j < i ==> !p(self@[j]),
                match first_index(self@, p) {
                    Some(t) => 0 <= t < self@.len() && p(self@[t]) && forall|j: int|
                        0 <= j < t ==> !p(self@[j]),
                    None => forall|j: int| 0 <= j < self@.len() ==> !p(self@[j]),
                },
            decreases self@.len() - i,
        {
            if event_matches(&self.events[i], filters) {
                assert(p(self@[i as int]));
                return Some(i);
            }
            i = i + 1;
        }
        None
    }

    /// The first event that matches every pair.
    pub fn first_eq(&self, filters: &[(&str, JsonValue)]) -> (r: Option<&JsonValue>)
        ensures
            match first_index(self@, matcher(filter_pairs(filters@))) {
                Some(i) => r matches Some(v) && v@ == self@[i],
                None => r is None,
            },
    {
        proof {
            lemma_first_index(self@, matcher(filter_pairs(filters@)));
        }
        match self.index_of(filters) {
            Some(i) => {
                assert(first_index(self@, matcher(filter_pairs(filters@))) == Some(i as int));
                assert(self.events@[i as int]@ == self@[i as int]);
                Some(&self.events[i])
            },
            None => None,
        }
    }

    /// The last event that matches every pair.
    pub fn last_eq(&self, filters: &[(&str, JsonValue)]) -> (r: Option<&JsonValue>)
        ensures
            match last_index(self@, matcher(filter_pairs(filters@))) {
                Some(i) => r matches Some(v) && v@ == self@[i],
                None => r is None,
            },
    {
        let ghost p = matcher(filter_pairs(filters@));
        proof {
            lemma_last_index(self@, p);
        }
        let mut i: usize = self.events.len();
        while i > 0
            invariant
                p == matcher(filter_pairs(filters@)),
                i <= self@.len(),
                forall|j: int| i <= j < self@.len() ==> !p(self@[j]),
                match last_index(self@, p) {
                    Some(t) => 0 <= t < self@.len() && p(self@[t]) && forall|j: int|
                        t < j < self@.len() ==> !p(self@[j]),
                    None => forall|j: int| 0 <= j < self@.len() ==> !p(self@[j]),
                },
            decreases i,
        {
            i = i - 1;
            if event_matches(&self.events[i], filters) {
                assert(p(self@[i as int]));
                return Some(&self.events[i]);
            }
        }
        None
    }

    /// The value at `key` of every event that has one, in order.
    pub fn pluck(&self, key: &str) -> (r: Vec<JsonValue>)
        ensures
            views(r@) == self@.filter_map(field_at(key@)),
    {
        let ghost f = field_at(key@);
        let mut out: Vec<JsonValue> = Vec::new();
        let mut i: usize = 0;
        while i < self.events.len()
            invariant
                f == field_at(key@),
                i <= self@.len(),
                views(out@) == self@.take(i as int).filter_map(f),
            decreases self@.len() - i,
        {
            proof {
                lemma_filter_map_take_step(self@, f, i as int);
            }
            match self.events[i].get(key) {
                Some(v) => {
                    let ghost before = out@;
                    out.push(v.duplicate());
                    proof {
                        lemma_views_push(before, out@.last());
                    }
                    assert(views(out@) =~= self@.take(i as int).filter_map(f).push(v@));
                },
                None => {},
            }
            i = i + 1;
        }
        assert(self@.take(self@.len() as int) =~= self@);
        out
    }

    /// The text of the number at `key` of every event that holds a number
    /// there, in order (what a duration is measured from).
    pub fn numbers_at(&self, key: &str) -> (r: Vec<String>)
        ensures
            r@.map_values(|t: String| t@) == self@.filter_map(number_at(key@)),
    {
        let ghost f = number_at(key@);
        let mut out: Vec<String> = Vec::new();
        let mut i: usize = 0;
        while i < self.events.len()
            invariant
                f == number_at(key@),
                i <= self@.len(),
                out@.map_values(|t: String| t@) == self@.take(i as int).filter_map(f),
            decreases self@.len() - i,
        {
            proof {
                lemma_filter_map_take_step(self@, f, i as int);
            }
            match self.events[i].get(key) {
                Some(JsonValue::Number(t)) => {
                    out.push(t.clone());
                    assert(out@.map_values(|t: String| t@) =~= self@.take(i as int).filter_map(
                        f,
                    ).push(t@));
                },
                _ => {},
            }
            i = i + 1;
        }
        assert(self@.take(self@.len() as int) =~= self@);
        out
    }

    /// Count events grouped by their label under `kind_key`; events without
    /// a value there are counted under `<no-kind>`.
    pub fn by_kind(&self, kind_key: &str) -> (r: KindCounts)
        ensures
            r@ == tally(labels_of(self@, kind_key@)),
    {
        let ghost ls = labels_of(self@, kind_key@);
        let mut counts = KindCounts::new();
        let mut i: usize = 0;
        while i < self.events.len()
            invariant
                ls == labels_of(self@, kind_key@),
                i <= self@.len(),
                counts@ == tally(ls.take(i as int)),
                forall|j: int| 0 <= j < counts@.len() ==> counts@[j].1 <= i,
            decreases self@.len() - i,
        {
            let label = event_label(&self.events[i], kind_key);
            proof {
                assert(ls.take(i + 1).drop_last() =~= ls.take(i as int));
                assert(ls[i as int] == label@);
            }
            let ghost old_counts = counts@;
            let ghost lv = label@;
            counts.add(label);
            proof {
                crate::seqs::lemma_first_index(old_counts, crate::counts::has_label(lv));
            }
            i = i + 1;
        }
        assert(ls.take(self@.len() as int) =~= ls);
        counts
    }

    /// The distinct values at `key`, in the order of their JSON texts: each
    /// value found at `key` once, however often it occurs.
    pub fn distinct(&self, key: &str) -> (r: Vec<JsonValue>)
        ensures
            views(r@).to_multiset() == dedup(self@.filter_map(field_at(key@))).to_multiset(),
            sorted_by_text(views(r@)),
    {
        let values = self.pluck(key);
        let ghost vs = views(values@);
        let mut kept: Vec<JsonValue> = Vec::new();
        let mut i: usize = 0;
        while i < values.len()
            invariant
                vs == views(values@),
                i <= values@.len(),
                views(kept@) == dedup(vs.take(i as int)),
            decreases values@.len() - i,
        {
            proof {
                assert(vs.take(i + 1).drop_last() =~= vs.take(i as int));
                assert(vs[i as int] == values@[i as int]@);
            }
            if !has_equal(&kept, &values[i]) {
                let ghost before = kept@;
                kept.push(values[i].duplicate());
                proof {
                    lemma_views_push(before, kept@.last());
                }
            }
            i = i + 1;
        }
        assert(vs.take(values@.len() as int) =~= vs);
        let ghost ks = views(kept@);
        let mut out: Vec<JsonValue> = Vec::new();
        let mut texts: Vec<String> = Vec::new();
        let mut i: usize = 0;
        assert(views(out@) =~= ks.take(0));
        while i < kept.len()
            invariant
                ks == views(kept@),
                i <= kept@.len(),
                texts@.len() == out@.len(),
                forall|j: int| 0 <= j < texts@.len() ==> #[trigger] texts@[j]@ == json_text(views(out@)[j]),
                sorted_by_text(views(out@)),
                views(out@).to_multiset() == ks.take(i as int).to_multiset(),
            decreases kept@.len() - i,
        {
            let t = kept[i].to_json_text();
            let p = insertion_point(&texts, &t);
            let ghost old_out = views(out@);
            let ghost old_texts = texts@;
            let x = kept[i].duplicate();
            let ghost xv = x@;
            texts.insert(p, t);
            let ghost before = out@;
            out.insert(p, x);
            proof {
                lemma_views_insert(before, p as int, x);
                assert(views(out@) == old_out.insert(p as int, xv));
                assert(xv == ks[i as int]);
                assert(ks.take(i + 1) =~= ks.take(i as int).push(xv));
                vstd::seq_lib::to_multiset_insert(old_out, p as int, xv);
                vstd::seq_lib::to_multiset_build(ks.take(i as int), xv);
                assert forall|j: int| 0 <= j < texts@.len() implies #[trigger] texts@[j]@ == json_text(views(out@)[j]) by {
                    if j < p {
                        assert(texts@[j] == old_texts[j]);
                    } else if j > p {
                        assert(texts@[j] == old_texts[j - 1]);
                    }
                }
                let nv = views(out@);
                assert forall|a: int, b: int| 0 <= a < b < nv.len() implies !text_lt(
                    #[trigger] json_text(nv[b]),
                    #[trigger] json_text(nv[a]),
                ) by {
                    let tp = json_text(xv);
                    if a < p && b == p {
                        assert(nv[a] == old_out[a]);
                        assert(!text_lt(tp, old_texts[a]@));
                    } else if a == p && b > p {
                        assert(nv[b] == old_out[b - 1]);
                        assert(text_lt(tp, old_texts[p as int]@));
                        if b - 1 > p {
                            assert(!text_lt(json_text(old_out[b - 1]), json_text(old_out[p as int])));
                            if text_lt(json_text(old_out[b - 1]), tp) {
                                lemma_text_lt_transitive(
                                    json_text(old_out[b - 1]),
                                    tp,
                                    json_text(old_out[p as int]),
                                );
                            }
                        } else {
                            lemma_text_lt_asymmetric(tp, old_texts[p as int]@);
                        }
                    } else if a < p && b > p {
                        assert(nv[a] == old_out[a]);
                        assert(nv[b] == old_out[b - 1]);
                    } else if b < p {
                        assert(nv[a] == old_out[a]);
                        assert(nv[b] == old_out[b]);
                    } else {
                        assert(nv[a] == old_out[a - 1]);
                        assert(nv[b] == old_out[b - 1]);
                    }
                }
            }
            i = i + 1;
        }
        assert(ks.take(kept@.len() as int) =~= ks);
        out
    }

    /// A step-through cursor over a copy of the events, before the first one.
    pub fn debugger(&self) -> (r: Debugger)
        requires
            self@.len() < i64::MAX,
        ensures
            r@ == (self@, -1int),
    {
        Debugger::new(copy_values(&self.events))
    }

    /// All events, handed over.
    pub fn into_events(self) -> (r: Vec<JsonValue>)
        ensures
            r@ == self.items(),
            views(r@) == self@,
    {
        self.events
    }
}

impl Clone for Replay {
    /// A copy holding equal events.
    fn clone(&self) -> (r: Self)
        ensures
            r@ == self@,
    {
        Replay { events: copy_values(&self.events) }
    }
}

/// Flags past the end of the sequence do not change what is selected.
pub proof fn lemma_select_prefix<A>(s: Seq<A>, k1: Seq<bool>, k2: Seq<bool>)
    requires
        s.len() <= k1.len(),
        k1.len() <= k2.len(),
        forall|j: int| 0 <= j < k1.len() ==> k1[j] == k2[j],
    ensures
        select(s, k1) == select(s, k2),
    decreases s.len(),
{
    if s.len() > 0 {
        lemma_select_prefix(s.drop_last(), k1, k2);
    }
}

} // verus!
