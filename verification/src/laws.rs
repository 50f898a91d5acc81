use vstd::prelude::*;

use crate::counts::{count_for, lemma_tally_count, lemma_tally_total, lemma_tally_unique, tally, total};
use crate::debugger::{ahead_end, ahead_start, next_pos, prev_pos};
use crate::json::{
    JsonView,
    field_of,
    json_eq,
    key_index,
    law_json_eq_on_scalars,
    lemma_json_eq_reflexive,
    lemma_key_index,
    well_formed,
};
use crate::text::json_text;
use crate::jsonl::{
    LineView,
    bad_line,
    bad_line_message,
    event_of_line,
    first_bad_line,
    loaded_events,
};
use crate::replay::{
    dedup,
    field_at,
    field_matches,
    json_eq_either,
    label_of,
    labels_of,
    matcher,
    matches_all,
    number_at,
};
use crate::seqs::{first_index, last_index, lemma_first_index, lemma_last_index};

verus! {

/// The first event that `first_eq` finds is the first event that
/// `filter_eq` keeps, and `first_eq` finds nothing exactly when `filter_eq`
/// keeps nothing.
pub proof fn law_first_eq_leads_filter_eq(s: Seq<JsonView>, fs: Seq<(Seq<char>, JsonView)>)
    ensures
        match first_index(s, matcher(fs)) {
            Some(i) => s.filter(matcher(fs)).len() > 0 && s.filter(matcher(fs))[0] == s[i],
            None => s.filter(matcher(fs)).len() == 0,
        },
    decreases s.len(),
{
    let p = matcher(fs);
    reveal_with_fuel(Seq::filter, 1);
    lemma_first_index(s, p);
    if s.len() > 0 {
        let init = s.drop_last();
        law_first_eq_leads_filter_eq(init, fs);
        lemma_first_index(init, p);
        assert forall|j: int| 0 <= j < init.len() implies init[j] == s[j] by {}
    }
}

/// The last event that `last_eq` finds is the last event that `filter_eq`
/// keeps, and `last_eq` finds nothing exactly when `filter_eq` keeps nothing.
pub proof fn law_last_eq_ends_filter_eq(s: Seq<JsonView>, fs: Seq<(Seq<char>, JsonView)>)
    ensures
        match last_index(s, matcher(fs)) {
            Some(i) => s.filter(matcher(fs)).len() > 0 && s.filter(matcher(fs)).last() == s[i],
            None => s.filter(matcher(fs)).len() == 0,
        },
    decreases s.len(),
{
    let p = matcher(fs);
    reveal_with_fuel(Seq::filter, 1);
    lemma_last_index(s, p);
    if s.len() > 0 {
        let init = s.drop_last();
        law_last_eq_ends_filter_eq(init, fs);
        lemma_last_index(init, p);
        assert forall|j: int| 0 <= j < init.len() implies init[j] == s[j] by {}
    }
}

/// Every event that `filter_eq` keeps matches every pair, and
/// `count_eq` never exceeds the number of events.
pub proof fn law_filter_eq_keeps_only_matches(s: Seq<JsonView>, fs: Seq<(Seq<char>, JsonView)>)
    ensures
        forall|i: int|
            0 <= i < s.filter(matcher(fs)).len() ==> matches_all(
                #[trigger] s.filter(matcher(fs))[i],
                fs,
            ),
        s.filter(matcher(fs)).len() <= s.len(),
{
    let p = matcher(fs);
    s.lemma_filter_len(p);
    assert forall|i: int| 0 <= i < s.filter(p).len() implies matches_all(
        #[trigger] s.filter(p)[i],
        fs,
    ) by {
        s.lemma_filter_pred(p, i);
    }
}

/// Filtering the result of `filter_eq` again by the same pairs changes nothing.
pub proof fn law_filter_eq_idempotent(s: Seq<JsonView>, fs: Seq<(Seq<char>, JsonView)>)
    ensures
        s.filter(matcher(fs)).filter(matcher(fs)) == s.filter(matcher(fs)),
    decreases s.len(),
{
    let p = matcher(fs);
    reveal_with_fuel(Seq::filter, 1);
    if s.len() > 0 {
        law_filter_eq_idempotent(s.drop_last(), fs);
        let f = s.drop_last().filter(p);
        if p(s.last()) {
            assert(f.push(s.last()).drop_last() =~= f);
        }
    }
}

/// `by_kind` counts every event once: each label appears once, its count
/// is the number of events with that label, and the counts add up to the
/// number of events.
pub proof fn law_by_kind_counts(s: Seq<JsonView>, key: Seq<char>, label: Seq<char>)
    ensures
        total(tally(labels_of(s, key))) == s.len(),
        forall|i: int, j: int|
            0 <= i < j < tally(labels_of(s, key)).len() ==> tally(labels_of(s, key))[i].0 != tally(
                labels_of(s, key),
            )[j].0,
        count_for(tally(labels_of(s, key)), label) == (if labels_of(s, key).contains(label) {
            Some(labels_of(s, key).filter(|x: Seq<char>| x == label).len())
        } else {
            None::<nat>
        }),
{
    lemma_tally_total(labels_of(s, key));
    lemma_tally_unique(labels_of(s, key));
    lemma_tally_count(labels_of(s, key), label);
}

/// A step forward that lands on an event is undone by a step back.
pub proof fn law_prev_undoes_next(p: int, n: int)
    requires
        -1 <= p <= n,
        next_pos(p, n) < n,
    ensures
        prev_pos(next_pos(p, n)) == p,
{
}

/// A step back from any position on or past the events is undone by a
/// step forward.
pub proof fn law_next_undoes_prev(p: int, n: int)
    requires
        0 <= p <= n,
    ensures
        next_pos(prev_pos(p), n) == p,
{
}

/// A fresh cursor's remaining events are the whole trace.
pub proof fn law_fresh_cursor_covers_trace(s: Seq<JsonView>)
    ensures
        s.subrange(ahead_start(-1, s.len() as int), s.len() as int) == s,
{
    assert(s.subrange(0, s.len() as int) =~= s);
}

/// A trace that loads holds only objects, one for each line that is not blank.
pub proof fn law_loaded_events_are_objects(ls: Seq<LineView>)
    requires
        first_bad_line(ls) is None,
    ensures
        forall|i: int| 0 <= i < loaded_events(ls).len() ==> (#[trigger] loaded_events(ls)[i]) is Object,
        loaded_events(ls).len() == ls.filter(|l: LineView| !(l is Blank)).len(),
    decreases ls.len(),
{
    reveal_with_fuel(Seq::filter, 1);
    lemma_first_index(ls, bad_line());
    if ls.len() > 0 {
        let init = ls.drop_last();
        lemma_first_index(init, bad_line());
        assert forall|j: int| 0 <= j < init.len() implies init[j] == ls[j] by {}
        law_loaded_events_are_objects(init);
        let e = loaded_events(init);
        assert(!bad_line()(ls.last()));
        match event_of_line()(ls.last()) {
            Some(v) => {
                assert(loaded_events(ls) == e + seq![v]);
                assert forall|i: int| 0 <= i < loaded_events(ls).len() implies (
                #[trigger] loaded_events(ls)[i]) is Object by {
                    if i < e.len() {
                        assert(loaded_events(ls)[i] == e[i]);
                    }
                }
            },
            None => {},
        }
    }
}

/// Whether `a` is `b`, or either equals the other as JSON.
pub open spec fn same_or_equal(a: JsonView, b: JsonView) -> bool {
    a == b || json_eq_either(a, b)
}

/// `distinct` holds only values found at the key, and every value found
/// there is one it holds or equals one it holds.
pub proof fn law_distinct_covers_values(vals: Seq<JsonView>, r: Seq<JsonView>)
    requires
        r.to_multiset() == dedup(vals).to_multiset(),
    ensures
        forall|i: int| 0 <= i < r.len() ==> vals.contains(#[trigger] r[i]),
        forall|k: int|
            #![trigger vals[k]]
            0 <= k < vals.len() ==> exists|j: int|
                0 <= j < r.len() && same_or_equal(#[trigger] r[j], vals[k]),
{
    assert forall|i: int| 0 <= i < r.len() implies vals.contains(#[trigger] r[i]) by {
        lemma_kept_value_is_found(vals, r, i);
    }
    assert forall|k: int| #![trigger vals[k]] 0 <= k < vals.len() implies exists|j: int|
        0 <= j < r.len() && same_or_equal(#[trigger] r[j], vals[k]) by {
        lemma_found_value_is_kept(vals, r, k);
    }
}

/// A value that `distinct` holds was found at the key.
proof fn lemma_kept_value_is_found(vals: Seq<JsonView>, r: Seq<JsonView>, i: int)
    requires
        r.to_multiset() == dedup(vals).to_multiset(),
        0 <= i < r.len(),
    ensures
        vals.contains(r[i]),
{
    let d = dedup(vals);
    lemma_dedup(vals);
    assert(r.contains(r[i]));
    lemma_same_elements(r, d, r[i]);
    let k = choose|k: int| 0 <= k < d.len() && d[k] == r[i];
    assert(vals.contains(d[k]));
}

/// A value found at the key is one that `distinct` holds, or equals one.
proof fn lemma_found_value_is_kept(vals: Seq<JsonView>, r: Seq<JsonView>, k: int)
    requires
        r.to_multiset() == dedup(vals).to_multiset(),
        0 <= k < vals.len(),
    ensures
        exists|j: int| 0 <= j < r.len() && same_or_equal(#[trigger] r[j], vals[k]),
{
    let d = dedup(vals);
    lemma_dedup(vals);
    assert(vals[k] == vals[k]);
    let m = choose|m: int| 0 <= m < d.len() && same_or_equal(#[trigger] d[m], vals[k]);
    assert(d.contains(d[m]));
    lemma_same_elements(d, r, d[m]);
    let j = choose|j: int| 0 <= j < r.len() && r[j] == d[m];
    assert(same_or_equal(r[j], vals[k]));
}

/// `distinct` holds no value twice: of values read as JSON, no two that it
/// holds are equal.
pub proof fn law_distinct_holds_no_value_twice(vals: Seq<JsonView>, r: Seq<JsonView>)
    requires
        r.to_multiset() == dedup(vals).to_multiset(),
        forall|k: int| 0 <= k < vals.len() ==> well_formed(#[trigger] vals[k]),
    ensures
        forall|i: int, j: int|
            0 <= i < r.len() && 0 <= j < r.len() && i != j ==> !json_eq_either(
                #[trigger] r[i],
                #[trigger] r[j],
            ),
{
    reveal(json_eq_either);
    let d = dedup(vals);
    lemma_dedup(vals);
    assert forall|p: int, q: int| 0 <= p < d.len() && 0 <= q < d.len() && p != q implies d[p]
        != d[q] by {
        assert(vals.contains(d[p]));
        let k = choose|k: int| 0 <= k < vals.len() && vals[k] == d[p];
        lemma_json_eq_reflexive(d[p]);
        if p < q {
            assert(!json_eq_either(d[p], d[q]));
        } else {
            assert(!json_eq_either(d[q], d[p]));
        }
    }
    assert(d.no_duplicates());
    d.lemma_multiset_has_no_duplicates();
    r.lemma_multiset_has_no_duplicates_conv();
    assert forall|i: int, j: int|
        0 <= i < r.len() && 0 <= j < r.len() && i != j implies !json_eq_either(
        #[trigger] r[i],
        #[trigger] r[j],
    ) by {
        assert(r.contains(r[i]));
        assert(r.contains(r[j]));
        lemma_same_elements(r, d, r[i]);
        lemma_same_elements(r, d, r[j]);
        let p = choose|p: int| 0 <= p < d.len() && d[p] == r[i];
        let q = choose|q: int| 0 <= q < d.len() && d[q] == r[j];
        assert(r[i] != r[j]);
        if p < q {
            assert(!json_eq_either(d[p], d[q]));
        } else {
            assert(!json_eq_either(d[q], d[p]));
        }
    }
}

/// Of a trace whose events hold each key of each object once (as every
/// trace loaded from text does), `distinct` holds no value twice.
pub proof fn law_distinct_of_well_formed_trace(s: Seq<JsonView>, key: Seq<char>, r: Seq<JsonView>)
    requires
        forall|i: int| 0 <= i < s.len() ==> well_formed(#[trigger] s[i]),
        r.to_multiset() == dedup(s.filter_map(field_at(key))).to_multiset(),
    ensures
        forall|i: int, j: int|
            0 <= i < r.len() && 0 <= j < r.len() && i != j ==> !json_eq_either(
                #[trigger] r[i],
                #[trigger] r[j],
            ),
{
    lemma_plucked_well_formed(s, key);
    law_distinct_holds_no_value_twice(s.filter_map(field_at(key)), r);
}

/// The values at a key of well-formed events are well formed.
proof fn lemma_plucked_well_formed(s: Seq<JsonView>, key: Seq<char>)
    requires
        forall|i: int| 0 <= i < s.len() ==> well_formed(#[trigger] s[i]),
    ensures
        forall|k: int|
            0 <= k < s.filter_map(field_at(key)).len() ==> well_formed(
                #[trigger] s.filter_map(field_at(key))[k],
            ),
    decreases s.len(),
{
    if s.len() > 0 {
        let init = s.drop_last();
        assert forall|i: int| 0 <= i < init.len() implies well_formed(#[trigger] init[i]) by {
            assert(init[i] == s[i]);
        }
        lemma_plucked_well_formed(init, key);
        let e = s.last();
        assert(well_formed(e)) by {
            assert(e == s[s.len() - 1]);
        }
        match field_of(e, key) {
            Some(v) => {
                let ps = e->Object_0;
                lemma_key_index(ps, key);
                let i = key_index(ps, key)->0;
                assert(v == ps[i].1);
                let f = init.filter_map(field_at(key));
                assert(s.filter_map(field_at(key)) == f + seq![v]);
                assert forall|k: int| 0 <= k < f.len() + 1 implies well_formed(
                    #[trigger] (f + seq![v])[k],
                ) by {
                    if k < f.len() {
                        assert((f + seq![v])[k] == f[k]);
                    }
                }
            },
            None => {},
        }
    }
}

/// Two sequences with the same multiset of elements contain the same elements.
pub proof fn lemma_same_elements<A>(a: Seq<A>, b: Seq<A>, x: A)
    requires
        a.to_multiset() == b.to_multiset(),
        a.contains(x),
    ensures
        b.contains(x),
{
    vstd::seq_lib::to_multiset_contains(a, x);
    vstd::seq_lib::to_multiset_contains(b, x);
}

/// What `dedup` keeps, and so what `distinct` holds: values of the input,
/// each input value or one equal to it, and, in the order first found, no
/// kept value equal to an earlier one.
#[verifier::rlimit(30)]
pub proof fn lemma_dedup(vals: Seq<JsonView>)
    ensures
        forall|i: int| 0 <= i < dedup(vals).len() ==> vals.contains(#[trigger] dedup(vals)[i]),
        forall|k: int|
            #![trigger vals[k]]
            0 <= k < vals.len() ==> exists|m: int|
                0 <= m < dedup(vals).len() && same_or_equal(#[trigger] dedup(vals)[m], vals[k]),
        forall|i: int, j: int|
            0 <= i < j < dedup(vals).len() ==> !json_eq_either(
                #[trigger] dedup(vals)[i],
                #[trigger] dedup(vals)[j],
            ),
    decreases vals.len(),
{
    if vals.len() > 0 {
        let init = vals.drop_last();
        let x = vals.last();
        lemma_dedup(init);
        let d0 = dedup(init);
        assert forall|i: int| 0 <= i < init.len() implies init[i] == vals[i] by {}
        assert forall|i: int| 0 <= i < d0.len() implies vals.contains(#[trigger] d0[i]) by {
            assert(init.contains(d0[i]));
            let k = choose|k: int| 0 <= k < init.len() && init[k] == d0[i];
            assert(vals[k] == d0[i]);
        }
        if exists|j: int| 0 <= j < d0.len() && json_eq_either(#[trigger] d0[j], x) {
            let w = choose|j: int| 0 <= j < d0.len() && json_eq_either(#[trigger] d0[j], x);
            assert(dedup(vals) == d0);
            assert forall|k: int| #![trigger vals[k]] 0 <= k < vals.len() implies exists|m: int|
                0 <= m < dedup(vals).len() && same_or_equal(#[trigger] dedup(vals)[m], vals[k]) by {
                if k < init.len() {
                    assert(vals[k] == init[k]);
                } else {
                    assert(vals[k] == x);
                    assert(same_or_equal(d0[w], x));
                }
            }
        } else {
            let d = d0.push(x);
            assert(dedup(vals) == d);
            assert(vals.contains(x)) by {
                assert(vals[vals.len() - 1] == x);
            }
            assert forall|k: int| #![trigger vals[k]] 0 <= k < vals.len() implies exists|m: int|
                0 <= m < d.len() && same_or_equal(#[trigger] d[m], vals[k]) by {
                if k < init.len() {
                    assert(vals[k] == init[k]);
                    let m = choose|m: int| 0 <= m < d0.len() && same_or_equal(#[trigger] d0[m], init[k]);
                    assert(d[m] == d0[m]);
                } else {
                    assert(d[d0.len() as int] == x);
                }
            }
        }
    }
}

/// Every event that `filter_eq` keeps (and so every event that `count_eq`
/// counts and `first_eq` or `last_eq` finds) holds, at each key of the filter,
/// a value equal as JSON to the value paired with that key, and that very
/// value where it is null, a boolean or a string; an event with no value at
/// one of the keys is never kept.
pub proof fn law_kept_events_hold_every_pair(s: Seq<JsonView>, fs: Seq<(Seq<char>, JsonView)>)
    ensures
        forall|i: int, j: int|
            #![trigger s.filter(matcher(fs))[i], fs[j]]
            0 <= i < s.filter(matcher(fs)).len() && 0 <= j < fs.len() ==> field_of(
                s.filter(matcher(fs))[i],
                fs[j].0,
            ) is Some && json_eq(field_of(s.filter(matcher(fs))[i], fs[j].0)->0, fs[j].1),
        forall|i: int, j: int|
            #![trigger s.filter(matcher(fs))[i], fs[j]]
            0 <= i < s.filter(matcher(fs)).len() && 0 <= j < fs.len() && (fs[j].1 is Null
                || fs[j].1 is Bool || fs[j].1 is Str) ==> field_of(s.filter(matcher(fs))[i], fs[j].0)
                == Some(fs[j].1),
        forall|e: JsonView, j: int|
            #![trigger s.filter(matcher(fs)).contains(e), fs[j]]
            0 <= j < fs.len() && field_of(e, fs[j].0) is None ==> !s.filter(matcher(fs)).contains(e),
{
    let p = matcher(fs);
    assert forall|i: int, j: int|
        #![trigger s.filter(matcher(fs))[i], fs[j]]
        0 <= i < s.filter(matcher(fs)).len() && 0 <= j < fs.len() implies (field_of(
        s.filter(matcher(fs))[i],
        fs[j].0,
    ) is Some && json_eq(field_of(s.filter(matcher(fs))[i], fs[j].0)->0, fs[j].1)) && ((fs[j].1 is Null || fs[j].1 is Bool || fs[j].1 is Str) ==> field_of(
        s.filter(matcher(fs))[i],
        fs[j].0,
    ) == Some(fs[j].1)) by {
        s.lemma_filter_pred(p, i);
        let ev = s.filter(p)[i];
        assert(field_matches(ev, fs[j]));
        let w = field_of(ev, fs[j].0)->0;
        assert(field_of(ev, fs[j].0) == Some(w) && json_eq(w, fs[j].1));
        law_json_eq_on_scalars(fs[j].1, w);
    }
    assert forall|e: JsonView, j: int|
        0 <= j < fs.len() && field_of(e, fs[j].0) is None implies !#[trigger] s.filter(p).contains(e)
        && #[trigger] fs[j] == fs[j] by {
        if s.filter(p).contains(e) {
            let i = choose|i: int| 0 <= i < s.filter(p).len() && s.filter(p)[i] == e;
            s.lemma_filter_pred(p, i);
            assert(field_matches(e, fs[j]));
        }
    }
}

/// `by_kind` labels an event by what it holds at the key: a string by its
/// characters, any other value by its JSON text (`null`, `true`, `false`, a
/// number's text); `<no-kind>` is the label of an event with no value there,
/// and of no other event but one holding the string or number text
/// `<no-kind>` there.
pub proof fn law_label_names_the_value(e: JsonView, k: Seq<char>)
    ensures
        field_of(e, k) is None ==> label_of(e, k) == "<no-kind>"@,
        forall|t: Seq<char>| field_of(e, k) == Some(JsonView::Str(t)) ==> label_of(e, k) == t,
        forall|v: JsonView| field_of(e, k) == Some(v) && !(v is Str) ==> label_of(e, k) == json_text(v),
        field_of(e, k) == Some(JsonView::Null) ==> label_of(e, k) == "null"@,
        field_of(e, k) == Some(JsonView::Bool(true)) ==> label_of(e, k) == "true"@,
        field_of(e, k) == Some(JsonView::Bool(false)) ==> label_of(e, k) == "false"@,
        forall|t: Seq<char>| field_of(e, k) == Some(JsonView::Number(t)) ==> label_of(e, k) == t,
        label_of(e, k) == "<no-kind>"@ ==> (field_of(e, k) is None || field_of(e, k) == Some(
            JsonView::Str("<no-kind>"@),
        ) || field_of(e, k) == Some(JsonView::Number("<no-kind>"@))),
{
    reveal_strlit("<no-kind>");
    reveal_strlit("null");
    reveal_strlit("true");
    reveal_strlit("false");
    reveal_strlit("[");
    reveal_strlit("{");
    match field_of(e, k) {
        Some(JsonView::Array(xs)) => {
            assert(json_text(JsonView::Array(xs))[0] == '[');
        },
        Some(JsonView::Object(ps)) => {
            assert(json_text(JsonView::Object(ps))[0] == '{');
        },
        Some(JsonView::Null) => {
            assert("null"@[0] != "<no-kind>"@[0]);
        },
        Some(JsonView::Bool(b)) => {
            assert("true"@[0] != "<no-kind>"@[0]);
            assert("false"@[0] != "<no-kind>"@[0]);
        },
        _ => {},
    }
}

/// `numbers_at` keeps the text of every number at the key and nothing else:
/// an event holding a number there gives that number's text, any other event
/// gives nothing; so there are as many texts as events holding a number at
/// the key, and each text is that of a number some event holds there.
pub proof fn law_numbers_at_keeps_every_number(s: Seq<JsonView>, k: Seq<char>)
    ensures
        forall|e: JsonView|
            #![trigger number_at(k)(e)]
            field_of(e, k) matches Some(JsonView::Number(t)) ==> number_at(k)(e) == Some(t),
        forall|e: JsonView|
            !(field_of(e, k) matches Some(JsonView::Number(_))) ==> #[trigger] number_at(k)(e) is None,
        s.filter_map(number_at(k)).len() == s.filter(
            |e: JsonView| field_of(e, k) matches Some(JsonView::Number(_)),
        ).len(),
        forall|t: Seq<char>|
            #[trigger] s.filter_map(number_at(k)).contains(t) <==> exists|i: int|
                0 <= i < s.len() && field_of(#[trigger] s[i], k) == Some(JsonView::Number(t)),
    decreases s.len(),
{
    let f = number_at(k);
    let h = |e: JsonView| field_of(e, k) matches Some(JsonView::Number(_));
    reveal_with_fuel(Seq::filter, 1);
    if s.len() > 0 {
        let init = s.drop_last();
        law_numbers_at_keeps_every_number(init, k);
        assert forall|j: int| 0 <= j < init.len() implies init[j] == s[j] by {}
        let r0 = init.filter_map(f);
        assert forall|t: Seq<char>| #[trigger] s.filter_map(f).contains(t) <==> exists|i: int|
            0 <= i < s.len() && field_of(#[trigger] s[i], k) == Some(JsonView::Number(t)) by {
            match f(s.last()) {
                Some(x) => {
                    assert(s.filter_map(f) == r0 + seq![x]);
                    if s.filter_map(f).contains(t) {
                        let m = choose|m: int| 0 <= m < s.filter_map(f).len() && s.filter_map(f)[m] == t;
                        if m < r0.len() {
                            assert(r0[m] == t);
                            assert(r0.contains(t));
                            let i = choose|i: int| 0 <= i < init.len() && field_of(#[trigger] init[i], k)
                                == Some(JsonView::Number(t));
                            assert(s[i] == init[i]);
                        } else {
                            assert(s[s.len() - 1] == s.last());
                        }
                    }
                    if exists|i: int| 0 <= i < s.len() && field_of(#[trigger] s[i], k) == Some(
                        JsonView::Number(t),
                    ) {
                        let i = choose|i: int| 0 <= i < s.len() && field_of(#[trigger] s[i], k) == Some(
                            JsonView::Number(t),
                        );
                        if i < init.len() {
                            assert(init[i] == s[i]);
                            assert(r0.contains(t));
                            let m = choose|m: int| 0 <= m < r0.len() && r0[m] == t;
                            assert(s.filter_map(f)[m] == t);
                        } else {
                            assert(s.filter_map(f)[r0.len() as int] == t);
                        }
                    }
                },
                None => {
                    assert(s.filter_map(f) == r0);
                    if exists|i: int| 0 <= i < s.len() && field_of(#[trigger] s[i], k) == Some(
                        JsonView::Number(t),
                    ) {
                        let i = choose|i: int| 0 <= i < s.len() && field_of(#[trigger] s[i], k) == Some(
                            JsonView::Number(t),
                        );
                        if i < init.len() {
                            assert(init[i] == s[i]);
                        } else {
                            assert(s[i] == s.last());
                        }
                    }
                    if r0.contains(t) {
                        let i = choose|i: int| 0 <= i < init.len() && field_of(#[trigger] init[i], k)
                            == Some(JsonView::Number(t));
                        assert(s[i] == init[i]);
                    }
                },
            }
        }
    }
}

/// A step forward moves the cursor onto the next event, or past the end
/// from the last event or beyond it; a step back moves it onto the event
/// before, or before the start from the first event or before it.
pub proof fn law_steps_move_by_one(p: int, n: int)
    requires
        0 <= n,
        -1 <= p <= n,
    ensures
        p + 1 < n ==> next_pos(p, n) == p + 1,
        p + 1 >= n ==> next_pos(p, n) == n,
        p >= 1 ==> prev_pos(p) == p - 1,
        p <= 0 ==> prev_pos(p) == -1,
{
}

/// A look-ahead of `w` events from position `p` shows the events right
/// after the cursor, in order: `w` of them, or all that are left where
/// fewer are left.
pub proof fn law_peek_shows_following_events(s: Seq<JsonView>, p: int, w: int)
    requires
        -1 <= p <= s.len(),
        0 <= w,
    ensures
        s.subrange(
            ahead_start(p, s.len() as int),
            ahead_end(ahead_start(p, s.len() as int), w, s.len() as int),
        ).len() == (if p + 1 + w <= s.len() {
            w
        } else if p < s.len() {
            s.len() - p - 1
        } else {
            0
        }),
        forall|i: int|
            0 <= i < s.subrange(
                ahead_start(p, s.len() as int),
                ahead_end(ahead_start(p, s.len() as int), w, s.len() as int),
            ).len() ==> #[trigger] s.subrange(
                ahead_start(p, s.len() as int),
                ahead_end(ahead_start(p, s.len() as int), w, s.len() as int),
            )[i] == s[p + 1 + i],
{
}

/// A load stops at its first line that is neither blank nor a JSON object
/// (a line serde_json could not read, or a value of another kind), and
/// every line before it is blank or an object; the error names serde_json's
/// message for the first kind and `not a JSON object` for the second. A load
/// that does not stop holds the values of its lines that are not blank, in
/// order.
pub proof fn law_load_stops_at_first_bad_line(ls: Seq<LineView>)
    ensures
        first_bad_line(ls) matches Some(i) ==> 0 <= i < ls.len() && (ls[i] is Malformed || (
        ls[i] is Parsed && !(ls[i]->Parsed_0 is Object))) && forall|j: int|
            0 <= j < i ==> (#[trigger] ls[j] is Blank || (ls[j] is Parsed && ls[j]->Parsed_0 is Object)),
        first_bad_line(ls) is None ==> forall|j: int|
            0 <= j < ls.len() ==> (#[trigger] ls[j] is Blank || (ls[j] is Parsed
                && ls[j]->Parsed_0 is Object)),
        forall|m: Seq<char>| #[trigger] bad_line_message(LineView::Malformed(m)) == m,
        forall|l: LineView| l is Parsed ==> #[trigger] bad_line_message(l) == "not a JSON object"@,
        loaded_events(ls) == ls.filter(|l: LineView| l is Parsed).map_values(
            |l: LineView| l->Parsed_0,
        ),
    decreases ls.len(),
{
    lemma_first_index(ls, bad_line());
    reveal_with_fuel(Seq::filter, 1);
    if ls.len() > 0 {
        let init = ls.drop_last();
        law_load_stops_at_first_bad_line(init);
        let q = |l: LineView| l is Parsed;
        let g = |l: LineView| l->Parsed_0;
        let f0 = init.filter(q).map_values(g);
        if ls.last() is Parsed {
            assert(ls.filter(q) == init.filter(q).push(ls.last()));
            assert(ls.filter(q).map_values(g) =~= f0.push(ls.last()->Parsed_0));
            assert(loaded_events(ls) =~= loaded_events(init).push(ls.last()->Parsed_0));
        } else {
            assert(ls.filter(q) == init.filter(q));
        }
    }
}

} // verus!
