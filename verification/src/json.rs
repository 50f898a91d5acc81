use vstd::prelude::*;
use vstd::std_specs::cmp::PartialEqSpecImpl;

verus! {

broadcast use vstd::std_specs::vec::group_vec_axioms;

/// A JSON value held as plain data.
///
/// Numbers keep the text that serde_json prints for them (`1`, `-3`, `1.5`,
/// `1e300`), so that no floating-point value is needed to hold one.
/// An object keeps its members in order; a lookup takes the first member
/// with the key asked for (values read with serde_json never repeat a key).
#[derive(Debug)]
pub enum JsonValue {
    Null,
    Bool(bool),
    Number(String),
    Str(String),
    Array(Vec<JsonValue>),
    Object(Vec<(String, JsonValue)>),
}

/// The mathematical model of a JSON value.
pub enum JsonView {
    Null,
    Bool(bool),
    Number(Seq<char>),
    Str(Seq<char>),
    Array(Seq<JsonView>),
    Object(Seq<(Seq<char>, JsonView)>),
}

impl View for JsonValue {
    type V = JsonView;

    open spec fn view(&self) -> JsonView
        decreases self,
    {
        match self {
            JsonValue::Null => JsonView::Null,
            JsonValue::Bool(b) => JsonView::Bool(*b),
            JsonValue::Number(t) => JsonView::Number(t@),
            JsonValue::Str(s) => JsonView::Str(s@),
            JsonValue::Array(xs) => JsonView::Array(
                Seq::new(
                    xs@.len(),
                    |i: int|
                        if 0 <= i < xs@.len() {
                            xs@[i].view()
                        } else {
                            JsonView::Null
                        },
                ),
            ),
            JsonValue::Object(ps) => JsonView::Object(
                Seq::new(
                    ps@.len(),
                    |i: int|
                        (
                            ps@[i].0@,
                            if 0 <= i < ps@.len() {
                                ps@[i].1.view()
                            } else {
                                JsonView::Null
                            },
                        ),
                ),
            ),
        }
    }
}

/// The views of a sequence of values, one for one.
pub open spec fn views(s: Seq<JsonValue>) -> Seq<JsonView> {
    Seq::new(s.len(), |i: int| s[i]@)
}

/// Appending a value appends its view.
pub proof fn lemma_views_push(s: Seq<JsonValue>, x: JsonValue)
    ensures
        views(s.push(x)) == views(s).push(x@),
{
    assert(views(s.push(x)) =~= views(s).push(x@));
}

/// Inserting a value inserts its view.
pub proof fn lemma_views_insert(s: Seq<JsonValue>, i: int, x: JsonValue)
    requires
        0 <= i <= s.len(),
    ensures
        views(s.insert(i, x)) == views(s).insert(i, x@),
{
    assert(views(s.insert(i, x)) =~= views(s).insert(i, x@));
}

/// The text of the float zero, either sign.
pub open spec fn is_float_zero(t: Seq<char>) -> bool {
    t == "0.0"@ || t == "-0.0"@
}

/// Equality of two numbers given by their serde_json text: the same text
/// means the same number, and the float zero equals itself whatever its sign.
pub open spec fn number_eq(x: Seq<char>, y: Seq<char>) -> bool {
    x == y || (is_float_zero(x) && is_float_zero(y))
}

/// The position of the first member of `ps` whose key is `k`.
pub open spec fn key_index(ps: Seq<(Seq<char>, JsonView)>, k: Seq<char>) -> Option<int>
    decreases ps.len(),
{
    if ps.len() == 0 {
        None
    } else {
        match key_index(ps.drop_last(), k) {
            Some(i) => Some(i),
            None => if ps.last().0 == k {
                Some(ps.len() - 1)
            } else {
                None
            },
        }
    }
}

/// What `value.get(key)` gives: the member at `key` of an object, and
/// nothing for any other value.
pub open spec fn field_of(v: JsonView, k: Seq<char>) -> Option<JsonView> {
    match v {
        JsonView::Object(ps) => match key_index(ps, k) {
            Some(i) => Some(ps[i].1),
            None => None,
        },
        _ => None,
    }
}

/// Equality of JSON values: scalars by content, arrays element by element,
/// objects as maps from keys to values.
pub open spec fn json_eq(a: JsonView, b: JsonView) -> bool
    decreases a,
{
    match a {
        JsonView::Null => b is Null,
        JsonView::Bool(x) => b == JsonView::Bool(x),
        JsonView::Number(x) => b matches JsonView::Number(y) && number_eq(x, y),
        JsonView::Str(x) => b == JsonView::Str(x),
        JsonView::Array(xs) => b matches JsonView::Array(ys) && xs.len() == ys.len() && forall|i: int|
            #![trigger xs[i]]
            0 <= i < xs.len() ==> json_eq(xs[i], ys[i]),
        JsonView::Object(ps) => b matches JsonView::Object(qs) && ps.len() == qs.len() && forall|
            i: int,
        |
            #![trigger ps[i]]
            0 <= i < ps.len() ==> (match key_index(qs, ps[i].0) {
                Some(j) => json_eq(ps[i].1, qs[j].1),
                None => false,
            }),
    }
}

/// Whether every object in the value, at any depth, holds each key once
/// (as every value read with serde_json does).
pub open spec fn well_formed(v: JsonView) -> bool
    decreases v,
{
    match v {
        JsonView::Array(xs) => forall|i: int|
            #![trigger xs[i]]
            0 <= i < xs.len() ==> well_formed(xs[i]),
        JsonView::Object(ps) => {
            &&& forall|i: int, j: int| 0 <= i < j < ps.len() ==> #[trigger] ps[i].0 != #[trigger] ps[j].0
            &&& forall|i: int| #![trigger ps[i]] 0 <= i < ps.len() ==> well_formed(ps[i].1)
        },
        _ => true,
    }
}

/// A well-formed value equals itself.
pub proof fn lemma_json_eq_reflexive(v: JsonView)
    requires
        well_formed(v),
    ensures
        json_eq(v, v),
    decreases v,
{
    match v {
        JsonView::Array(xs) => {
            assert forall|i: int| #![trigger xs[i]] 0 <= i < xs.len() implies json_eq(
                xs[i],
                xs[i],
            ) by {
                lemma_json_eq_reflexive(xs[i]);
            }
        },
        JsonView::Object(ps) => {
            assert forall|i: int| #![trigger ps[i]] 0 <= i < ps.len() implies (match key_index(
                ps,
                ps[i].0,
            ) {
                Some(j) => json_eq(ps[i].1, ps[j].1),
                None => false,
            }) by {
                lemma_key_index(ps, ps[i].0);
                lemma_json_eq_reflexive(ps[i].1);
            }
        },
        _ => {},
    }
}

/// The keys of an object's members, in order.
pub open spec fn keys(ps: Seq<(Seq<char>, JsonView)>) -> Seq<Seq<char>> {
    ps.map_values(|p: (Seq<char>, JsonView)| p.0)
}

/// Of two objects of the same size, each holding every key once, if every
/// key of the first is a key of the second, then every key of the second
/// is a key of the first.
pub proof fn lemma_keys_cover(ps: Seq<(Seq<char>, JsonView)>, qs: Seq<(Seq<char>, JsonView)>)
    requires
        ps.len() == qs.len(),
        forall|i: int, j: int| 0 <= i < j < ps.len() ==> #[trigger] ps[i].0 != #[trigger] ps[j].0,
        forall|i: int, j: int| 0 <= i < j < qs.len() ==> #[trigger] qs[i].0 != #[trigger] qs[j].0,
        forall|i: int| 0 <= i < ps.len() ==> key_index(qs, #[trigger] ps[i].0) is Some,
    ensures
        forall|j: int| 0 <= j < qs.len() ==> key_index(ps, #[trigger] qs[j].0) is Some,
{
    let kp = keys(ps);
    let kq = keys(qs);
    assert(kp.no_duplicates()) by {
        assert forall|i: int, j: int| 0 <= i < kp.len() && 0 <= j < kp.len() && i != j implies kp[i]
            != kp[j] by {
            if i < j {
                assert(ps[i].0 != ps[j].0);
            } else {
                assert(ps[j].0 != ps[i].0);
            }
        }
    }
    assert(kq.no_duplicates()) by {
        assert forall|i: int, j: int| 0 <= i < kq.len() && 0 <= j < kq.len() && i != j implies kq[i]
            != kq[j] by {
            if i < j {
                assert(qs[i].0 != qs[j].0);
            } else {
                assert(qs[j].0 != qs[i].0);
            }
        }
    }
    kp.unique_seq_to_set();
    kq.unique_seq_to_set();
    assert(kp.to_set().subset_of(kq.to_set())) by {
        assert forall|k: Seq<char>| kp.to_set().contains(k) implies kq.to_set().contains(k) by {
            let i = choose|i: int| 0 <= i < kp.len() && kp[i] == k;
            assert(ps[i].0 == k);
            lemma_key_index(qs, ps[i].0);
            let j = key_index(qs, ps[i].0)->0;
            assert(kq[j] == k);
        }
    }
    assert forall|j: int| 0 <= j < qs.len() implies key_index(ps, #[trigger] qs[j].0) is Some by {
        lemma_key_index(ps, qs[j].0);
        if key_index(ps, qs[j].0) is None {
            assert(kq[j] == qs[j].0);
            assert(kq.to_set().contains(qs[j].0));
            assert(!kp.to_set().contains(qs[j].0));
            kp.to_set().lemma_subset_not_in_lt(kq.to_set(), qs[j].0);
        }
    }
}

/// Equality of well-formed values is symmetric.
pub proof fn lemma_json_eq_symmetric(a: JsonView, b: JsonView)
    requires
        well_formed(a),
        well_formed(b),
        json_eq(a, b),
    ensures
        json_eq(b, a),
    decreases a,
{
    match a {
        JsonView::Array(xs) => {
            let ys = b->Array_0;
            assert forall|i: int| #![trigger ys[i]] 0 <= i < ys.len() implies json_eq(ys[i], xs[i]) by {
                assert(json_eq(xs[i], ys[i]));
                lemma_json_eq_symmetric(xs[i], ys[i]);
            }
        },
        JsonView::Object(ps) => {
            let qs = b->Object_0;
            assert forall|i: int| 0 <= i < ps.len() implies key_index(qs, #[trigger] ps[i].0) is Some by {
                assert(match key_index(qs, ps[i].0) {
                    Some(j) => json_eq(ps[i].1, qs[j].1),
                    None => false,
                });
            }
            lemma_keys_cover(ps, qs);
            assert forall|j: int| #![trigger qs[j]] 0 <= j < qs.len() implies (match key_index(
                ps,
                qs[j].0,
            ) {
                Some(i) => json_eq(qs[j].1, ps[i].1),
                None => false,
            }) by {
                assert(key_index(ps, qs[j].0) is Some);
                lemma_key_index(ps, qs[j].0);
                let i = key_index(ps, qs[j].0)->0;
                assert(match key_index(qs, ps[i].0) {
                    Some(t) => json_eq(ps[i].1, qs[t].1),
                    None => false,
                });
                lemma_key_index(qs, ps[i].0);
                let t = key_index(qs, ps[i].0)->0;
                if t != j {
                    if t < j {
                        assert(qs[t].0 != qs[j].0);
                    } else {
                        assert(qs[j].0 != qs[t].0);
                    }
                }
                lemma_json_eq_symmetric(ps[i].1, qs[j].1);
            }
        },
        _ => {},
    }
}

/// Equality of well-formed values is transitive.
pub proof fn lemma_json_eq_transitive(a: JsonView, b: JsonView, c: JsonView)
    requires
        well_formed(a),
        well_formed(b),
        well_formed(c),
        json_eq(a, b),
        json_eq(b, c),
    ensures
        json_eq(a, c),
    decreases a,
{
    match a {
        JsonView::Array(xs) => {
            let ys = b->Array_0;
            let zs = c->Array_0;
            assert forall|i: int| #![trigger xs[i]] 0 <= i < xs.len() implies json_eq(xs[i], zs[i]) by {
                assert(json_eq(xs[i], ys[i]));
                assert(json_eq(ys[i], zs[i]));
                lemma_json_eq_transitive(xs[i], ys[i], zs[i]);
            }
        },
        JsonView::Object(ps) => {
            let qs = b->Object_0;
            let rs = c->Object_0;
            assert forall|i: int| #![trigger ps[i]] 0 <= i < ps.len() implies (match key_index(
                rs,
                ps[i].0,
            ) {
                Some(l) => json_eq(ps[i].1, rs[l].1),
                None => false,
            }) by {
                lemma_key_index(qs, ps[i].0);
                let j = key_index(qs, ps[i].0)->0;
                assert(json_eq(ps[i].1, qs[j].1));
                assert(match key_index(rs, qs[j].0) {
                    Some(l) => json_eq(qs[j].1, rs[l].1),
                    None => false,
                });
                lemma_key_index(rs, qs[j].0);
                let l = key_index(rs, qs[j].0)->0;
                lemma_json_eq_transitive(ps[i].1, qs[j].1, rs[l].1);
            }
        },
        _ => {},
    }
}

/// The members of an object, each key and value taken by its view.
pub open spec fn members(ps: Seq<(String, JsonValue)>) -> Seq<(Seq<char>, JsonView)> {
    Seq::new(ps.len(), |i: int| (ps[i].0@, ps[i].1@))
}

/// The view of an array value is the sequence of its elements' views.
pub proof fn lemma_view_array(xs: Vec<JsonValue>)
    ensures
        JsonValue::Array(xs)@ == JsonView::Array(views(xs@)),
{
    let v = JsonValue::Array(xs);
    assert(v@->Array_0 =~= views(xs@));
}

/// The view of an object value is the sequence of its members' views.
pub proof fn lemma_view_object(ps: Vec<(String, JsonValue)>)
    ensures
        JsonValue::Object(ps)@ == JsonView::Object(members(ps@)),
{
    let v = JsonValue::Object(ps);
    assert(v@ is Object);
    assert(v@->Object_0 =~= members(ps@));
}

/// `key_index` finds the first member with the key, and only when there is one.
pub proof fn lemma_key_index(ps: Seq<(Seq<char>, JsonView)>, k: Seq<char>)
    ensures
        match key_index(ps, k) {
            Some(i) => 0 <= i < ps.len() && ps[i].0 == k && forall|j: int|
                0 <= j < i ==> ps[j].0 != k,
            None => forall|j: int| 0 <= j < ps.len() ==> ps[j].0 != k,
        },
    decreases ps.len(),
{
    if ps.len() > 0 {
        let init = ps.drop_last();
        lemma_key_index(init, k);
        assert forall|j: int| 0 <= j < init.len() implies init[j] == ps[j] by {}
    }
}

/// Looking up a key in an object gives the value of its first member with
/// that key, and nothing where no member has the key; a value that is not an
/// object has no members.
pub proof fn law_field_of_finds_first_member(v: JsonView, k: Seq<char>)
    ensures
        !(v is Object) ==> field_of(v, k) is None,
        v matches JsonView::Object(ps) ==> (forall|i: int|
            0 <= i < ps.len() && ps[i].0 == k && (forall|j: int| 0 <= j < i ==> ps[j].0 != k)
                ==> field_of(v, k) == Some(#[trigger] ps[i].1)),
        v matches JsonView::Object(ps) ==> ((forall|i: int| 0 <= i < ps.len() ==> #[trigger] ps[i].0 != k)
            ==> field_of(v, k) is None),
{
    if let JsonView::Object(ps) = v {
        lemma_key_index(ps, k);
        assert forall|i: int|
            0 <= i < ps.len() && ps[i].0 == k && (forall|j: int| 0 <= j < i ==> ps[j].0 != k)
                implies field_of(v, k) == Some(#[trigger] ps[i].1) by {
            match key_index(ps, k) {
                Some(t) => {
                    if t < i {
                        assert(ps[t].0 != k);
                    } else if i < t {
                        assert(ps[i].0 != k);
                    }
                },
                None => {
                    assert(ps[i].0 != k);
                },
            }
        }
    }
}

/// Values of different kinds are never equal as JSON; null, booleans and
/// strings equal exactly themselves; two numbers are equal when their texts
/// are the same or both are the float zero (`0.0` or `-0.0`).
pub proof fn law_json_eq_on_scalars(a: JsonView, b: JsonView)
    ensures
        json_eq(a, b) ==> ((a is Null <==> b is Null) && (a is Bool <==> b is Bool) && (a is Number
            <==> b is Number) && (a is Str <==> b is Str) && (a is Array <==> b is Array) && (a is Object
            <==> b is Object)),
        (a is Null || a is Bool || a is Str) ==> (json_eq(a, b) <==> a == b),
        (a is Null || a is Bool || a is Str) ==> (json_eq(b, a) <==> a == b),
        forall|x: Seq<char>, y: Seq<char>|
            #[trigger] json_eq(JsonView::Number(x), JsonView::Number(y)) <==> (x == y || ((x == "0.0"@
                || x == "-0.0"@) && (y == "0.0"@ || y == "-0.0"@))),
{
}

/// Whether two string slices hold the same characters.
pub fn str_eq(a: &str, b: &str) -> (r: bool)
    ensures
        r == (a@ == b@),
{
    let x: String = a.to_owned();
    let y: String = b.to_owned();
    x == y
}

/// The position of the first member of `ps` whose key is `key`.
pub fn find_member(ps: &Vec<(String, JsonValue)>, key: &str) -> (r: Option<usize>)
    ensures
        match r {
            Some(i) => key_index(members(ps@), key@) == Some(i as int) && i < ps@.len(),
            None => key_index(members(ps@), key@) is None,
        },
{
    let ghost m = members(ps@);
    proof {
        lemma_key_index(m, key@);
    }
    let mut i: usize = 0;
    while i < ps.len()
        invariant
            i <= ps@.len(),
            m == members(ps@),
            forall|j: int| 0 <= j < i ==> m[j].0 != key@,
            match key_index(m, key@) {
                Some(t) => 0 <= t < m.len() && m[t].0 == key@ && forall|j: int|
                    0 <= j < t ==> m[j].0 != key@,
                None => forall|j: int| 0 <= j < m.len() ==> m[j].0 != key@,
            },
        decreases ps@.len() - i,
    {
        if str_eq(ps[i].0.as_str(), key) {
            assert(m[i as int].0 == key@);
            return Some(i);
        }
        i = i + 1;
    }
    None
}

impl JsonValue {
    /// The member at `key` of an object; `None` for a missing key or a
    /// value that is not an object.
    pub fn get(&self, key: &str) -> (r: Option<&JsonValue>)
        ensures
            match r {
                Some(v) => field_of(self@, key@) == Some(v@),
                None => field_of(self@, key@) is None,
            },
    {
        match self {
            JsonValue::Object(ps) => {
                proof {
                    lemma_view_object(*ps);
                }
                match find_member(ps, key) {
                    Some(i) => {
                        assert(members(ps@)[i as int].1 == ps@[i as int].1@);
                        Some(&ps[i].1)
                    },
                    None => None,
                }
            },
            _ => None,
        }
    }

    /// Whether this value is an object.
    pub fn is_object(&self) -> (r: bool)
        ensures
            r == (self@ is Object),
    {
        match self {
            JsonValue::Object(_) => true,
            _ => false,
        }
    }

    /// The characters of a string value; `None` for any other value.
    pub fn as_str(&self) -> (r: Option<&str>)
        ensures
            match r {
                Some(s) => self@ == JsonView::Str(s@),
                None => !(self@ is Str),
            },
    {
        match self {
            JsonValue::Str(s) => Some(s.as_str()),
            _ => None,
        }
    }

    /// A string value.
    pub fn string(s: &str) -> (r: JsonValue)
        ensures
            r@ == JsonView::Str(s@),
    {
        JsonValue::Str(s.to_owned())
    }

    /// A copy of this value, equal to it in every part.
    pub fn duplicate(&self) -> (r: JsonValue)
        ensures
            r@ == self@,
        decreases self,
    {
        match self {
            JsonValue::Null => JsonValue::Null,
            JsonValue::Bool(b) => JsonValue::Bool(*b),
            JsonValue::Number(t) => JsonValue::Number(t.clone()),
            JsonValue::Str(s) => JsonValue::Str(s.clone()),
            JsonValue::Array(xs) => {
                let mut out: Vec<JsonValue> = Vec::new();
                let mut i: usize = 0;
                while i < xs.len()
                    invariant
                        *self == JsonValue::Array(*xs),
                        i <= xs@.len(),
                        out@.len() == i,
                        forall|j: int| 0 <= j < i ==> #[trigger] out@[j]@ == xs@[j]@,
                    decreases xs@.len() - i,
                {
                    proof {
                        assert(self->Array_0 == *xs);
                        assert(decreases_to!(*self => self->Array_0));
                        assert(decreases_to!(*xs => xs[i as int]));
                    }
                    out.push(xs[i].duplicate());
                    i = i + 1;
                }
                proof {
                    lemma_view_array(out);
                    lemma_view_array(*xs);
                    assert(views(out@) =~= views(xs@));
                }
                JsonValue::Array(out)
            },
            JsonValue::Object(ps) => {
                let mut out: Vec<(String, JsonValue)> = Vec::new();
                let mut i: usize = 0;
                while i < ps.len()
                    invariant
                        *self == JsonValue::Object(*ps),
                        i <= ps@.len(),
                        out@.len() == i,
                        forall|j: int|
                            0 <= j < i ==> #[trigger] out@[j].0@ == ps@[j].0@ && out@[j].1@
                                == ps@[j].1@,
                    decreases ps@.len() - i,
                {
                    proof {
                        assert(self->Object_0 == *ps);
                        assert(decreases_to!(*self => self->Object_0));
                        assert(decreases_to!(*ps => ps[i as int]));
                        assert(decreases_to!(ps[i as int] => ps[i as int].1));
                    }
                    out.push((ps[i].0.clone(), ps[i].1.duplicate()));
                    i = i + 1;
                }
                proof {
                    lemma_view_object(out);
                    lemma_view_object(*ps);
                    assert(members(out@) =~= members(ps@));
                }
                JsonValue::Object(out)
            },
        }
    }

    /// Whether two values are equal as JSON: scalars by content, arrays
    /// element by element, objects as maps from keys to values.
    pub fn equals(&self, other: &JsonValue) -> (r: bool)
        ensures
            r == json_eq(self@, other@),
        decreases self,
    {
        match (self, other) {
            (JsonValue::Null, JsonValue::Null) => true,
            (JsonValue::Bool(x), JsonValue::Bool(y)) => *x == *y,
            (JsonValue::Number(x), JsonValue::Number(y)) => {
                if *x == *y {
                    true
                } else {
                    number_is_zero(x.as_str()) && number_is_zero(y.as_str())
                }
            },
            (JsonValue::Str(x), JsonValue::Str(y)) => *x == *y,
            (JsonValue::Array(xs), JsonValue::Array(ys)) => {
                proof {
                    lemma_view_array(*xs);
                    lemma_view_array(*ys);
                }
                if xs.len() != ys.len() {
                    return false;
                }
                let mut i: usize = 0;
                while i < xs.len()
                    invariant
                        *self == JsonValue::Array(*xs),
                        *other == JsonValue::Array(*ys),
                        self@ == JsonView::Array(views(xs@)),
                        other@ == JsonView::Array(views(ys@)),
                        i <= xs@.len(),
                        xs@.len() == ys@.len(),
                        forall|j: int| 0 <= j < i ==> json_eq(#[trigger] xs@[j]@, ys@[j]@),
                    decreases xs@.len() - i,
                {
                    if !xs[i].equals(&ys[i]) {
                        assert(!json_eq(self@->Array_0[i as int], other@->Array_0[i as int]));
                        return false;
                    }
                    i = i + 1;
                }
                assert forall|j: int| 0 <= j < self@->Array_0.len() implies json_eq(
                    #[trigger] self@->Array_0[j],
                    other@->Array_0[j],
                ) by {
                    assert(json_eq(xs@[j]@, ys@[j]@));
                }
                true
            },
            (JsonValue::Object(ps), JsonValue::Object(qs)) => {
                if ps.len() != qs.len() {
                    return false;
                }
                let ghost mp = members(ps@);
                let ghost mq = members(qs@);
                proof {
                    lemma_view_object(*ps);
                    lemma_view_object(*qs);
                }
                let mut i: usize = 0;
                while i < ps.len()
                    invariant
                        *self == JsonValue::Object(*ps),
                        *other == JsonValue::Object(*qs),
                        i <= ps@.len(),
                        ps@.len() == qs@.len(),
                        mp == members(ps@),
                        mq == members(qs@),
                        self@ == JsonView::Object(mp),
                        other@ == JsonView::Object(mq),
                        forall|j: int|
                            #![trigger mp[j]]
                            0 <= j < i ==> (match key_index(mq, mp[j].0) {
                                Some(t) => json_eq(mp[j].1, mq[t].1),
                                None => false,
                            }),
                    decreases ps@.len() - i,
                {
                    assert(mp[i as int].0 == ps@[i as int].0@);
                    match find_member(qs, ps[i].0.as_str()) {
                        None => {
                            assert(key_index(mq, mp[i as int].0) is None);
                            return false;
                        },
                        Some(t) => {
                            if !ps[i].1.equals(&qs[t].1) {
                                assert(!json_eq(mp[i as int].1, mq[t as int].1));
                                return false;
                            }
                        },
                    }
                    i = i + 1;
                }
                true
            },
            _ => false,
        }
    }
}

/// Whether a number's text is that of the float zero, either sign.
pub fn number_is_zero(t: &str) -> (r: bool)
    ensures
        r == is_float_zero(t@),
{
    str_eq(t, "0.0") || str_eq(t, "-0.0")
}

impl PartialEq for JsonValue {
    /// Equality as JSON (see `json_eq`).
    fn eq(&self, other: &Self) -> (r: bool) {
        self.equals(other)
    }
}

impl PartialEqSpecImpl for JsonValue {
    open spec fn obeys_eq_spec() -> bool {
        true
    }

    open spec fn eq_spec(&self, other: &Self) -> bool {
        json_eq(self@, other@)
    }
}

impl Clone for JsonValue {
    /// A copy equal to this value in every part.
    fn clone(&self) -> (r: Self)
        ensures
            r@ == self@,
    {
        self.duplicate()
    }
}

} // verus!
