use vstd::prelude::*;
use vstd::string::StrSliceExecFns;
use vstd::string::StringExecFns;

use crate::json::{JsonValue, JsonView, views, members, lemma_view_array, lemma_view_object};

verus! {

broadcast use vstd::std_specs::vec::group_vec_axioms;

/// The hexadecimal digit (lower case) for `n < 16`.
pub open spec fn hex_digit(n: u32) -> char {
    if n < 10 {
        (n + 48) as char
    } else {
        (n + 87) as char
    }
}

/// How one character of a string is written inside a JSON string literal:
/// the quote and the backslash are escaped, so are the control characters
/// below U+0020 (by a short escape where JSON has one, else `\u00XX`);
/// every other character stands for itself.
pub open spec fn escape_char(c: char) -> Seq<char> {
    let n = c as u32;
    if c == '"' {
        seq!['\\', '"']
    } else if c == '\\' {
        seq!['\\', '\\']
    } else if n == 0x08 {
        seq!['\\', 'b']
    } else if n == 0x09 {
        seq!['\\', 't']
    } else if n == 0x0a {
        seq!['\\', 'n']
    } else if n == 0x0c {
        seq!['\\', 'f']
    } else if n == 0x0d {
        seq!['\\', 'r']
    } else if n < 0x20 {
        seq!['\\', 'u', '0', '0', hex_digit(n / 16), hex_digit(n % 16)]
    } else {
        seq![c]
    }
}

/// The escaped form of every character of `s`, in order.
pub open spec fn escape_text(s: Seq<char>) -> Seq<char>
    decreases s.len(),
{
    if s.len() == 0 {
        Seq::empty()
    } else {
        escape_text(s.drop_last()) + escape_char(s.last())
    }
}

/// The JSON string literal for `s`.
pub open spec fn quoted(s: Seq<char>) -> Seq<char> {
    seq!['"'] + escape_text(s) + seq!['"']
}

/// `serde_json::to_string` on a string slice.
///
/// The contract claims that serde_json writes a string as a quoted literal
/// with exactly the escapes of `escape_char` (its table `ESCAPE` in `ser.rs`),
/// and that serialising a `str` does not fail.
#[verifier::external_body]
fn json_string_literal(s: &str) -> (r: String)
    ensures
        r@ == quoted(s@),
{
    match serde_json::to_string(s) {
        Ok(t) => t,
        Err(_) => String::new(),
    }
}

/// The compact JSON text of a value, as serde_json prints one: no spaces,
/// members and elements separated by commas, object members in the order held.
pub open spec fn json_text(v: JsonView) -> Seq<char>
    decreases v,
{
    match v {
        JsonView::Null => "null"@,
        JsonView::Bool(b) => if b {
            "true"@
        } else {
            "false"@
        },
        JsonView::Number(t) => t,
        JsonView::Str(s) => quoted(s),
        JsonView::Array(xs) => "["@ + items_text(xs) + "]"@,
        JsonView::Object(ps) => "{"@ + members_text(ps) + "}"@,
    }
}

/// The texts of `xs`, separated by commas.
pub open spec fn items_text(xs: Seq<JsonView>) -> Seq<char>
    decreases xs,
{
    if xs.len() == 0 {
        Seq::empty()
    } else if xs.len() == 1 {
        json_text(xs[0])
    } else {
        items_text(xs.subrange(0, xs.len() - 1)) + ","@ + json_text(xs[xs.len() - 1])
    }
}

/// The members of an object as `"key":value`, separated by commas.
pub open spec fn members_text(ps: Seq<(Seq<char>, JsonView)>) -> Seq<char>
    decreases ps,
{
    if ps.len() == 0 {
        Seq::empty()
    } else if ps.len() == 1 {
        quoted(ps[0].0) + ":"@ + json_text(ps[0].1)
    } else {
        members_text(ps.subrange(0, ps.len() - 1)) + ","@ + quoted(ps[ps.len() - 1].0) + ":"@
            + json_text(ps[ps.len() - 1].1)
    }
}

impl JsonValue {
    /// The compact JSON text of this value.
    pub fn to_json_text(&self) -> (r: String)
        ensures
            r@ == json_text(self@),
        decreases self,
    {
        match self {
            JsonValue::Null => "null".to_owned(),
            JsonValue::Bool(b) => if *b {
                "true".to_owned()
            } else {
                "false".to_owned()
            },
            JsonValue::Number(t) => t.clone(),
            JsonValue::Str(s) => json_string_literal(s.as_str()),
            JsonValue::Array(xs) => {
                proof {
                    lemma_view_array(*xs);
                }
                let ghost vs = views(xs@);
                let mut out: String = "[".to_owned();
                let mut i: usize = 0;
                while i < xs.len()
                    invariant
                        *self == JsonValue::Array(*xs),
                        vs == views(xs@),
                        i <= xs@.len(),
                        out@ == "["@ + items_text(vs.subrange(0, i as int)),
                    decreases xs@.len() - i,
                {
                    proof {
                        assert(self->Array_0 == *xs);
                        assert(decreases_to!(*self => self->Array_0));
                        assert(decreases_to!(*xs => xs[i as int]));
                    }
                    let ghost before = out@;
                    if i > 0 {
                        out.append(",");
                    }
                    let t = xs[i].to_json_text();
                    out.append(t.as_str());
                    proof {
                        let p = vs.subrange(0, i + 1);
                        assert(p.subrange(0, p.len() - 1) =~= vs.subrange(0, i as int));
                        assert(p[p.len() - 1] == xs@[i as int]@);
                        if i == 0 {
                            assert(items_text(p) == json_text(p[0]));
                            assert(before + t@ =~= "["@ + items_text(p));
                        } else {
                            assert(before + ","@ + t@ =~= "["@ + items_text(p));
                        }
                    }
                    i = i + 1;
                }
                out.append("]");
                proof {
                    assert(vs.subrange(0, xs@.len() as int) =~= vs);
                }
                out
            },
            JsonValue::Object(ps) => {
                proof {
                    lemma_view_object(*ps);
                }
                let ghost ms = members(ps@);
                let mut out: String = "{".to_owned();
                let mut i: usize = 0;
                while i < ps.len()
                    invariant
                        *self == JsonValue::Object(*ps),
                        ms == members(ps@),
                        i <= ps@.len(),
                        out@ == "{"@ + members_text(ms.subrange(0, i as int)),
                    decreases ps@.len() - i,
                {
                    proof {
                        assert(self->Object_0 == *ps);
                        assert(decreases_to!(*self => self->Object_0));
                        assert(decreases_to!(*ps => ps[i as int]));
                        assert(decreases_to!(ps[i as int] => ps[i as int].1));
                    }
                    let ghost before = out@;
                    if i > 0 {
                        out.append(",");
                    }
                    let k = json_string_literal(ps[i].0.as_str());
                    out.append(k.as_str());
                    out.append(":");
                    let t = ps[i].1.to_json_text();
                    out.append(t.as_str());
                    proof {
                        let p = ms.subrange(0, i + 1);
                        assert(p.subrange(0, p.len() - 1) =~= ms.subrange(0, i as int));
                        assert(p[p.len() - 1] == (ps@[i as int].0@, ps@[i as int].1@));
                        if i == 0 {
                            assert(before + k@ + ":"@ + t@ =~= "{"@ + members_text(p));
                        } else {
                            assert(before + ","@ + k@ + ":"@ + t@ =~= "{"@ + members_text(p));
                        }
                    }
                    i = i + 1;
                }
                out.append("}");
                proof {
                    assert(ms.subrange(0, ps@.len() as int) =~= ms);
                }
                out
            },
        }
    }
}

/// Lexicographic order of texts by code point, as `String`'s `<` orders them.
pub open spec fn text_lt(a: Seq<char>, b: Seq<char>) -> bool
    decreases a.len(),
{
    if b.len() == 0 {
        false
    } else if a.len() == 0 {
        true
    } else if a[0] != b[0] {
        (a[0] as int) < (b[0] as int)
    } else {
        text_lt(a.drop_first(), b.drop_first())
    }
}

/// No text comes before itself, and of two texts at most one comes first.
pub proof fn lemma_text_lt_asymmetric(a: Seq<char>, b: Seq<char>)
    ensures
        text_lt(a, b) ==> !text_lt(b, a),
    decreases a.len(),
{
    if a.len() > 0 && b.len() > 0 && a[0] == b[0] {
        lemma_text_lt_asymmetric(a.drop_first(), b.drop_first());
    }
}

/// The order of texts is transitive.
pub proof fn lemma_text_lt_transitive(a: Seq<char>, b: Seq<char>, c: Seq<char>)
    requires
        text_lt(a, b),
        text_lt(b, c),
    ensures
        text_lt(a, c),
    decreases a.len(),
{
    if a.len() > 0 && b.len() > 0 && c.len() > 0 && a[0] == b[0] && b[0] == c[0] {
        lemma_text_lt_transitive(a.drop_first(), b.drop_first(), c.drop_first());
    }
}

/// A string with no quote, no backslash and no control character below
/// U+0020 is written as itself between two quotes.
pub proof fn law_plain_string_is_quoted_as_is(s: Seq<char>)
    requires
        forall|i: int|
            0 <= i < s.len() ==> #[trigger] s[i] != '"' && s[i] != '\\' && (s[i] as u32) >= 0x20,
    ensures
        quoted(s) == seq!['"'] + s + seq!['"'],
        escape_text(s) == s,
    decreases s.len(),
{
    if s.len() > 0 {
        let init = s.drop_last();
        assert forall|i: int| 0 <= i < init.len() implies #[trigger] init[i] != '"' && init[i] != '\\'
            && (init[i] as u32) >= 0x20 by {
            assert(init[i] == s[i]);
        }
        law_plain_string_is_quoted_as_is(init);
        let c = s.last();
        assert(c == s[s.len() - 1]);
        assert(escape_char(c) == seq![c]);
        assert(init + seq![c] =~= s);
    } else {
        assert(escape_text(s) =~= s);
    }
}

/// The JSON text of `null`, of the booleans and of a number is its literal
/// text; an array of one or two elements is written as their texts between
/// brackets, separated by a comma; an object of one member as its quoted
/// key, a colon and its value's text, between braces.
pub proof fn law_json_text_shapes(x: JsonView, y: JsonView, k: Seq<char>, t: Seq<char>)
    ensures
        json_text(JsonView::Null) == "null"@,
        json_text(JsonView::Bool(true)) == "true"@,
        json_text(JsonView::Bool(false)) == "false"@,
        json_text(JsonView::Number(t)) == t,
        json_text(JsonView::Str(t)) == quoted(t),
        json_text(JsonView::Array(Seq::empty())) == "[]"@,
        json_text(JsonView::Array(seq![x])) == "["@ + json_text(x) + "]"@,
        json_text(JsonView::Array(seq![x, y])) == "["@ + json_text(x) + ","@ + json_text(y) + "]"@,
        json_text(JsonView::Object(Seq::empty())) == "{}"@,
        json_text(JsonView::Object(seq![(k, x)])) == "{"@ + quoted(k) + ":"@ + json_text(x) + "}"@,
{
    reveal_strlit("[");
    reveal_strlit("]");
    reveal_strlit("[]");
    reveal_strlit("{");
    reveal_strlit("}");
    reveal_strlit("{}");
    assert("["@ + Seq::<char>::empty() + "]"@ =~= "[]"@);
    assert("{"@ + Seq::<char>::empty() + "}"@ =~= "{}"@);
    assert(seq![x, y].subrange(0, 1) =~= seq![x]);
}

/// The order of texts is lexicographic: no text comes before itself; a
/// text comes before every longer text that begins with it, and never after
/// it; otherwise the first position where two texts differ decides, by the
/// code points there; and of two different texts one comes first.
pub proof fn law_text_lt_is_lexicographic(a: Seq<char>, b: Seq<char>)
    ensures
        !text_lt(a, a),
        b.len() > 0 ==> text_lt(a, a + b),
        !text_lt(a + b, a),
        forall|i: int|
            0 <= i < a.len() && i < b.len() && a.take(i) == b.take(i) && a[i] != b[i] ==> (text_lt(
                a,
                b,
            ) <==> (#[trigger] a[i] as int) < (#[trigger] b[i] as int)),
        a != b ==> (text_lt(a, b) || text_lt(b, a)),
    decreases a.len(),
{
    if a.len() > 0 {
        let a1 = a.drop_first();
        law_text_lt_is_lexicographic(a1, b);
        assert((a + b).drop_first() =~= a1 + b);
        assert((a + b)[0] == a[0]);
        if b.len() > 0 {
            let b1 = b.drop_first();
            law_text_lt_is_lexicographic(a1, b1);
            assert forall|i: int|
                0 <= i < a.len() && i < b.len() && a.take(i) == b.take(i) && a[i] != b[i] implies (
            text_lt(a, b) <==> (#[trigger] a[i] as int) < (#[trigger] b[i] as int)) by {
                if i > 0 {
                    assert(a.take(i)[0] == b.take(i)[0]);
                    assert(a1.take(i - 1) =~= a.take(i).drop_first());
                    assert(b1.take(i - 1) =~= b.take(i).drop_first());
                    assert(a1[i - 1] == a[i]);
                    assert(b1[i - 1] == b[i]);
                }
            }
            if a != b && a[0] == b[0] {
                assert(a1 != b1) by {
                    if a1 == b1 {
                        assert(a =~= seq![a[0]] + a1);
                        assert(b =~= seq![b[0]] + b1);
                    }
                }
            }
        }
    } else {
        assert(a + b =~= b);
    }
}

/// Whether `a` comes strictly before `b` in the order of texts.
pub fn text_less(a: &str, b: &str) -> (r: bool)
    ensures
        r == text_lt(a@, b@),
{
    let la = a.unicode_len();
    let lb = b.unicode_len();
    let mut i: usize = 0;
    assert(a@.skip(0) =~= a@);
    assert(b@.skip(0) =~= b@);
    while i < la && i < lb
        invariant
            la == a@.len(),
            lb == b@.len(),
            i <= la,
            i <= lb,
            text_lt(a@, b@) == text_lt(a@.skip(i as int), b@.skip(i as int)),
        decreases la - i,
    {
        let ca = a.get_char(i);
        let cb = b.get_char(i);
        assert(a@.skip(i as int)[0] == ca);
        assert(b@.skip(i as int)[0] == cb);
        if ca != cb {
            return (ca as u32) < (cb as u32);
        }
        assert(a@.skip(i as int).drop_first() =~= a@.skip(i + 1));
        assert(b@.skip(i as int).drop_first() =~= b@.skip(i + 1));
        i = i + 1;
    }
    assert(a@.skip(i as int).len() == la - i);
    assert(b@.skip(i as int).len() == lb - i);
    i < lb
}

} // verus!
