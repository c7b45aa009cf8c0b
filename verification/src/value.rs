//! JSON texts: reading and printing with `serde_json`.
use vstd::prelude::*;

use crate::json::{
    fields, lemma_fields_push, lemma_views_push, number_view, owned_view, views, Json, JsonView,
};
use crate::text::same_text;

verus! {

/// The value type of `serde_json`.
#[verifier::external_type_specification]
#[verifier::external_body]
pub struct ExValue(serde_json::Value);

/// The error type of `serde_json`.
#[verifier::external_type_specification]
#[verifier::external_body]
pub struct ExError(serde_json::Error);

/// What a value of `serde_json` holds.
pub uninterp spec fn value_json(v: serde_json::Value) -> JsonView;

/// What `serde_json` reads from a text; nothing, where the text is no JSON.
pub uninterp spec fn parsed_text(text: Seq<char>) -> Option<JsonView>;

/// What `serde_json` reads from bytes; nothing, where the bytes are no JSON.
pub uninterp spec fn parsed_bytes(bytes: Seq<u8>) -> Option<JsonView>;

/// The compact text that `serde_json` prints for a value.
pub uninterp spec fn json_text(v: JsonView) -> Seq<char>;

/// The outermost layer of a value.
pub enum Layer<'a> {
    Null,
    Bool(bool),
    Int(i64),
    Uint(u64),
    Number(&'a serde_json::Number),
    Text(&'a String),
    Array(&'a Vec<serde_json::Value>),
    Object(Vec<(&'a String, &'a serde_json::Value)>),
}

/// What a list of values holds.
pub open spec fn values_json(vs: Seq<serde_json::Value>) -> Seq<JsonView> {
    vs.map_values(|v: serde_json::Value| value_json(v))
}

/// What a list of named values holds.
pub open spec fn layer_fields(es: Seq<(&String, &serde_json::Value)>) -> Map<Seq<char>, JsonView>
    decreases es.len(),
{
    if es.len() == 0 {
        Map::empty()
    } else {
        layer_fields(es.drop_last()).insert(es.last().0@, value_json(*es.last().1))
    }
}

/// What a layer holds.
pub open spec fn layer_json(l: Layer<'_>) -> JsonView {
    match l {
        Layer::Null => JsonView::Null,
        Layer::Bool(b) => JsonView::Bool(b),
        Layer::Int(i) => JsonView::Int(i as int),
        Layer::Uint(u) => JsonView::Int(u as int),
        Layer::Number(n) => number_view(*n),
        Layer::Text(s) => JsonView::Text(s@),
        Layer::Array(vs) => JsonView::Array(values_json(vs@)),
        Layer::Object(es) => JsonView::Object(layer_fields(es@)),
    }
}

/// Tells the variants of a `serde_json::Value` apart; `serde_json::Number::as_i64` and
/// `serde_json::Number::as_u64` tell an integer from another number. The map of an object
/// yields each of its names once.
#[verifier::external_body]
fn open_value<'a>(v: &'a serde_json::Value) -> (r: Layer<'a>)
    ensures
        layer_json(r) == value_json(*v),
        r matches Layer::Object(es) ==> forall|i: int, j: int|
            0 <= i < j < es@.len() ==> (#[trigger] es@[i]).0@ != (#[trigger] es@[j]).0@,
{
    match v {
        serde_json::Value::Null => Layer::Null,
        serde_json::Value::Bool(b) => Layer::Bool(*b),
        serde_json::Value::Number(n) => match (n.as_i64(), n.as_u64()) {
            (Some(i), _) => Layer::Int(i),
            (None, Some(u)) => Layer::Uint(u),
            (None, None) => Layer::Number(n),
        },
        serde_json::Value::String(s) => Layer::Text(s),
        serde_json::Value::Array(vs) => Layer::Array(vs),
        serde_json::Value::Object(m) => Layer::Object(m.iter().collect()),
    }
}

proof fn lemma_layer_fields_at(es: Seq<(&String, &serde_json::Value)>, i: int)
    requires
        0 <= i < es.len(),
        forall|a: int, b: int|
            0 <= a < b < es.len() ==> (#[trigger] es[a]).0@ != (#[trigger] es[b]).0@,
    ensures
        layer_fields(es).contains_key(es[i].0@),
        layer_fields(es)[es[i].0@] == value_json(*es[i].1),
        layer_fields(es).dom().finite(),
    decreases es.len(),
{
    if i < es.len() - 1 {
        lemma_layer_fields_at(es.drop_last(), i);
        assert(es[i].0@ != es[es.len() - 1].0@);
    } else if es.len() > 1 {
        lemma_layer_fields_at(es.drop_last(), 0);
    } else {
        assert(es.drop_last().len() == 0);
    }
}

/// The [`Json`] that holds what a value of `serde_json` holds.
fn from_value(v: &serde_json::Value) -> (r: Json)
    ensures
        r@ == value_json(*v),
    decreases value_json(*v),
{
    match open_value(v) {
        Layer::Null => Json::Null,
        Layer::Bool(b) => Json::Bool(b),
        Layer::Int(i) => Json::Int(i),
        Layer::Uint(u) => Json::Uint(u),
        Layer::Number(n) => Json::Number(n.clone()),
        Layer::Text(s) => Json::Text(s.clone()),
        Layer::Array(vs) => {
            let mut out: Vec<Json> = Vec::new();
            assert(views(out@) =~= values_json(vs@.take(0)));
            for i in 0..vs.len()
                invariant
                    value_json(*v) == JsonView::Array(values_json(vs@)),
                    views(out@) == values_json(vs@.take(i as int)),
            {
                proof {
                    let xs = values_json(vs@);
                    assert(xs[i as int] == value_json(vs@[i as int]));
                    assert(decreases_to!(value_json(*v) => value_json(*v)->Array_0));
                    assert(decreases_to!(xs => xs[i as int]));
                }
                let x = from_value(&vs[i]);
                proof {
                    lemma_views_push(out@, x);
                    assert(values_json(vs@.take(i + 1)) =~= values_json(vs@.take(i as int)).push(
                        value_json(vs@[i as int]),
                    ));
                }
                out.push(x);
            }
            assert(vs@.take(vs@.len() as int) =~= vs@);
            Json::Array(out)
        },
        Layer::Object(es) => {
            let mut out: Vec<(String, Json)> = Vec::new();
            for i in 0..es.len()
                invariant
                    value_json(*v) == JsonView::Object(layer_fields(es@)),
                    fields(out@) == layer_fields(es@.take(i as int)),
                    forall|a: int, b: int|
                        0 <= a < b < es@.len() ==> (#[trigger] es@[a]).0@ != (
                        #[trigger] es@[b]).0@,
            {
                proof {
                    let m = layer_fields(es@);
                    lemma_layer_fields_at(es@, i as int);
                    assert(decreases_to!(value_json(*v) => value_json(*v)->Object_0));
                    assert(decreases_to!(m => m[es@[i as int].0@]));
                }
                let e = (es[i].0.clone(), from_value(es[i].1));
                proof {
                    lemma_fields_push(out@, e);
                    assert(es@.take(i + 1).drop_last() =~= es@.take(i as int));
                }
                out.push(e);
            }
            assert(es@.take(es@.len() as int) =~= es@);
            Json::Object(out)
        },
    }
}

/// The outermost layer of a value that is yet to be made.
pub enum Parts {
    Null,
    Bool(bool),
    Int(i64),
    Uint(u64),
    Number(serde_json::Number),
    Text(String),
    Array(Vec<serde_json::Value>),
    Object(Vec<(String, serde_json::Value)>),
}

/// What a list of named values holds.
pub open spec fn part_fields(es: Seq<(String, serde_json::Value)>) -> Map<Seq<char>, JsonView>
    decreases es.len(),
{
    if es.len() == 0 {
        Map::empty()
    } else {
        part_fields(es.drop_last()).insert(es.last().0@, value_json(es.last().1))
    }
}

/// What the parts of a value hold.
pub open spec fn parts_json(p: Parts) -> JsonView {
    match p {
        Parts::Null => JsonView::Null,
        Parts::Bool(b) => JsonView::Bool(b),
        Parts::Int(i) => JsonView::Int(i as int),
        Parts::Uint(u) => JsonView::Int(u as int),
        Parts::Number(n) => number_view(n),
        Parts::Text(s) => JsonView::Text(s@),
        Parts::Array(vs) => JsonView::Array(values_json(vs@)),
        Parts::Object(es) => JsonView::Object(part_fields(es@)),
    }
}

/// Whether no two fields of a list have one name.
pub open spec fn distinct_names(es: Seq<(String, serde_json::Value)>) -> bool {
    forall|i: int, j: int|
        0 <= i < j < es.len() ==> (#[trigger] es[i]).0@ != (#[trigger] es[j]).0@
}

/// Makes a `serde_json::Value` of its parts, variant by variant. `serde_json::Value::from` keeps
/// an integer as that integer.
#[verifier::external_body]
fn close_value(p: Parts) -> (r: serde_json::Value)
    requires
        p matches Parts::Object(es) ==> distinct_names(es@),
    ensures
        value_json(r) == parts_json(p),
{
    match p {
        Parts::Null => serde_json::Value::Null,
        Parts::Bool(b) => serde_json::Value::Bool(b),
        Parts::Int(i) => serde_json::Value::from(i),
        Parts::Uint(u) => serde_json::Value::from(u),
        Parts::Number(n) => serde_json::Value::Number(n),
        Parts::Text(s) => serde_json::Value::String(s),
        Parts::Array(vs) => serde_json::Value::Array(vs),
        Parts::Object(es) => serde_json::Value::Object(es.into_iter().collect()),
    }
}

/// A field in front of a list counts only where the list does not have its name.
proof fn lemma_fields_cons(e: (String, Json), es: Seq<(String, Json)>)
    ensures
        fields(seq![e] + es) == (if fields(es).contains_key(e.0@) {
            fields(es)
        } else {
            fields(es).insert(e.0@, e.1@)
        }),
    decreases es,
{
    if es.len() == 0 {
        assert((seq![e] + es).drop_last() =~= es);
        assert((seq![e] + es).last() == e);
    } else {
        let front = es.drop_last();
        assert((seq![e] + es).drop_last() =~= seq![e] + front);
        assert((seq![e] + es).last() == es.last());
        lemma_fields_cons(e, front);
        let k = es.last().0@;
        let v = es.last().1@;
        assert(fields(seq![e] + es) == fields(seq![e] + front).insert(k, v));
        assert(fields(es) == fields(front).insert(k, v));
        assert(fields(seq![e] + es) =~= (if fields(es).contains_key(e.0@) {
            fields(es)
        } else {
            fields(es).insert(e.0@, e.1@)
        }));
    }
}

proof fn lemma_part_fields_names(es: Seq<(String, serde_json::Value)>, key: Seq<char>)
    ensures
        part_fields(es).contains_key(key) <==> exists|i: int|
            0 <= i < es.len() && #[trigger] es[i].0@ == key,
    decreases es.len(),
{
    if es.len() > 0 {
        let front = es.drop_last();
        lemma_part_fields_names(front, key);
        if part_fields(es).contains_key(key) {
            if es.last().0@ == key {
                assert(es[es.len() - 1].0@ == key);
            } else {
                let i = choose|i: int| 0 <= i < front.len() && #[trigger] front[i].0@ == key;
                assert(es[i].0@ == key);
            }
        }
        if exists|i: int| 0 <= i < es.len() && #[trigger] es[i].0@ == key {
            let i = choose|i: int| 0 <= i < es.len() && #[trigger] es[i].0@ == key;
            if i < es.len() - 1 {
                assert(front[i].0@ == key);
            }
        }
    }
}

/// The value of `serde_json` that holds what a [`Json`] holds.
fn to_value(j: &Json) -> (r: serde_json::Value)
    ensures
        value_json(r) == j@,
    decreases j,
{
    match j {
        Json::Null => close_value(Parts::Null),
        Json::Bool(b) => close_value(Parts::Bool(*b)),
        Json::Int(i) => close_value(Parts::Int(*i)),
        Json::Uint(u) => close_value(Parts::Uint(*u)),
        Json::Number(n) => close_value(Parts::Number(n.clone())),
        Json::Text(s) => close_value(Parts::Text(s.clone())),
        Json::Array(xs) => {
            let mut out: Vec<serde_json::Value> = Vec::new();
            assert(values_json(out@) =~= views(xs@.take(0)));
            for i in 0..xs.len()
                invariant
                    *j == Json::Array(*xs),
                    values_json(out@) == views(xs@.take(i as int)),
            {
                assert(decreases_to!(*j => j->Array_0));
                assert(decreases_to!(xs => xs@));
                assert(decreases_to!(xs@ => xs@[i as int]));
                let v = to_value(&xs[i]);
                proof {
                    lemma_views_push(xs@.take(i as int), xs@[i as int]);
                    assert(xs@.take(i + 1) =~= xs@.take(i as int).push(xs@[i as int]));
                    assert(values_json(out@.push(v)) =~= values_json(out@).push(value_json(v)));
                }
                out.push(v);
            }
            assert(xs@.take(xs@.len() as int) =~= xs@);
            close_value(Parts::Array(out))
        },
        Json::Object(es) => {
            let mut out: Vec<(String, serde_json::Value)> = Vec::new();
            let mut i: usize = es.len();
            assert(part_fields(out@) =~= fields(es@.skip(i as int)));
            while i > 0
                invariant
                    i <= es.len(),
                    *j == Json::Object(*es),
                    part_fields(out@) == fields(es@.skip(i as int)),
                    distinct_names(out@),
                decreases i,
            {
                let ghost rest = es@.skip(i as int);
                i = i - 1;
                proof {
                    assert(es@.skip(i as int) =~= seq![es@[i as int]] + rest);
                    lemma_fields_cons(es@[i as int], rest);
                    lemma_part_fields_names(out@, es@[i as int].0@);
                }
                let mut seen = false;
                let mut k: usize = 0;
                while k < out.len() && !seen
                    invariant
                        i < es.len(),
                        k <= out.len(),
                        seen ==> exists|a: int|
                            0 <= a < out@.len() && #[trigger] out@[a].0@ == es@[i as int].0@,
                        !seen ==> forall|a: int|
                            0 <= a < k ==> #[trigger] out@[a].0@ != es@[i as int].0@,
                    decreases out.len() - k,
                {
                    if same_text(out[k].0.as_str(), es[i].0.as_str()) {
                        assert(out@[k as int].0@ == es@[i as int].0@);
                        seen = true;
                    }
                    k = k + 1;
                }
                if !seen {
                    assert(decreases_to!(*j => j->Object_0));
                    assert(decreases_to!(es => es@));
                    assert(decreases_to!(es@ => es@[i as int]));
                    assert(decreases_to!(es@[i as int] => es@[i as int].1));
                    let e = (es[i].0.clone(), to_value(&es[i].1));
                    assert(out@.push(e).drop_last() =~= out@);
                    out.push(e);
                }
            }
            assert(es@.skip(0) =~= es@);
            close_value(Parts::Object(out))
        },
    }
}

/// `serde_json::from_str` reads a text as a value, or fails; what it does depends on the text
/// alone.
#[verifier::external_body]
fn value_from_str(text: &str) -> (r: Result<serde_json::Value, serde_json::Error>)
    ensures
        match r {
            Ok(v) => parsed_text(text@) == Some(value_json(v)),
            Err(_) => parsed_text(text@) is None,
        },
{
    serde_json::from_str(text)
}

/// `serde_json::from_slice` reads bytes as a value, or fails; what it does depends on the bytes
/// alone.
#[verifier::external_body]
fn value_from_slice(bytes: &[u8]) -> (r: Result<serde_json::Value, serde_json::Error>)
    ensures
        match r {
            Ok(v) => parsed_bytes(bytes@) == Some(value_json(v)),
            Err(_) => parsed_bytes(bytes@) is None,
        },
{
    serde_json::from_slice(bytes)
}

/// The field name under which `serde_json` hides an unread text.
pub open spec fn raw_token() -> Seq<char> {
    "$serde_json::private::RawValue"@
}

/// Whether a name is printed before another one: names are printed in the order of their
/// characters.
pub open spec fn name_before(a: Seq<char>, b: Seq<char>) -> bool
    decreases a.len(),
{
    if a.len() == 0 {
        b.len() > 0
    } else if b.len() == 0 {
        false
    } else if a[0] == b[0] {
        name_before(a.drop_first(), b.drop_first())
    } else {
        a[0] < b[0]
    }
}

/// Whether the name that `serde_json` keeps for itself is the first one that is printed of an
/// object.
pub open spec fn raw_token_first(m: Map<Seq<char>, JsonView>) -> bool {
    m.contains_key(raw_token()) && forall|k: Seq<char>| #[trigger]
        m.contains_key(k) ==> !name_before(k, raw_token())
}

/// Whether a value holds no float, has no object that is printed with the name first that
/// `serde_json` keeps for itself, and is nested at most `depth` levels deep.
pub open spec fn plain(v: JsonView, depth: nat) -> bool
    decreases depth,
{
    match v {
        JsonView::Float(_) => false,
        JsonView::Array(xs) => depth > 0 && forall|i: int|
            0 <= i < xs.len() ==> plain(#[trigger] xs[i], (depth - 1) as nat),
        JsonView::Object(m) => depth > 0 && !raw_token_first(m) && forall|k: Seq<char>| #[trigger]
            m.contains_key(k) ==> plain(m[k], (depth - 1) as nat),
        _ => true,
    }
}

/// How deep a value may be nested for its text to be read again.
pub const MAX_DEPTH: u8 = 127;

/// What is known of the text that stands for a value: it is one line; it is not the mark that
/// ends a stream, which is no JSON; and reading it gives the value back, where the value is plain
/// enough.
pub open spec fn is_text_of(text: Seq<char>, v: JsonView) -> bool {
    &&& text == json_text(v)
    &&& forall|i: int| 0 <= i < text.len() ==> #[trigger] text[i] != '\n' && text[i] != '\r'
    &&& text != "[DONE]"@
    &&& plain(v, MAX_DEPTH as nat) ==> parsed_text(text) == Some(v)
}

/// `serde_json::to_string` prints a value on one line: it puts no white space between tokens
/// and escapes control characters in strings. What it prints is JSON, so no value's text is
/// `[DONE]`. It does not fail on a value, whose names are strings and whose numbers are finite.
/// It prints the names of an object in the order of their bytes, which is that of their characters.
/// `serde_json::from_str` undoes it for values that hold no float, within its limit on nesting; it
/// takes an object for an unread text only where the first name is the one kept for that.
#[verifier::external_body]
fn value_to_string(v: &serde_json::Value) -> (r: Result<String, serde_json::Error>)
    ensures
        r is Ok,
        r->Ok_0@ == json_text(value_json(*v)),
        is_text_of(r->Ok_0@, value_json(*v)),
{
    serde_json::to_string(v)
}

impl Json {
    /// The value that a text stands for, if it is JSON.
    pub fn parse(text: &str) -> (r: Option<Json>)
        ensures
            owned_view(r) == parsed_text(text@),
    {
        match value_from_str(text) {
            Ok(v) => Some(from_value(&v)),
            Err(_) => None,
        }
    }

    /// The value that bytes stand for, if they are JSON.
    pub fn parse_bytes(bytes: &[u8]) -> (r: Option<Json>)
        ensures
            owned_view(r) == parsed_bytes(bytes@),
    {
        match value_from_slice(bytes) {
            Ok(v) => Some(from_value(&v)),
            Err(_) => None,
        }
    }

    /// The text that stands for the value.
    pub fn print(&self) -> (r: String)
        ensures
            is_text_of(r@, self@),
    {
        let v = to_value(self);
        match value_to_string(&v) {
            Ok(text) => text,
            Err(_) => "{}".to_owned(),
        }
    }
}

} // verus!
