//! JSON values.
use vstd::prelude::*;

use crate::text::same_text;

verus! {

/// The number type of `serde_json`.
#[verifier::external_type_specification]
#[verifier::external_body]
pub struct ExNumber(serde_json::Number);

/// The bits of a number as a double, where it can be written as one.
pub uninterp spec fn float_bits(n: serde_json::Number) -> Option<u64>;

/// `serde_json::Number::as_f64` gives the double that a number stands for, if there is one. It
/// is handed on as its bits.
#[verifier::external_body]
fn number_bits(n: &serde_json::Number) -> (r: Option<u64>)
    ensures
        r == float_bits(*n),
{
    match n.as_f64() {
        Some(x) => Some(x.to_bits()),
        None => None,
    }
}

/// The integer that a number is, where it is one.
pub uninterp spec fn number_int(n: serde_json::Number) -> Option<int>;

/// `serde_json::Number::as_i128` gives the integer that a number is, if it is one. A number holds
/// an integer only in the range of `i64` or `u64`.
#[verifier::external_body]
fn number_integer(n: &serde_json::Number) -> (r: Option<i128>)
    ensures
        match r {
            Some(i) => number_int(*n) == Some(i as int) && i64::MIN <= i <= u64::MAX,
            None => number_int(*n) is None,
        },
{
    n.as_i128()
}

/// What a number stands for: the integer that it is, or else a double.
pub open spec fn number_view(n: serde_json::Number) -> JsonView {
    match number_int(n) {
        Some(i) => JsonView::Int(i),
        None => JsonView::Float(float_bits(n)),
    }
}

/// A JSON value.
///
/// An object is a list of fields. Where a name occurs twice, the later field counts.
pub enum Json {
    Null,
    Bool(bool),
    Int(i64),
    Uint(u64),
    Number(serde_json::Number),
    Text(String),
    Array(Vec<Json>),
    Object(Vec<(String, Json)>),
}

/// The bits of the double zero.
pub const PLUS_ZERO: u64 = 0;

/// The bits of the double minus zero.
pub const MINUS_ZERO: u64 = 0x8000_0000_0000_0000;

/// What a [`Json`] stands for.
pub enum JsonView {
    Null,
    Bool(bool),
    Int(int),
    Float(Option<u64>),
    Text(Seq<char>),
    Array(Seq<JsonView>),
    Object(Map<Seq<char>, JsonView>),
}

impl Json {
    pub open spec fn view(&self) -> JsonView
        decreases self,
    {
        match self {
            Json::Null => JsonView::Null,
            Json::Bool(b) => JsonView::Bool(*b),
            Json::Int(i) => JsonView::Int(*i as int),
            Json::Uint(u) => JsonView::Int(*u as int),
            Json::Number(n) => number_view(*n),
            Json::Text(s) => JsonView::Text(s@),
            Json::Array(xs) => JsonView::Array(views(xs@)),
            Json::Object(es) => JsonView::Object(fields(es@)),
        }
    }
}

/// The values that a list of [`Json`] stands for.
pub open spec fn views(xs: Seq<Json>) -> Seq<JsonView>
    decreases xs,
{
    if xs.len() == 0 {
        Seq::empty()
    } else {
        views(xs.drop_last()).push(xs.last().view())
    }
}

/// The fields that a list of named [`Json`] stands for: a later one takes the place of an
/// earlier one of the same name.
pub open spec fn fields(es: Seq<(String, Json)>) -> Map<Seq<char>, JsonView>
    decreases es,
{
    if es.len() == 0 {
        Map::empty()
    } else {
        fields(es.drop_last()).insert(es.last().0@, es.last().1.view())
    }
}

/// A list of values is read element by element.
pub proof fn lemma_views(xs: Seq<Json>)
    ensures
        views(xs).len() == xs.len(),
        forall|i: int| 0 <= i < xs.len() ==> #[trigger] views(xs)[i] == xs[i].view(),
    decreases xs,
{
    if xs.len() > 0 {
        lemma_views(xs.drop_last());
    }
}

pub proof fn lemma_views_push(xs: Seq<Json>, x: Json)
    ensures
        views(xs.push(x)) == views(xs).push(x.view()),
{
    assert(xs.push(x).drop_last() =~= xs);
}

/// Appending a field sets it.
pub proof fn lemma_fields_push(es: Seq<(String, Json)>, e: (String, Json))
    ensures
        fields(es.push(e)) == fields(es).insert(e.0@, e.1.view()),
{
    assert(es.push(e).drop_last() =~= es);
}

pub proof fn lemma_fields_finite(es: Seq<(String, Json)>)
    ensures
        fields(es).dom().finite(),
    decreases es,
{
    if es.len() > 0 {
        lemma_fields_finite(es.drop_last());
    }
}

/// A name that no field of the list has is not set.
pub proof fn lemma_fields_absent(es: Seq<(String, Json)>, key: Seq<char>)
    requires
        forall|i: int| 0 <= i < es.len() ==> #[trigger] es[i].0@ != key,
    ensures
        !fields(es).contains_key(key),
    decreases es,
{
    if es.len() > 0 {
        assert(es.drop_last() =~= es.take(es.len() - 1));
        lemma_fields_absent(es.drop_last(), key);
    }
}

/// Of the fields of one name the last one counts.
pub proof fn lemma_fields_last(es: Seq<(String, Json)>, i: int)
    requires
        0 <= i < es.len(),
        forall|j: int| i < j < es.len() ==> #[trigger] es[j].0@ != es[i].0@,
    ensures
        fields(es).contains_key(es[i].0@),
        fields(es)[es[i].0@] == es[i].1.view(),
    decreases es,
{
    if i < es.len() - 1 {
        lemma_fields_last(es.drop_last(), i);
        assert(es[es.len() - 1].0@ != es[i].0@);
    }
}

/// Taking a field out of the list leaves the fields of other names as they were.
pub proof fn lemma_fields_remove(es: Seq<(String, Json)>, i: int)
    requires
        0 <= i < es.len(),
    ensures
        fields(es.remove(i)).remove(es[i].0@) == fields(es).remove(es[i].0@),
    decreases es,
{
    let last = es.last();
    if i == es.len() - 1 {
        assert(es.remove(i) =~= es.drop_last());
        assert(fields(es.remove(i)).remove(es[i].0@) =~= fields(es).remove(es[i].0@));
    } else {
        lemma_fields_remove(es.drop_last(), i);
        assert(es.remove(i) =~= es.drop_last().remove(i).push(last));
        lemma_fields_push(es.drop_last().remove(i), last);
        let key = es[i].0@;
        assert(fields(es.remove(i)).remove(key) =~= fields(es.drop_last().remove(i)).remove(
            key,
        ).insert(last.0@, last.1.view()).remove(key));
        assert(fields(es).remove(key) =~= fields(es.drop_last()).remove(key).insert(
            last.0@,
            last.1.view(),
        ).remove(key));
    }
}

impl JsonView {
    /// The field `key` of an object.
    pub open spec fn get(self, key: Seq<char>) -> Option<JsonView> {
        match self {
            JsonView::Object(m) => if m.contains_key(key) {
                Some(m[key])
            } else {
                None
            },
            _ => None,
        }
    }

    pub open spec fn as_str(self) -> Option<Seq<char>> {
        match self {
            JsonView::Text(s) => Some(s),
            _ => None,
        }
    }

    pub open spec fn as_i64(self) -> Option<i64> {
        match self {
            JsonView::Int(i) => if i64::MIN <= i <= i64::MAX {
                Some(i as i64)
            } else {
                None
            },
            _ => None,
        }
    }

    /// Whether a value counts as true: it is not null, false, zero or empty.
    pub open spec fn truthy(self) -> bool {
        match self {
            JsonView::Null => false,
            JsonView::Bool(b) => b,
            JsonView::Int(i) => i != 0,
            JsonView::Float(bits) => bits != Some(PLUS_ZERO) && bits != Some(MINUS_ZERO),
            JsonView::Text(s) => s.len() > 0,
            JsonView::Array(xs) => xs.len() > 0,
            JsonView::Object(m) => m.dom().len() > 0,
        }
    }

    pub open spec fn as_array(self) -> Option<Seq<JsonView>> {
        match self {
            JsonView::Array(xs) => Some(xs),
            _ => None,
        }
    }

    /// An object with the field `key` set; what is no object stays as it is.
    pub open spec fn set(self, key: Seq<char>, value: JsonView) -> JsonView {
        match self {
            JsonView::Object(m) => JsonView::Object(m.insert(key, value)),
            other => other,
        }
    }

    /// An object without the field `key`; what is no object stays as it is.
    pub open spec fn unset(self, key: Seq<char>) -> JsonView {
        match self {
            JsonView::Object(m) => JsonView::Object(m.remove(key)),
            other => other,
        }
    }
}

/// What an optional reference to a [`Json`] stands for.
pub open spec fn opt_view(v: Option<&Json>) -> Option<JsonView> {
    match v {
        Some(j) => Some(j@),
        None => None,
    }
}

/// What an optional [`Json`] stands for.
pub open spec fn owned_view(v: Option<Json>) -> Option<JsonView> {
    match v {
        Some(j) => Some(j@),
        None => None,
    }
}

/// The field `key` of an optional value.
pub open spec fn opt_get(v: Option<JsonView>, key: Seq<char>) -> Option<JsonView> {
    match v {
        Some(j) => j.get(key),
        None => None,
    }
}

pub open spec fn opt_i64(v: Option<JsonView>) -> Option<i64> {
    match v {
        Some(j) => j.as_i64(),
        None => None,
    }
}

pub open spec fn opt_str(v: Option<JsonView>) -> Option<Seq<char>> {
    match v {
        Some(j) => j.as_str(),
        None => None,
    }
}

impl Json {
    /// A text.
    pub fn text(s: &str) -> (r: Json)
        ensures
            r@ == JsonView::Text(s@),
    {
        Json::Text(s.to_owned())
    }

    /// An object without fields.
    pub fn object() -> (r: Json)
        ensures
            r@ == JsonView::Object(Map::empty()),
    {
        let es: Vec<(String, Json)> = Vec::new();
        assert(fields(es@) =~= Map::empty());
        Json::Object(es)
    }

    /// The object with one more field.
    pub fn with(self, key: &str, value: Json) -> (r: Json)
        ensures
            r@ == self@.set(key@, value@),
    {
        match self {
            Json::Object(es) => {
                let mut es = es;
                let e = (key.to_owned(), value);
                proof {
                    lemma_fields_push(es@, e);
                }
                es.push(e);
                Json::Object(es)
            },
            other => other,
        }
    }

    pub fn is_object(&self) -> (r: bool)
        ensures
            r == (self@ is Object),
    {
        matches!(self, Json::Object(_))
    }

    /// The field `key` of an object.
    pub fn get(&self, key: &str) -> (r: Option<&Json>)
        ensures
            opt_view(r) == self@.get(key@),
    {
        match self {
            Json::Object(es) => {
                let mut i: usize = es.len();
                while i > 0
                    invariant
                        i <= es.len(),
                        *self == Json::Object(*es),
                        forall|j: int| i <= j < es.len() ==> #[trigger] es@[j].0@ != key@,
                    decreases i,
                {
                    i = i - 1;
                    if same_text(es[i].0.as_str(), key) {
                        proof {
                            lemma_fields_last(es@, i as int);
                        }
                        return Some(&es[i].1);
                    }
                }
                proof {
                    lemma_fields_absent(es@, key@);
                }
                None
            },
            _ => None,
        }
    }

    pub fn as_str(&self) -> (r: Option<&str>)
        ensures
            match r {
                Some(s) => self@.as_str() == Some(s@),
                None => self@.as_str() is None,
            },
    {
        match self {
            Json::Text(s) => Some(s.as_str()),
            _ => None,
        }
    }

    pub fn as_i64(&self) -> (r: Option<i64>)
        ensures
            r == self@.as_i64(),
    {
        match self {
            Json::Int(i) => Some(*i),
            Json::Uint(u) => if *u <= i64::MAX as u64 {
                Some(*u as i64)
            } else {
                None
            },
            Json::Number(n) => match number_integer(n) {
                Some(i) => if i64::MIN as i128 <= i && i <= i64::MAX as i128 {
                    Some(i as i64)
                } else {
                    None
                },
                None => None,
            },
            _ => None,
        }
    }

    pub fn as_array(&self) -> (r: Option<&Vec<Json>>)
        ensures
            match r {
                Some(xs) => self@.as_array() == Some(views(xs@)),
                None => self@.as_array() is None,
            },
    {
        match self {
            Json::Array(xs) => Some(xs),
            _ => None,
        }
    }

    /// Whether a value counts as true: it is not null, false, zero or empty.
    pub fn truthy(&self) -> (r: bool)
        ensures
            r == self@.truthy(),
    {
        match self {
            Json::Null => false,
            Json::Bool(b) => *b,
            Json::Int(i) => *i != 0,
            Json::Uint(u) => *u != 0,
            Json::Number(n) => match number_integer(n) {
                Some(i) => i != 0,
                None => match number_bits(n) {
                    Some(bits) => bits != PLUS_ZERO && bits != MINUS_ZERO,
                    None => true,
                },
            },
            Json::Text(s) => !s.as_str().is_empty(),
            Json::Array(xs) => {
                proof {
                    lemma_views(xs@);
                }
                xs.len() > 0
            },
            Json::Object(es) => {
                proof {
                    lemma_fields_finite(es@);
                    if es@.len() > 0 {
                        assert(fields(es@).dom().contains(es@.last().0@));
                    }
                }
                es.len() > 0
            },
        }
    }

    /// Takes the field `key` out of an object.
    pub fn unset(&mut self, key: &str)
        ensures
            final(self)@ == old(self)@.unset(key@),
    {
        if let Json::Object(es) = self {
            let ghost before = fields(es@);
            let mut i: usize = 0;
            while i < es.len()
                invariant
                    i <= es.len(),
                    fields(es@).remove(key@) == before.remove(key@),
                    forall|j: int| 0 <= j < i ==> #[trigger] es@[j].0@ != key@,
                decreases es.len() - i,
            {
                if same_text(es[i].0.as_str(), key) {
                    proof {
                        lemma_fields_remove(es@, i as int);
                    }
                    let _ = es.remove(i);
                } else {
                    i = i + 1;
                }
            }
            proof {
                lemma_fields_absent(es@, key@);
                assert(fields(es@) =~= fields(es@).remove(key@));
            }
        }
    }

    /// Sets the field `key` of an object.
    pub fn set(&mut self, key: &str, value: Json)
        ensures
            final(self)@ == old(self)@.set(key@, value@),
    {
        self.unset(key);
        if let Json::Object(es) = self {
            let e = (key.to_owned(), value);
            proof {
                lemma_fields_push(es@, e);
            }
            es.push(e);
            proof {
                assert(fields(es@) =~= old(self)@->Object_0.insert(key@, value@));
            }
        }
    }
}

/// `serde_json::Number::clone` gives the same number.
pub assume_specification[ <serde_json::Number as Clone>::clone ](
    n: &serde_json::Number,
) -> (r: serde_json::Number)
    ensures
        r == *n,
;

impl Clone for Json {
    fn clone(&self) -> (r: Json)
        ensures
            r@ == self@,
        decreases self,
    {
        match self {
            Json::Null => Json::Null,
            Json::Bool(b) => Json::Bool(*b),
            Json::Int(i) => Json::Int(*i),
            Json::Uint(u) => Json::Uint(*u),
            Json::Number(n) => Json::Number(n.clone()),
            Json::Text(s) => Json::Text(s.clone()),
            Json::Array(xs) => {
                let mut out: Vec<Json> = Vec::new();
                for i in 0..xs.len()
                    invariant
                        views(out@) == views(xs@.take(i as int)),
                        *self == Json::Array(*xs),
                {
                    assert(decreases_to!(*self => self->Array_0));
                    assert(decreases_to!(xs => xs@));
                    assert(decreases_to!(xs@ => xs@[i as int]));
                    let x = xs[i].clone();
                    proof {
                        lemma_views_push(out@, x);
                        lemma_views_push(xs@.take(i as int), xs@[i as int]);
                        assert(xs@.take(i + 1) =~= xs@.take(i as int).push(xs@[i as int]));
                    }
                    out.push(x);
                }
                assert(xs@.take(xs@.len() as int) =~= xs@);
                Json::Array(out)
            },
            Json::Object(es) => {
                let mut out: Vec<(String, Json)> = Vec::new();
                for i in 0..es.len()
                    invariant
                        fields(out@) == fields(es@.take(i as int)),
                        *self == Json::Object(*es),
                {
                    assert(decreases_to!(*self => self->Object_0));
                    assert(decreases_to!(es => es@));
                    assert(decreases_to!(es@ => es@[i as int]));
                    assert(decreases_to!(es@[i as int] => es@[i as int].1));
                    let e = (es[i].0.clone(), es[i].1.clone());
                    proof {
                        lemma_fields_push(out@, e);
                        lemma_fields_push(es@.take(i as int), es@[i as int]);
                        assert(es@.take(i + 1) =~= es@.take(i as int).push(es@[i as int]));
                    }
                    out.push(e);
                }
                assert(es@.take(es@.len() as int) =~= es@);
                Json::Object(out)
            },
        }
    }
}

/// A copy of a list of values.
pub fn copies(xs: &Vec<Json>) -> (r: Vec<Json>)
    ensures
        views(r@) == views(xs@),
{
    let mut out: Vec<Json> = Vec::new();
    for i in 0..xs.len()
        invariant
            views(out@) == views(xs@.take(i as int)),
    {
        let x = xs[i].clone();
        proof {
            lemma_views_push(out@, x);
            lemma_views_push(xs@.take(i as int), xs@[i as int]);
            assert(xs@.take(i + 1) =~= xs@.take(i as int).push(xs@[i as int]));
        }
        out.push(x);
    }
    assert(xs@.take(xs@.len() as int) =~= xs@);
    out
}

pub proof fn lemma_views_concat(xs: Seq<Json>, ys: Seq<Json>)
    ensures
        views(xs + ys) == views(xs) + views(ys),
    decreases ys.len(),
{
    if ys.len() == 0 {
        assert(xs + ys =~= xs);
        assert(views(xs) + views(ys) =~= views(xs));
    } else {
        lemma_views_concat(xs, ys.drop_last());
        assert((xs + ys).drop_last() =~= xs + ys.drop_last());
        assert(views(xs + ys) =~= views(xs) + views(ys));
    }
}

/// A field that is set is found, a field that is unset is not, and all other fields stay.
pub proof fn law_fields(v: JsonView, key: Seq<char>, value: JsonView, other: Seq<char>)
    requires
        v is Object,
    ensures
        v.set(key, value) is Object,
        v.set(key, value).get(key) == Some(value),
        other != key ==> v.set(key, value).get(other) == v.get(other),
        v.unset(key) is Object,
        v.unset(key).get(key) is None,
        other != key ==> v.unset(key).get(other) == v.get(other),
        JsonView::Object(Map::empty()).get(key) is None,
{
}

/// What is no object has no fields, and none can be given to it.
pub proof fn law_no_fields(v: JsonView, key: Seq<char>, value: JsonView)
    requires
        !(v is Object),
    ensures
        v.get(key) is None,
        v.set(key, value) == v,
        v.unset(key) == v,
{
}

/// Of the fields of one name the last one counts.
pub proof fn law_last_field_counts(es: Seq<(String, Json)>, i: int)
    requires
        0 <= i < es.len(),
        forall|j: int| i < j < es.len() ==> (#[trigger] es[j]).0@ != es[i].0@,
    ensures
        JsonView::Object(fields(es)).get(es[i].0@) == Some(es[i].1@),
    decreases es.len(),
{
    if i < es.len() - 1 {
        let front = es.drop_last();
        assert forall|j: int| i < j < front.len() implies (#[trigger] front[j]).0@
            != front[i].0@ by {
            assert(front[j] == es[j]);
        }
        law_last_field_counts(front, i);
        assert(es[es.len() - 1].0@ != es[i].0@);
    }
}

/// A name that no field has gives no field.
pub proof fn law_missing_field(es: Seq<(String, Json)>, key: Seq<char>)
    requires
        forall|j: int| 0 <= j < es.len() ==> (#[trigger] es[j]).0@ != key,
    ensures
        JsonView::Object(fields(es)).get(key) is None,
    decreases es.len(),
{
    if es.len() > 0 {
        let front = es.drop_last();
        assert forall|j: int| 0 <= j < front.len() implies (#[trigger] front[j]).0@ != key by {
            assert(front[j] == es[j]);
        }
        law_missing_field(front, key);
        assert(es[es.len() - 1].0@ != key);
    }
}

/// Null, `false`, zero and what is empty count as false; anything else counts as true.
pub proof fn law_truthy(
    n: int,
    bits: u64,
    s: Seq<char>,
    xs: Seq<JsonView>,
    m: Map<Seq<char>, JsonView>,
)
    ensures
        !JsonView::Null.truthy(),
        JsonView::Bool(true).truthy(),
        !JsonView::Bool(false).truthy(),
        JsonView::Int(n).truthy() <==> n != 0,
        JsonView::Float(Some(bits)).truthy() <==> bits != 0 && bits != 0x8000_0000_0000_0000,
        JsonView::Float(None).truthy(),
        JsonView::Text(s).truthy() <==> s.len() != 0,
        JsonView::Array(xs).truthy() <==> xs.len() != 0,
        !JsonView::Object(Map::empty()).truthy(),
        m.dom().finite() && (exists|k: Seq<char>| #[trigger] m.contains_key(k))
            ==> JsonView::Object(m).truthy(),
{
    if m.dom().finite() && (exists|k: Seq<char>| #[trigger] m.contains_key(k)) {
        let k = choose|k: Seq<char>| #[trigger] m.contains_key(k);
        assert(m.dom().contains(k));
        if m.dom().len() == 0 {
            vstd::set_lib::lemma_set_empty_equivalency_len(m.dom());
        }
    }
}

/// A value is read as a number, a text or a list only where it is one; a number also has to fit.
pub proof fn law_read_as(v: JsonView, n: i64)
    ensures
        v.as_i64() == Some(n) <==> v == JsonView::Int(n as int),
        v.as_str() is Some <==> v is Text,
        v is Text ==> v.as_str() == Some(v->Text_0),
        v.as_array() is Some <==> v is Array,
        v is Array ==> v.as_array() == Some(v->Array_0),
{
}

} // verus!
