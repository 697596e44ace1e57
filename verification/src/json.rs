//! JSON documents.
//!
//! [`Json`] is a document as plain values. Reading one from its text and writing
//! one to its text is `serde_json`'s work.

use serde_json::Value;
use vstd::prelude::*;

use crate::text::{copy_str, same_text, texts};

verus! {

/// A JSON document.
#[derive(Debug, PartialEq, Eq)]
pub enum Json {
    /// `null`.
    Null,
    /// `true` or `false`.
    Bool(bool),
    /// An unsigned integer.
    Uint(u64),
    /// A signed integer.
    Int(i64),
    /// A number that is neither.
    Other(OtherNumber),
    /// A string.
    Text(String),
    /// An array.
    List(Vec<Json>),
    /// An object: its fields.
    Object(Vec<(String, Json)>),
}

/// `serde_json`'s number.
#[verifier::external_type_specification]
#[verifier::external_body]
pub struct ExNumber(serde_json::Number);

/// A number that is no 64-bit integer, carried as it was read.
#[derive(Debug, PartialEq, Eq)]
pub struct OtherNumber {
    number: serde_json::Number,
}

/// What a [`Json`] document holds.
pub enum JsonV {
    Null,
    Bool(bool),
    Uint(u64),
    Int(i64),
    Other(OtherNumber),
    Text(Seq<char>),
    List(Seq<JsonV>),
    Object(Seq<(Seq<char>, JsonV)>),
}

/// What a document holds.
pub open spec fn json_view(j: Json) -> JsonV
    decreases j,
{
    match j {
        Json::Null => JsonV::Null,
        Json::Bool(b) => JsonV::Bool(b),
        Json::Uint(n) => JsonV::Uint(n),
        Json::Int(n) => JsonV::Int(n),
        Json::Other(n) => JsonV::Other(n),
        Json::Text(t) => JsonV::Text(t@),
        Json::List(v) => JsonV::List(
            Seq::new(
                v@.len(),
                |i: int|
                    if 0 <= i < v@.len() {
                        json_view(v@[i])
                    } else {
                        JsonV::Null
                    },
            ),
        ),
        Json::Object(f) => JsonV::Object(
            Seq::new(
                f@.len(),
                |i: int|
                    if 0 <= i < f@.len() {
                        (f@[i].0@, json_view(f@[i].1))
                    } else {
                        (Seq::empty(), JsonV::Null)
                    },
            ),
        ),
    }
}

impl View for Json {
    type V = JsonV;

    open spec fn view(&self) -> JsonV {
        json_view(*self)
    }
}

/// What each document of a list holds.
pub open spec fn list_view(v: Seq<Json>) -> Seq<JsonV> {
    Seq::new(v.len(), |i: int| v[i]@)
}

/// What each field of a list holds.
pub open spec fn fields_view(f: Seq<(String, Json)>) -> Seq<(Seq<char>, JsonV)> {
    Seq::new(f.len(), |i: int| (f[i].0@, f[i].1@))
}

/// Lists and objects hold what their parts hold.
pub proof fn lemma_json_view(j: Json)
    ensures
        j matches Json::List(v) ==> j@ == JsonV::List(list_view(v@)),
        j matches Json::Object(f) ==> j@ == JsonV::Object(fields_view(f@)),
{
    match j {
        Json::List(v) => {
            assert(j@->List_0 =~= list_view(v@));
        },
        Json::Object(f) => {
            assert(j@->Object_0 =~= fields_view(f@));
        },
        _ => {},
    }
}

/// `serde_json`'s document.
#[verifier::external_type_specification]
#[verifier::external_body]
pub struct ExValue(serde_json::Value);

/// What `serde_json::from_str` makes of a text: a document, or nothing where the
/// text is not JSON.
pub uninterp spec fn json_read(text: Seq<char>) -> Option<JsonV>;

/// What the `Display` of `serde_json::Value` writes of a document.
pub uninterp spec fn json_written(j: JsonV) -> Seq<char>;

/// `serde_json::Value` as plain values, variant for variant.
#[verifier::external_body]
fn json_of_value(v: &Value) -> Json {
    match v {
        Value::Null => Json::Null,
        Value::Bool(b) => Json::Bool(*b),
        Value::Number(n) => match (n.as_u64(), n.as_i64()) {
            (Some(u), _) => Json::Uint(u),
            (None, Some(i)) => Json::Int(i),
            (None, None) => Json::Other(OtherNumber { number: n.clone() }),
        },
        Value::String(s) => Json::Text(s.clone()),
        Value::Array(a) => Json::List(a.iter().map(json_of_value).collect()),
        Value::Object(m) => {
            Json::Object(m.iter().map(|(k, x)| (k.clone(), json_of_value(x))).collect())
        },
    }
}

/// A document as a `serde_json::Value`, variant for variant.
#[verifier::external_body]
fn value_of_json(j: &Json) -> Value {
    match j {
        Json::Null => Value::Null,
        Json::Bool(b) => Value::from(*b),
        Json::Uint(u) => Value::from(*u),
        Json::Int(i) => Value::from(*i),
        Json::Other(n) => Value::Number(n.number.clone()),
        Json::Text(s) => Value::from(s.as_str()),
        Json::List(v) => Value::Array(v.iter().map(value_of_json).collect()),
        Json::Object(f) => {
            Value::Object(f.iter().map(|e| (e.0.clone(), value_of_json(&e.1))).collect())
        },
    }
}

/// `serde_json::from_str` into a `serde_json::Value`: the document that the text
/// is, or nothing. Which texts are JSON, and what documents they are, is left to
/// the name.
#[verifier::external_body]
pub(crate) fn read_json(text: &str) -> (r: Option<Json>)
    ensures
        json_read(text@) == (match r {
            Some(j) => Some(j@),
            None => None,
        }),
{
    serde_json::from_str::<serde_json::Value>(text).ok().map(|v| json_of_value(&v))
}

/// `serde_json::Value::to_string`: the document as a text, compact, the fields
/// of an object in the order of their names. How each part is written is left to
/// the name.
#[verifier::external_body]
pub(crate) fn write_json(j: &Json) -> (r: String)
    ensures
        r@ == json_written(j@),
{
    value_of_json(j).to_string()
}

/// The document that a text is, `null` where it is none.
pub open spec fn parsed(text: Seq<char>) -> JsonV {
    match json_read(text) {
        Some(j) => j,
        None => JsonV::Null,
    }
}

/// The document that a text is, `null` where it is none.
pub fn parse(text: &str) -> (r: Json)
    ensures
        r@ == parsed(text@),
{
    match read_json(text) {
        Some(j) => j,
        None => Json::Null,
    }
}

/// The first field with the name.
pub open spec fn field_of(f: Seq<(Seq<char>, JsonV)>, key: Seq<char>) -> Option<JsonV>
    decreases f.len(),
{
    if f.len() == 0 {
        None
    } else if f[0].0 == key {
        Some(f[0].1)
    } else {
        field_of(f.skip(1), key)
    }
}

impl JsonV {
    /// The field of an object.
    pub open spec fn field(self, key: Seq<char>) -> Option<JsonV> {
        match self {
            JsonV::Object(f) => field_of(f, key),
            _ => None,
        }
    }

    /// The text of a string.
    pub open spec fn text(self) -> Option<Seq<char>> {
        match self {
            JsonV::Text(t) => Some(t),
            _ => None,
        }
    }

    /// The field of an object, where it is a string.
    pub open spec fn text_field(self, key: Seq<char>) -> Option<Seq<char>> {
        match self.field(key) {
            Some(v) => v.text(),
            None => None,
        }
    }

    /// The field of an object, where it is a boolean.
    pub open spec fn bool_field(self, key: Seq<char>) -> Option<bool> {
        match self.field(key) {
            Some(JsonV::Bool(b)) => Some(b),
            _ => None,
        }
    }

    /// The field of an object, where it is an unsigned integer.
    pub open spec fn u64_field(self, key: Seq<char>) -> Option<u64> {
        match self.field(key) {
            Some(JsonV::Uint(n)) => Some(n),
            Some(JsonV::Int(n)) => if n >= 0 {
                Some(n as u64)
            } else {
                None
            },
            _ => None,
        }
    }

    /// The field of an object, where it is a signed integer.
    pub open spec fn i64_field(self, key: Seq<char>) -> Option<i64> {
        match self.field(key) {
            Some(JsonV::Uint(n)) => if n <= i64::MAX {
                Some(n as i64)
            } else {
                None
            },
            Some(JsonV::Int(n)) => Some(n),
            _ => None,
        }
    }

    /// The field of an object, where it is a list.
    pub open spec fn list_field(self, key: Seq<char>) -> Option<Seq<JsonV>> {
        match self.field(key) {
            Some(JsonV::List(v)) => Some(v),
            _ => None,
        }
    }
}

impl Json {
    /// The field of an object.
    pub fn get(&self, key: &str) -> (r: Option<&Json>)
        ensures
            match r {
                Some(j) => self@.field(key@) == Some(j@),
                None => self@.field(key@) is None,
            },
    {
        proof {
            lemma_json_view(*self);
        }
        match self {
            Json::Object(f) => {
                let ghost fv = fields_view(f@);
                let mut i: usize = 0;
                assert(fv.skip(0) =~= fv);
                while i < f.len()
                    invariant
                        i <= f@.len(),
                        fv == fields_view(f@),
                        self@ == JsonV::Object(fv),
                        field_of(fv, key@) == field_of(fv.skip(i as int), key@),
                    decreases f@.len() - i,
                {
                    assert(fv.skip(i as int)[0] == (f@[i as int].0@, f@[i as int].1@));
                    assert(fv.skip(i as int).skip(1) =~= fv.skip(i + 1));
                    if same_text(f[i].0.as_str(), key) {
                        return Some(&f[i].1);
                    }
                    i += 1;
                }
                None
            },
            _ => None,
        }
    }

    /// The field of an object, where it is a string.
    pub fn get_str(&self, key: &str) -> (r: Option<&str>)
        ensures
            match r {
                Some(t) => self@.text_field(key@) == Some(t@),
                None => self@.text_field(key@) is None,
            },
    {
        match self.get(key) {
            Some(Json::Text(t)) => Some(t.as_str()),
            _ => None,
        }
    }

    /// The field of an object, where it is a boolean.
    pub fn get_bool(&self, key: &str) -> (r: Option<bool>)
        ensures
            r == self@.bool_field(key@),
    {
        match self.get(key) {
            Some(Json::Bool(b)) => Some(*b),
            _ => None,
        }
    }

    /// The field of an object, where it is an unsigned integer.
    pub fn get_u64(&self, key: &str) -> (r: Option<u64>)
        ensures
            r == self@.u64_field(key@),
    {
        match self.get(key) {
            Some(Json::Uint(n)) => Some(*n),
            Some(Json::Int(n)) => if *n >= 0 {
                Some(*n as u64)
            } else {
                None
            },
            _ => None,
        }
    }

    /// The field of an object, where it is a signed integer.
    pub fn get_i64(&self, key: &str) -> (r: Option<i64>)
        ensures
            r == self@.i64_field(key@),
    {
        match self.get(key) {
            Some(Json::Uint(n)) => if *n <= 0x7fff_ffff_ffff_ffff {
                Some(*n as i64)
            } else {
                None
            },
            Some(Json::Int(n)) => Some(*n),
            _ => None,
        }
    }

    /// The field of an object, where it is a list.
    pub fn get_list(&self, key: &str) -> (r: Option<&Vec<Json>>)
        ensures
            match r {
                Some(v) => self@.list_field(key@) == Some(list_view(v@)),
                None => self@.list_field(key@) is None,
            },
    {
        match self.get(key) {
            Some(j) => {
                proof {
                    lemma_json_view(*j);
                }
                match j {
                    Json::List(v) => Some(v),
                    _ => None,
                }
            },
            None => None,
        }
    }

    /// The document as a text.
    pub fn to_string(&self) -> (r: String)
        ensures
            r@ == json_written(self@),
    {
        write_json(self)
    }
}

// ---------------------------------------------------------------------------
// Building documents
// ---------------------------------------------------------------------------

/// An unsigned number.
pub open spec fn uint(n: u64) -> JsonV {
    JsonV::Uint(n)
}

/// A list of strings.
pub open spec fn texts_list(v: Seq<Seq<char>>) -> JsonV {
    JsonV::List(Seq::new(v.len(), |i: int| JsonV::Text(v[i])))
}

/// A string.
pub fn json_text(t: &str) -> (j: Json)
    ensures
        j@ == JsonV::Text(t@),
{
    Json::Text(copy_str(t))
}

/// An unsigned number.
pub fn json_uint(n: u64) -> (j: Json)
    ensures
        j@ == uint(n),
{
    Json::Uint(n)
}

/// A list of strings.
pub fn json_texts(v: &Vec<String>) -> (j: Json)
    ensures
        j@ == texts_list(texts(v@)),
{
    let mut out: Vec<Json> = Vec::new();
    let mut i: usize = 0;
    while i < v.len()
        invariant
            i <= v@.len(),
            out@.len() == i,
            forall|k: int| 0 <= k < i ==> (#[trigger] out@[k])@ == JsonV::Text(v@[k]@),
        decreases v@.len() - i,
    {
        out.push(json_text(v[i].as_str()));
        i += 1;
    }
    let j = Json::List(out);
    proof {
        lemma_json_view(j);
        assert(j@->List_0 =~= texts_list(texts(v@))->List_0);
    }
    j
}

/// An object that is being filled.
pub struct Fields {
    fields: Vec<(String, Json)>,
}

impl View for Fields {
    type V = Seq<(Seq<char>, JsonV)>;

    closed spec fn view(&self) -> Seq<(Seq<char>, JsonV)> {
        fields_view(self.fields@)
    }
}

impl Fields {
    /// No fields.
    pub fn new() -> (r: Fields)
        ensures
            r@ == Seq::<(Seq<char>, JsonV)>::empty(),
    {
        let r = Fields { fields: Vec::new() };
        assert(r@ =~= Seq::empty());
        r
    }

    /// One field more.
    pub fn put(&mut self, key: &str, value: Json)
        ensures
            final(self)@ == old(self)@.push((key@, value@)),
    {
        let ghost v = value@;
        self.fields.push((copy_str(key), value));
        assert(self@ =~= old(self)@.push((key@, v)));
    }

    /// The object with the fields.
    pub fn done(self) -> (j: Json)
        ensures
            j@ == JsonV::Object(self@),
    {
        let j = Json::Object(self.fields);
        proof {
            lemma_json_view(j);
        }
        j
    }
}

/// A field of an object, where no field before it has its name.
pub(crate) proof fn lemma_field_at(f: Seq<(Seq<char>, JsonV)>, i: int)
    requires
        0 <= i < f.len(),
        forall|j: int| 0 <= j < i ==> (#[trigger] f[j]).0 != f[i].0,
    ensures
        field_of(f, f[i].0) == Some(f[i].1),
    decreases i,
{
    if i > 0 {
        assert(f[0].0 != f[i].0);
        let g = f.skip(1);
        assert(g[i - 1] == f[i]);
        assert forall|j: int| 0 <= j < i - 1 implies (#[trigger] g[j]).0 != g[i - 1].0 by {
            assert(g[j] == f[j + 1]);
        }
        lemma_field_at(g, i - 1);
    }
}

/// A list of texts holds the texts, in their order.
pub proof fn text_lists_hold_the_texts(v: Seq<Seq<char>>)
    ensures
        texts_list(v) matches JsonV::List(l) && l.len() == v.len() && forall|i: int|
            0 <= i < v.len() ==> #[trigger] l[i] == JsonV::Text(v[i]),
{
}

/// A field is read by its name, the first of that name, and only as what it is: text as
/// text, a boolean as a boolean, a list as a list, and a whole number as one that holds it.
pub proof fn fields_are_read_as_what_they_are(f: Seq<(Seq<char>, JsonV)>, i: int)
    requires
        0 <= i < f.len(),
        forall|j: int| 0 <= j < i ==> (#[trigger] f[j]).0 != f[i].0,
    ensures
        ({
            let o = JsonV::Object(f);
            let k = f[i].0;
            &&& o.text_field(k) == (match f[i].1 {
                JsonV::Text(t) => Some(t),
                _ => None::<Seq<char>>,
            })
            &&& o.bool_field(k) == (match f[i].1 {
                JsonV::Bool(b) => Some(b),
                _ => None::<bool>,
            })
            &&& o.list_field(k) == (match f[i].1 {
                JsonV::List(l) => Some(l),
                _ => None::<Seq<JsonV>>,
            })
            &&& o.u64_field(k) matches Some(n) ==> f[i].1 == JsonV::Uint(n) || (
            f[i].1 matches JsonV::Int(m) && m == n)
            &&& o.i64_field(k) matches Some(n) ==> f[i].1 == JsonV::Int(n) || (
            f[i].1 matches JsonV::Uint(m) && m == n)
            &&& f[i].1 is Uint ==> o.u64_field(k) is Some
            &&& f[i].1 is Int ==> o.i64_field(k) is Some
        }),
{
    lemma_field_at(f, i);
}

/// A name that no field has is none of the object's, and what is no object has no fields.
pub proof fn other_names_have_no_field(f: Seq<(Seq<char>, JsonV)>, key: Seq<char>)
    requires
        forall|j: int| 0 <= j < f.len() ==> (#[trigger] f[j]).0 != key,
    ensures
        JsonV::Object(f).field(key) is None,
        JsonV::Null.field(key) is None,
    decreases f.len(),
{
    if f.len() > 0 {
        assert(f[0].0 != key);
        let g = f.skip(1);
        assert forall|j: int| 0 <= j < g.len() implies (#[trigger] g[j]).0 != key by {
            assert(g[j] == f[j + 1]);
        }
        other_names_have_no_field(g, key);
    }
}

} // verus!
