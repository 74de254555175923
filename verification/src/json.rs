//! JSON documents: a tree of plain values, read and written through `serde_json`.
use vstd::prelude::*;

use serde_json::Value;

use crate::text::{decimal, same};

verus! {

/// What a JSON value is, mathematically. Objects are maps from member names.
#[verifier::ext_equal]
pub enum JsonView {
    Null,
    Bool(bool),
    /// `unsigned` is the value of a number that is an integer from zero to `u64::MAX`;
    /// `text` is its decimal notation.
    Number { unsigned: Option<u64>, text: Seq<char> },
    Str(Seq<char>),
    Array(Seq<JsonView>),
    Object(Map<Seq<char>, JsonView>),
}

/// A JSON value. Where an object lists a member name twice, the first entry counts.
#[derive(Debug)]
pub enum Json {
    Null,
    Bool(bool),
    Number { unsigned: Option<u64>, text: String },
    Str(String),
    Array(Vec<Json>),
    Object(Vec<(String, Json)>),
}

impl Json {
    pub open spec fn model(self) -> JsonView
        decreases self, 0int,
    {
        match self {
            Json::Null => JsonView::Null,
            Json::Bool(b) => JsonView::Bool(b),
            Json::Number { unsigned, text } => JsonView::Number { unsigned, text: text@ },
            Json::Str(s) => JsonView::Str(s@),
            Json::Array(a) => JsonView::Array(items(a@)),
            Json::Object(o) => JsonView::Object(members(o@, 0)),
        }
    }
}

impl View for Json {
    type V = JsonView;

    open spec fn view(&self) -> JsonView {
        self.model()
    }
}

/// The values of the elements of an array.
pub open spec fn items(a: Seq<Json>) -> Seq<JsonView>
    decreases a, 1int,
{
    Seq::new(
        a.len(),
        |i: int|
            if 0 <= i < a.len() {
                a[i].model()
            } else {
                JsonView::Null
            },
    )
}

/// The members that the entries of an object from index `i` on give it.
pub open spec fn members(o: Seq<(String, Json)>, i: int) -> Map<Seq<char>, JsonView>
    decreases o, o.len() - i,
{
    if 0 <= i < o.len() {
        members(o, i + 1).insert(o[i].0@, o[i].1.model())
    } else {
        Map::empty()
    }
}

// ---- reading members and elements ----

/// The value behind an optional reference.
pub open spec fn seen(o: Option<&Json>) -> Option<JsonView> {
    match o {
        Some(j) => Some(j@),
        None => None,
    }
}

/// The member `key` of `o`, where `o` is an object that has it.
pub open spec fn at_key(o: Option<JsonView>, key: Seq<char>) -> Option<JsonView> {
    match o {
        Some(JsonView::Object(m)) => if m.contains_key(key) {
            Some(m[key])
        } else {
            None
        },
        _ => None,
    }
}

/// The element `i` of `o`, where `o` is an array that has it.
pub open spec fn at_index(o: Option<JsonView>, i: int) -> Option<JsonView> {
    match o {
        Some(JsonView::Array(a)) => if 0 <= i < a.len() {
            Some(a[i])
        } else {
            None
        },
        _ => None,
    }
}

/// The characters of `o`, where it is a string.
pub open spec fn str_in(o: Option<JsonView>) -> Option<Seq<char>> {
    match o {
        Some(JsonView::Str(s)) => Some(s),
        _ => None,
    }
}

/// The value of `o`, where it is an integer from zero to `u64::MAX`.
pub open spec fn u64_in(o: Option<JsonView>) -> Option<u64> {
    match o {
        Some(JsonView::Number { unsigned, text }) => unsigned,
        _ => None,
    }
}

/// The elements of `o`, where it is an array.
pub open spec fn array_in(o: Option<JsonView>) -> Option<Seq<JsonView>> {
    match o {
        Some(JsonView::Array(a)) => Some(a),
        _ => None,
    }
}

/// Looks up the member `key`. Anything but an object has none.
pub fn get<'a>(o: Option<&'a Json>, key: &str) -> (r: Option<&'a Json>)
    ensures
        seen(r) == at_key(seen(o), key@),
{
    match o {
        Some(Json::Object(entries)) => {
            let ghost m = members(entries@, 0);
            let mut i: usize = 0;
            while i < entries.len()
                invariant
                    i <= entries.len(),
                    seen(o) == Some(JsonView::Object(m)),
                    m.contains_key(key@) == members(entries@, i as int).contains_key(key@),
                    m.contains_key(key@) ==> m[key@] == members(entries@, i as int)[key@],
                decreases entries.len() - i,
            {
                let entry = &entries[i];
                if same(entry.0.as_str(), key) {
                    return Some(&entry.1);
                }
                i += 1;
            }
            None
        },
        _ => None,
    }
}

/// Looks up the element `i`. Anything but an array has none.
pub fn elem<'a>(o: Option<&'a Json>, i: usize) -> (r: Option<&'a Json>)
    ensures
        seen(r) == at_index(seen(o), i as int),
{
    match o {
        Some(Json::Array(a)) => if i < a.len() {
            Some(&a[i])
        } else {
            None
        },
        _ => None,
    }
}

/// The characters of a JSON string.
pub fn as_str<'a>(o: Option<&'a Json>) -> (r: Option<&'a str>)
    ensures
        match r {
            Some(s) => str_in(seen(o)) == Some(s@),
            None => str_in(seen(o)) is None,
        },
{
    match o {
        Some(Json::Str(s)) => Some(s.as_str()),
        _ => None,
    }
}

/// The value of a JSON number that is an integer from zero to `u64::MAX`.
pub fn as_u64(o: Option<&Json>) -> (r: Option<u64>)
    ensures
        r == u64_in(seen(o)),
{
    match o {
        Some(Json::Number { unsigned, text }) => *unsigned,
        _ => None,
    }
}

/// The elements of a JSON array.
pub fn as_array<'a>(o: Option<&'a Json>) -> (r: Option<&'a Vec<Json>>)
    ensures
        match r {
            Some(a) => array_in(seen(o)) == Some(items(a@)),
            None => array_in(seen(o)) is None,
        },
{
    match o {
        Some(Json::Array(a)) => Some(a),
        _ => None,
    }
}

/// Whether `o` is there and is not `null`.
pub fn is_present(o: Option<&Json>) -> (r: bool)
    ensures
        r == (seen(o) is Some && seen(o) != Some(JsonView::Null)),
{
    match o {
        None => false,
        Some(Json::Null) => false,
        Some(_) => true,
    }
}

// ---- serde_json ----

/// `serde_json::Value`, as an opaque type.
#[verifier::external_type_specification]
#[verifier::external_body]
pub struct ExValue(serde_json::Value);

/// What a `serde_json::Value` holds.
pub uninterp spec fn contents(v: serde_json::Value) -> JsonView;

/// What `serde_json::from_str::<Value>` reads from a text; `None` where it gives an error.
pub uninterp spec fn parsed(text: Seq<char>) -> Option<JsonView>;

/// What `serde_json::from_slice::<Value>` reads from bytes; `None` where it gives an error.
pub uninterp spec fn parsed_bytes(bytes: Seq<u8>) -> Option<JsonView>;

/// The text that the `Display` impl of `serde_json::Value` writes for a value that holds `v`.
pub uninterp spec fn rendered(v: JsonView) -> Seq<char>;

/// Calls `serde_json::from_str::<Value>`. What it reads is named; the error is dropped.
#[verifier::external_body]
fn value_from_str(text: &str) -> (r: Option<Value>)
    ensures
        match r {
            Some(v) => parsed(text@) == Some(contents(v)),
            None => parsed(text@) is None,
        },
{
    serde_json::from_str::<Value>(text).ok()
}

/// Calls `serde_json::from_slice::<Value>`. What it reads is named; the error is dropped.
#[verifier::external_body]
fn value_from_slice(bytes: &[u8]) -> (r: Option<Value>)
    ensures
        match r {
            Some(v) => parsed_bytes(bytes@) == Some(contents(v)),
            None => parsed_bytes(bytes@) is None,
        },
{
    serde_json::from_slice::<Value>(bytes).ok()
}

/// Calls `to_string` on a `serde_json::Value`. The text is named: it depends on what the
/// value holds alone, as the members of an object are kept in the order of their names.
#[verifier::external_body]
pub(crate) fn render(v: &Value) -> (r: String)
    ensures
        r@ == rendered(contents(*v)),
{
    v.to_string()
}

/// One layer of a `serde_json::Value`.
enum Layer<'a> {
    Null,
    Bool(bool),
    Number { unsigned: Option<u64>, text: String },
    Str(&'a String),
    Array(&'a Vec<Value>),
    Object(Vec<(&'a String, &'a Value)>),
}

/// Tells the variants of a `serde_json::Value` apart. A number gives what its `as_u64` and
/// its `to_string` give; an object gives the entries that its `iter` walks, one for each
/// member name, every name once.
#[verifier::external_body]
fn layer_of<'a>(v: &'a Value) -> (r: Layer<'a>)
    ensures
        match r {
            Layer::Null => contents(*v) == JsonView::Null,
            Layer::Bool(b) => contents(*v) == JsonView::Bool(b),
            Layer::Number { unsigned, text } => contents(*v) == (JsonView::Number {
                unsigned,
                text: text@,
            }),
            Layer::Str(s) => contents(*v) == JsonView::Str(s@),
            Layer::Array(a) => contents(*v) == JsonView::Array(
                a@.map_values(|x: Value| contents(x)),
            ),
            Layer::Object(o) => contents(*v) matches JsonView::Object(m) && m.dom().finite() && (
            forall|k: Seq<char>| #[trigger]
                m.contains_key(k) <==> exists|i: int| 0 <= i < o@.len() && (#[trigger] o@[i]).0@ == k)
                && (forall|i: int|
                0 <= i < o@.len() ==> m[(#[trigger] o@[i]).0@] == contents(*o@[i].1)),
        },
{
    match v {
        Value::Null => Layer::Null,
        Value::Bool(b) => Layer::Bool(*b),
        Value::Number(n) => Layer::Number { unsigned: n.as_u64(), text: n.to_string() },
        Value::String(s) => Layer::Str(s),
        Value::Array(a) => Layer::Array(a),
        Value::Object(m) => Layer::Object(m.iter().collect()),
    }
}

/// The tree of a `serde_json::Value`.
fn to_json(v: &Value) -> (r: Json)
    ensures
        r@ == contents(*v),
    decreases contents(*v),
{
    match layer_of(v) {
        Layer::Null => Json::Null,
        Layer::Bool(b) => Json::Bool(b),
        Layer::Number { unsigned, text } => Json::Number { unsigned, text },
        Layer::Str(s) => Json::Str(s.clone()),
        Layer::Array(a) => {
            let mut out: Vec<Json> = Vec::new();
            let ghost vs = contents(*v)->Array_0;
            for i in 0..a.len()
                invariant
                    contents(*v) == JsonView::Array(vs),
                    vs == a@.map_values(|x: Value| contents(x)),
                    items(out@) == vs.take(i as int),
                    out@.len() == i,
            {
                assert(vs[i as int] == contents(a@[i as int]));
                assert(decreases_to!(contents(*v) => contents(*v)->Array_0));
                assert(decreases_to!(vs => vs[i as int]));
                let ghost before = out@;
                let x = to_json(&a[i]);
                out.push(x);
                assert(items(out@) =~= vs.take(i + 1)) by {
                    assert forall|j: int| 0 <= j < i + 1 implies items(out@)[j] == vs[j] by {
                        if j < i {
                            assert(items(before)[j] == vs.take(i as int)[j]);
                        }
                    }
                }
            }
            assert(vs.take(a.len() as int) =~= vs);
            Json::Array(out)
        },
        Layer::Object(o) => {
            let ghost m = contents(*v)->Object_0;
            let mut out: Vec<(String, Json)> = Vec::new();
            for i in 0..o.len()
                invariant
                    contents(*v) == JsonView::Object(m),
                    m.dom().finite(),
                    forall|k: Seq<char>| #[trigger]
                        m.contains_key(k) <==> exists|i: int|
                            0 <= i < o@.len() && (#[trigger] o@[i]).0@ == k,
                    forall|i: int|
                        0 <= i < o@.len() ==> m[(#[trigger] o@[i]).0@] == contents(*o@[i].1),
                    out@.len() == i,
                    forall|j: int|
                        0 <= j < i ==> (#[trigger] out@[j]).0@ == o@[j].0@ && out@[j].1@
                            == contents(*o@[j].1),
            {
                let entry = &o[i];
                assert(m.contains_key(entry.0@));
                assert(decreases_to!(contents(*v) => contents(*v)->Object_0));
                assert(decreases_to!(m => m[entry.0@]));
                let x = to_json(entry.1);
                out.push((entry.0.clone(), x));
            }
            proof {
                lemma_members(out@, 0);
                let made = members(out@, 0);
                assert forall|k: Seq<char>| made.contains_key(k) == m.contains_key(k) by {
                    if made.contains_key(k) {
                        let j = choose|j: int| 0 <= j < out@.len() && (#[trigger] out@[j]).0@ == k;
                        assert(o@[j].0@ == k);
                    }
                    if m.contains_key(k) {
                        let j = choose|j: int| 0 <= j < o@.len() && (#[trigger] o@[j]).0@ == k;
                        assert(out@[j].0@ == k);
                    }
                }
                assert(made =~= m);
            }
            Json::Object(out)
        },
    }
}

/// The entries from index `i` on have exactly the names of the members they give, and each
/// name has the value of one of its entries.
proof fn lemma_members(o: Seq<(String, Json)>, i: int)
    requires
        0 <= i <= o.len(),
    ensures
        forall|k: Seq<char>| #[trigger]
            members(o, i).contains_key(k) <==> exists|j: int|
                i <= j < o.len() && (#[trigger] o[j]).0@ == k,
        forall|k: Seq<char>| #[trigger]
            members(o, i).contains_key(k) ==> exists|j: int|
                i <= j < o.len() && (#[trigger] o[j]).0@ == k && o[j].1@ == members(o, i)[k],
    decreases o.len() - i,
{
    if i < o.len() {
        lemma_members(o, i + 1);
        let rest = members(o, i + 1);
        assert forall|k: Seq<char>| #[trigger] members(o, i).contains_key(k) <==> exists|j: int|
            i <= j < o.len() && (#[trigger] o[j]).0@ == k by {
            if o[i].0@ == k {
            } else {
                assert(rest.contains_key(k) == members(o, i).contains_key(k));
            }
        }
        assert forall|k: Seq<char>| #[trigger] members(o, i).contains_key(k) implies exists|j: int|
            i <= j < o.len() && (#[trigger] o[j]).0@ == k && o[j].1@ == members(o, i)[k] by {
            if o[i].0@ == k {
            } else {
                assert(rest.contains_key(k));
            }
        }
    }
}

/// Reads a JSON text. `None` where it is no JSON.
pub fn read_text(text: &str) -> (r: Option<Json>)
    ensures
        match r {
            Some(j) => parsed(text@) == Some(j@),
            None => parsed(text@) is None,
        },
{
    match value_from_str(text) {
        Some(v) => Some(to_json(&v)),
        None => None,
    }
}

/// Reads JSON from bytes. `None` where they are no JSON.
pub fn read_bytes(bytes: &[u8]) -> (r: Option<Json>)
    ensures
        match r {
            Some(j) => parsed_bytes(bytes@) == Some(j@),
            None => parsed_bytes(bytes@) is None,
        },
{
    match value_from_slice(bytes) {
        Some(v) => Some(to_json(&v)),
        None => None,
    }
}

// ---- writing ----

/// Calls `Value::from` on a string: a JSON string of the same characters.
#[verifier::external_body]
pub(crate) fn value_str(s: &str) -> (r: Value)
    ensures
        contents(r) == JsonView::Str(s@),
{
    Value::from(s)
}

/// Calls `Value::from` on a `u64`: a JSON number of that value, written in decimal.
#[verifier::external_body]
pub(crate) fn value_u64(n: u64) -> (r: Value)
    ensures
        contents(r) == (JsonView::Number { unsigned: Some(n), text: decimal(n as nat) }),
{
    Value::from(n)
}

/// Calls `Value::from` on a `bool`.
#[verifier::external_body]
pub(crate) fn value_bool(b: bool) -> (r: Value)
    ensures
        contents(r) == JsonView::Bool(b),
{
    Value::from(b)
}

/// Calls `Value::from` on a vector: a JSON array of the same elements in the same order.
#[verifier::external_body]
pub(crate) fn value_array(a: Vec<Value>) -> (r: Value)
    ensures
        contents(r) == JsonView::Array(a@.map_values(|x: Value| contents(x))),
{
    Value::from(a)
}

/// Calls `serde_json::Map::new`, for an object without members.
#[verifier::external_body]
pub(crate) fn value_object() -> (r: Value)
    ensures
        contents(r) == JsonView::Object(Map::empty()),
{
    Value::Object(serde_json::Map::new())
}

/// Calls `serde_json::Map::insert` on the map of an object: the member `key` takes the value
/// `x`, whether it was there before or not. Any value but an object is left as it is.
#[verifier::external_body]
pub(crate) fn value_insert(v: &mut Value, key: &str, x: Value)
    ensures
        match contents(*old(v)) {
            JsonView::Object(m) => contents(*final(v)) == JsonView::Object(
                m.insert(key@, contents(x)),
            ),
            _ => contents(*final(v)) == contents(*old(v)),
        },
{
    if let Value::Object(m) = v {
        m.insert(key.to_owned(), x);
    }
}

/// The array of one JSON string.
pub(crate) fn string_array(s: &str) -> (r: Value)
    ensures
        contents(r) == JsonView::Array(seq![JsonView::Str(s@)]),
{
    let mut a: Vec<Value> = Vec::new();
    a.push(value_str(s));
    let r = value_array(a);
    assert(contents(r)->Array_0 =~= seq![JsonView::Str(s@)]);
    r
}

// ---- laws ----

proof fn lemma_first_entry_counts(o: Seq<(String, Json)>, from: int, i: int, key: Seq<char>)
    requires
        0 <= from <= i <= o.len(),
        forall|j: int| from <= j < i ==> (#[trigger] o[j]).0@ != key,
        i == o.len() || o[i].0@ == key,
    ensures
        members(o, from).contains_key(key) <==> i < o.len(),
        i < o.len() ==> members(o, from)[key] == o[i].1@,
    decreases i - from,
{
    if from < i {
        assert(o[from].0@ != key);
        lemma_first_entry_counts(o, from + 1, i, key);
    } else if i < o.len() {
        assert(members(o, i) == members(o, i + 1).insert(o[i].0@, o[i].1.model()));
    }
}

/// A member is looked up by its name: the first entry of an object that has it; none where no
/// entry does, or what is looked into is no object.
pub proof fn law_members_are_found_by_name(o: Option<&Json>, key: &str, r: Option<&Json>, i: int)
    requires
        call_ensures(get, (o, key), r),
    ensures
        !(o matches Some(Json::Object(_))) ==> r is None,
        o matches Some(Json::Object(entries)) ==> (0 <= i <= entries@.len() && (forall|j: int|
            0 <= j < i ==> (#[trigger] entries@[j]).0@ != key@) && (i == entries@.len()
            || entries@[i].0@ == key@) ==> seen(r) == (if i < entries@.len() {
            Some(entries@[i].1@)
        } else {
            None
        })),
{
    if let Some(Json::Object(entries)) = o {
        if 0 <= i <= entries@.len() && (forall|j: int|
            0 <= j < i ==> (#[trigger] entries@[j]).0@ != key@) && (i == entries@.len()
            || entries@[i].0@ == key@) {
            lemma_first_entry_counts(entries@, 0, i, key@);
        }
    }
}

/// An element is looked up by its place in an array; there is none beyond its end, nor in what
/// is no array.
pub proof fn law_elements_are_found_by_place(o: Option<&Json>, i: usize, r: Option<&Json>)
    requires
        call_ensures(elem, (o, i), r),
    ensures
        match o {
            Some(Json::Array(a)) => seen(r) == (if i < a@.len() {
                Some(a@[i as int]@)
            } else {
                None
            }),
            _ => r is None,
        },
{
}

/// A value is read as what it is and as nothing else: a string as its characters, a number as its
/// integer where it is one, an array as its elements; and it is there unless it is `null`.
pub proof fn law_values_are_read_as_they_are(
    o: Option<&Json>,
    s: Option<&str>,
    n: Option<u64>,
    a: Option<&Vec<Json>>,
    p: bool,
)
    requires
        call_ensures(as_str, (o,), s),
        call_ensures(as_u64, (o,), n),
        call_ensures(as_array, (o,), a),
        call_ensures(is_present, (o,), p),
    ensures
        match o {
            Some(Json::Str(x)) => s is Some && s->0@ == x@,
            _ => s is None,
        },
        match o {
            Some(Json::Number { unsigned, text }) => n == unsigned,
            _ => n is None,
        },
        match o {
            Some(Json::Array(x)) => a is Some && a->0@.len() == x@.len() && forall|i: int|
                0 <= i < x@.len() ==> (#[trigger] a->0@[i])@ == x@[i]@,
            _ => a is None,
        },
        p == !(o is None || o matches Some(Json::Null)),
{
    if let Some(Json::Array(x)) = o {
        let y = a->0@;
        assert(items(y) == items(x@));
        assert forall|i: int| 0 <= i < x@.len() implies (#[trigger] y[i])@ == x@[i]@ by {
            assert(items(y)[i] == items(x@)[i]);
        }
    }
}

/// Lookups on what a document is: a member by its name, an element by its place, and strings,
/// integers and arrays as such.
pub proof fn law_lookups_find_what_is_there(v: JsonView, key: Seq<char>, i: int)
    ensures
        at_key(Some(v), key) == (match v {
            JsonView::Object(m) => if m.contains_key(key) {
                Some(m[key])
            } else {
                None
            },
            _ => None,
        }),
        at_index(Some(v), i) == (match v {
            JsonView::Array(a) => if 0 <= i < a.len() {
                Some(a[i])
            } else {
                None
            },
            _ => None,
        }),
        str_in(Some(v)) == (match v {
            JsonView::Str(s) => Some(s),
            _ => None,
        }),
        u64_in(Some(v)) == (match v {
            JsonView::Number { unsigned, text } => unsigned,
            _ => None,
        }),
        array_in(Some(v)) == (match v {
            JsonView::Array(a) => Some(a),
            _ => None,
        }),
        at_key(None, key) is None && at_index(None, i) is None && str_in(None) is None && u64_in(
            None,
        ) is None && array_in(None) is None,
{
}

/// Texts and bytes are read as the JSON that they are, and what is no JSON is not read.
pub proof fn law_documents_are_read(text: &str, bytes: &[u8], a: Option<Json>, b: Option<Json>)
    requires
        call_ensures(read_text, (text,), a),
        call_ensures(read_bytes, (bytes,), b),
    ensures
        a is Some <==> parsed(text@) is Some,
        a matches Some(j) ==> parsed(text@) == Some(j@),
        b is Some <==> parsed_bytes(bytes@) is Some,
        b matches Some(j) ==> parsed_bytes(bytes@) == Some(j@),
{
}

} // verus!
