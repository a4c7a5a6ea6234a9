//! A generic tree for inspecting a canonical value: text, numbers, arrays
//! and objects.

use crate::value::{entries_view, items_view, CanonicalValue, Value};
use vstd::prelude::*;
use vstd::utf8::{decode_utf8, valid_utf8};

verus! {

/// A JSON-like tree.
#[derive(Debug, PartialEq, Eq)]
pub enum JsonValue {
    /// A text.
    String(String),
    /// A number.
    Number(i64),
    /// An ordered sequence of trees.
    Array(Vec<JsonValue>),
    /// Names with their trees, in the order of the dictionary they came from.
    Object(Vec<(String, JsonValue)>),
}

/// A JSON-like tree as a mathematical value.
pub enum JsonView {
    String(Seq<char>),
    Number(int),
    Array(Seq<JsonView>),
    Object(Seq<(Seq<char>, JsonView)>),
}

/// The members of an object as mathematical values.
pub open spec fn members_view(m: Vec<(String, JsonValue)>) -> Seq<(Seq<char>, JsonView)>
    decreases m, 0nat,
{
    Seq::new(
        m.len() as nat,
        |i: int|
            if 0 <= i < m.len() {
                (m[i].0@, json_view(m[i].1))
            } else {
                (Seq::empty(), JsonView::Number(0))
            },
    )
}

/// The elements of an array as mathematical values.
pub open spec fn elements_view(a: Vec<JsonValue>) -> Seq<JsonView>
    decreases a, 0nat,
{
    Seq::new(
        a.len() as nat,
        |i: int|
            if 0 <= i < a.len() {
                json_view(a[i])
            } else {
                JsonView::Number(0)
            },
    )
}

/// The mathematical value of a tree.
pub open spec fn json_view(j: JsonValue) -> JsonView
    decreases j, 1nat,
{
    match j {
        JsonValue::String(s) => JsonView::String(s@),
        JsonValue::Number(n) => JsonView::Number(n as int),
        JsonValue::Array(a) => JsonView::Array(elements_view(a)),
        JsonValue::Object(m) => JsonView::Object(members_view(m)),
    }
}

impl View for JsonValue {
    type V = JsonView;

    open spec fn view(&self) -> JsonView {
        json_view(*self)
    }
}

/// The text that bytes are shown as: the text they spell where they are
/// UTF-8, and else that text with a replacement character for each part
/// that is not.
pub uninterp spec fn lossy_text(bytes: Seq<u8>) -> Seq<char>;

/// `String::from_utf8_lossy`: the text that `bytes` are shown as, which is
/// the text they spell where they are valid UTF-8.
#[verifier::external_body]
fn text_lossy(bytes: &[u8]) -> (text: String)
    ensures
        text@ == lossy_text(bytes@),
        valid_utf8(bytes@) ==> text@ == decode_utf8(bytes@),
{
    String::from_utf8_lossy(bytes).into_owned()
}

/// The inspection tree of the items of a list.
pub open spec fn json_of_items(l: Seq<Value>) -> Seq<JsonView>
    decreases l, 0nat,
{
    Seq::new(
        l.len(),
        |i: int|
            if 0 <= i < l.len() {
                json_of(l[i])
            } else {
                JsonView::Number(0)
            },
    )
}

/// The inspection tree of the entries of a dictionary.
pub open spec fn json_of_entries(d: Seq<(Seq<u8>, Value)>) -> Seq<(Seq<char>, JsonView)>
    decreases d, 0nat,
{
    Seq::new(
        d.len(),
        |i: int|
            if 0 <= i < d.len() {
                (lossy_text(d[i].0), json_of(d[i].1))
            } else {
                (Seq::empty(), JsonView::Number(0))
            },
    )
}

/// The inspection tree of a value: a byte string becomes the text it is
/// shown as, an integer a number, a list an array, and a dictionary an
/// object with the keys shown as text.
pub open spec fn json_of(v: Value) -> JsonView
    decreases v, 1nat,
{
    match v {
        Value::Bytes(b) => JsonView::String(lossy_text(b)),
        Value::Int(i) => JsonView::Number(i),
        Value::List(l) => JsonView::Array(json_of_items(l)),
        Value::Dict(d) => JsonView::Object(json_of_entries(d)),
    }
}

fn items_to_json(l: &Vec<CanonicalValue>) -> (a: Vec<JsonValue>)
    ensures
        elements_view(a) == json_of_items(items_view(*l)),
    decreases l, 0nat,
{
    let mut a: Vec<JsonValue> = Vec::new();
    let mut i: usize = 0;
    while i < l.len()
        invariant
            i <= l.len(),
            a@.len() == i,
            forall|k: int| 0 <= k < i ==> json_view(#[trigger] a@[k]) == json_of(l@[k]@),
        decreases l.len() - i,
    {
        a.push(bencode_to_json(&l[i]));
        i += 1;
    }
    assert(elements_view(a) =~= json_of_items(items_view(*l)));
    a
}

fn entries_to_json(d: &Vec<(Vec<u8>, CanonicalValue)>) -> (m: Vec<(String, JsonValue)>)
    ensures
        members_view(m) == json_of_entries(entries_view(*d)),
    decreases d, 0nat,
{
    let mut m: Vec<(String, JsonValue)> = Vec::new();
    let mut i: usize = 0;
    while i < d.len()
        invariant
            i <= d.len(),
            m@.len() == i,
            forall|k: int|
                0 <= k < i ==> (#[trigger] m@[k]).0@ == lossy_text(d@[k].0@) && json_view(m@[k].1)
                    == json_of(d@[k].1@),
        decreases d.len() - i,
    {
        let name = text_lossy(d[i].0.as_slice());
        let tree = bencode_to_json(&d[i].1);
        m.push((name, tree));
        i += 1;
    }
    assert(members_view(m) =~= json_of_entries(entries_view(*d)));
    m
}

/// Projects a value into a generic tree for inspection.
pub fn bencode_to_json(v: &CanonicalValue) -> (j: JsonValue)
    ensures
        j@ == json_of(v@),
    decreases v, 1nat,
{
    match v {
        CanonicalValue::ByteString(b) => JsonValue::String(text_lossy(b.as_slice())),
        CanonicalValue::Integer(i) => JsonValue::Number(*i),
        CanonicalValue::List(l) => JsonValue::Array(items_to_json(l)),
        CanonicalValue::Dict(d) => JsonValue::Object(entries_to_json(d)),
    }
}

} // verus!
