//! The canonical form of a value: every dictionary in byte order of its
//! keys, with one entry for each key.

use crate::dictionary::{
    lemma_inserted_entries, lemma_inserted_sorted, lemma_insertion_order_is_immaterial,
};
use crate::encode::canonical_encoding;
use crate::value::{
    dict_insert, entries_view, inserted, items_view, keys_sorted, well_formed, CanonicalValue,
    Value,
};
use vstd::prelude::*;
use vstd::slice::slice_to_vec;

verus! {

/// The items of a list, each in canonical form.
pub open spec fn normalize_items(l: Seq<Value>) -> Seq<Value>
    decreases l, 0int,
{
    Seq::new(
        l.len(),
        |i: int|
            if 0 <= i < l.len() {
                normalize(l[i])
            } else {
                Value::Int(0)
            },
    )
}

/// The dictionary that binds the keys of the first `upto` entries of `d`,
/// in turn, to the canonical forms of their values: of two entries under
/// one key the later stays.
pub open spec fn normalize_entries(d: Seq<(Seq<u8>, Value)>, upto: int) -> Seq<(Seq<u8>, Value)>
    decreases d, upto,
{
    if upto <= 0 || upto > d.len() {
        Seq::empty()
    } else {
        inserted(normalize_entries(d, upto - 1), d[upto - 1].0, normalize(d[upto - 1].1))
    }
}

/// The canonical form of a value: the same value with the entries of every
/// dictionary in byte order of their keys.
pub open spec fn normalize(v: Value) -> Value
    decreases v, 0int,
{
    match v {
        Value::Bytes(_) => v,
        Value::Int(_) => v,
        Value::List(l) => Value::List(normalize_items(l)),
        Value::Dict(d) => Value::Dict(normalize_entries(d, d.len() as int)),
    }
}

/// Binding a key to a well-formed value keeps a well-formed dictionary well
/// formed.
pub proof fn lemma_inserted_well_formed(d: Seq<(Seq<u8>, Value)>, key: Seq<u8>, value: Value)
    requires
        well_formed(Value::Dict(d)),
        well_formed(value),
    ensures
        well_formed(Value::Dict(inserted(d, key, value))),
{
    let bound = inserted(d, key, value);
    lemma_inserted_sorted(d, key, value);
    assert forall|i: int| 0 <= i < bound.len() implies well_formed((#[trigger] bound[i]).1) by {
        assert(bound.contains(bound[i]));
        lemma_inserted_entries(d, key, value, bound[i]);
        if bound[i] != (key, value) {
            let k = choose|k: int| 0 <= k < d.len() && d[k] == bound[i];
            assert(well_formed(d[k].1));
        }
    }
}

proof fn lemma_normalize_entries_fixed(d: Seq<(Seq<u8>, Value)>, upto: int)
    requires
        well_formed(Value::Dict(d)),
        0 <= upto <= d.len(),
    ensures
        normalize_entries(d, upto) == d.take(upto),
    decreases d, upto,
{
    if upto > 0 {
        lemma_normalize_entries_fixed(d, upto - 1);
        lemma_normalize_fixed(d[upto - 1].1);
        let front = d.take(upto - 1);
        if upto > 1 {
            assert(front.last() == d[upto - 2]);
        }
        assert(front.push(d[upto - 1]) =~= d.take(upto));
    } else {
        assert(d.take(0) =~= Seq::empty());
    }
}

/// A well-formed value is its own canonical form.
pub proof fn lemma_normalize_fixed(v: Value)
    requires
        well_formed(v),
    ensures
        normalize(v) == v,
    decreases v, 0int,
{
    match v {
        Value::List(l) => {
            assert forall|i: int| 0 <= i < l.len() implies normalize_items(l)[i] == l[i] by {
                lemma_normalize_fixed(l[i]);
            }
            assert(normalize_items(l) =~= l);
        },
        Value::Dict(d) => {
            lemma_normalize_entries_fixed(d, d.len() as int);
            assert(d.take(d.len() as int) =~= d);
        },
        _ => {},
    }
}

/// What `normalize_entries` gives for the first entries of a dictionary
/// depends on those entries alone.
pub proof fn lemma_normalize_entries_prefix(
    a: Seq<(Seq<u8>, Value)>,
    b: Seq<(Seq<u8>, Value)>,
    upto: int,
)
    requires
        0 <= upto <= a.len(),
        upto <= b.len(),
        forall|i: int| 0 <= i < upto ==> a[i] == b[i],
    ensures
        normalize_entries(a, upto) == normalize_entries(b, upto),
    decreases upto,
{
    if upto > 0 {
        lemma_normalize_entries_prefix(a, b, upto - 1);
    }
}

/// The canonical form of the first entries of a dictionary is in byte
/// order of its keys.
pub proof fn lemma_normalize_entries_sorted(d: Seq<(Seq<u8>, Value)>, upto: int)
    requires
        0 <= upto <= d.len(),
    ensures
        keys_sorted(normalize_entries(d, upto)),
    decreases upto,
{
    if upto > 0 {
        lemma_normalize_entries_sorted(d, upto - 1);
        lemma_inserted_sorted(
            normalize_entries(d, upto - 1),
            d[upto - 1].0,
            normalize(d[upto - 1].1),
        );
    }
}

proof fn lemma_normalize_entries_suffix(
    a: Seq<(Seq<u8>, Value)>,
    b: Seq<(Seq<u8>, Value)>,
    from: int,
    upto: int,
)
    requires
        0 <= from <= upto <= a.len(),
        a.len() == b.len(),
        normalize_entries(a, from) == normalize_entries(b, from),
        forall|i: int| from <= i < upto ==> a[i] == b[i],
    ensures
        normalize_entries(a, upto) == normalize_entries(b, upto),
    decreases upto - from,
{
    if from < upto {
        lemma_normalize_entries_suffix(a, b, from, upto - 1);
    }
}

/// The order in which a dictionary holds its entries leaves no trace in
/// what is written: two dictionaries that differ by a swap of two
/// neighbouring entries with different keys have the same canonical form
/// and the same encoding.
pub proof fn lemma_entry_order_is_immaterial(
    a: Seq<(Seq<u8>, Value)>,
    b: Seq<(Seq<u8>, Value)>,
    at: int,
)
    requires
        0 <= at,
        at + 1 < a.len(),
        a[at].0 != a[at + 1].0,
        b == a.update(at, a[at + 1]).update(at + 1, a[at]),
    ensures
        normalize(Value::Dict(a)) == normalize(Value::Dict(b)),
        canonical_encoding(Value::Dict(a)) == canonical_encoding(Value::Dict(b)),
{
    lemma_normalize_entries_prefix(a, b, at);
    lemma_normalize_entries_sorted(a, at);
    let base = normalize_entries(a, at);
    assert(normalize_entries(a, at + 1) == inserted(base, a[at].0, normalize(a[at].1)));
    assert(normalize_entries(b, at + 1) == inserted(base, b[at].0, normalize(b[at].1)));
    assert(normalize_entries(a, at + 2) == inserted(
        normalize_entries(a, at + 1),
        a[at + 1].0,
        normalize(a[at + 1].1),
    ));
    assert(normalize_entries(b, at + 2) == inserted(
        normalize_entries(b, at + 1),
        b[at + 1].0,
        normalize(b[at + 1].1),
    ));
    lemma_insertion_order_is_immaterial(
        base,
        a[at].0,
        normalize(a[at].1),
        a[at + 1].0,
        normalize(a[at + 1].1),
    );
    lemma_normalize_entries_suffix(a, b, at + 2, a.len() as int);
}

fn normalized_items(l: &Vec<CanonicalValue>) -> (r: Vec<CanonicalValue>)
    ensures
        items_view(r) == normalize_items(items_view(*l)),
        well_formed(Value::List(items_view(r))),
    decreases l, 0int,
{
    let mut r: Vec<CanonicalValue> = Vec::new();
    let mut i: usize = 0;
    while i < l.len()
        invariant
            i <= l.len(),
            r@.len() == i,
            forall|k: int| 0 <= k < i ==> (#[trigger] r@[k])@ == normalize(l@[k]@),
            forall|k: int| 0 <= k < i ==> well_formed((#[trigger] r@[k])@),
        decreases l.len() - i,
    {
        r.push(normalized(&l[i]));
        i += 1;
    }
    assert(items_view(r) =~= normalize_items(items_view(*l)));
    r
}

fn normalized_entries(d: &Vec<(Vec<u8>, CanonicalValue)>) -> (r: Vec<(Vec<u8>, CanonicalValue)>)
    ensures
        entries_view(r) == normalize_entries(entries_view(*d), d.len() as int),
        well_formed(Value::Dict(entries_view(r))),
    decreases d, 0int,
{
    let ghost entries = entries_view(*d);
    let mut r: Vec<(Vec<u8>, CanonicalValue)> = Vec::new();
    let mut i: usize = 0;
    assert(entries_view(r) =~= Seq::empty());
    while i < d.len()
        invariant
            i <= d.len(),
            entries == entries_view(*d),
            entries_view(r) == normalize_entries(entries, i as int),
            well_formed(Value::Dict(entries_view(r))),
        decreases d.len() - i,
    {
        let key = slice_to_vec(d[i].0.as_slice());
        let value = normalized(&d[i].1);
        proof {
            lemma_inserted_well_formed(entries_view(r), key@, value@);
        }
        dict_insert(&mut r, key, value);
        i += 1;
    }
    r
}

/// The canonical form of a value: a copy with the entries of every
/// dictionary in byte order of their keys, one for each key.
pub fn normalized(v: &CanonicalValue) -> (r: CanonicalValue)
    ensures
        r@ == normalize(v@),
        well_formed(r@),
    decreases v, 1int,
{
    match v {
        CanonicalValue::ByteString(b) => CanonicalValue::ByteString(slice_to_vec(b.as_slice())),
        CanonicalValue::Integer(i) => CanonicalValue::Integer(*i),
        CanonicalValue::List(l) => CanonicalValue::List(normalized_items(l)),
        CanonicalValue::Dict(d) => CanonicalValue::Dict(normalized_entries(d)),
    }
}

} // verus!
