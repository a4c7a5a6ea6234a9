//! Writing a canonical value as bytes.

use crate::canonical::{lemma_normalize_fixed, normalize, normalized};
use crate::decode::decoded;
use crate::roundtrip::lemma_decode_encode;
use crate::value::{entries_view, items_view, well_formed, CanonicalValue, Value};
use crate::wire::put_slice;
use vstd::prelude::*;

verus! {

/// The decimal digits of `n`, without leading zeros.
pub open spec fn nat_digits(n: nat) -> Seq<u8>
    decreases n,
{
    if n < 10 {
        seq![(48 + n) as u8]
    } else {
        nat_digits(n / 10).push((48 + n % 10) as u8)
    }
}

/// The decimal text of `i`: a minus sign if it is negative, then the digits
/// of its magnitude.
pub open spec fn int_digits(i: int) -> Seq<u8> {
    if i < 0 {
        seq![45u8] + nat_digits((-i) as nat)
    } else {
        nat_digits(i as nat)
    }
}

/// A byte string as it is written: its length in decimal, a colon, the bytes.
pub open spec fn encode_bytes(b: Seq<u8>) -> Seq<u8> {
    nat_digits(b.len()) + seq![58u8] + b
}

/// The items of `l` from index `from` on, each as it is written.
pub open spec fn encode_items(l: Seq<Value>, from: int) -> Seq<u8>
    decreases l, l.len() - from,
{
    if 0 <= from < l.len() {
        encode_value(l[from]) + encode_items(l, from + 1)
    } else {
        Seq::empty()
    }
}

/// The entries of `d` from index `from` on, each as its key and its value.
pub open spec fn encode_entries(d: Seq<(Seq<u8>, Value)>, from: int) -> Seq<u8>
    decreases d, d.len() - from,
{
    if 0 <= from < d.len() {
        encode_bytes(d[from].0) + encode_value(d[from].1) + encode_entries(d, from + 1)
    } else {
        Seq::empty()
    }
}

/// A value as it is written: a byte string as `<length>:<bytes>`, an integer
/// as `i<decimal>e`, a list as `l<items>e`, a dictionary as `d<entries>e`
/// with its entries in the order it holds them, which for a well-formed
/// value is byte order of the keys.
pub open spec fn encode_value(v: Value) -> Seq<u8>
    decreases v, 0int,
{
    match v {
        Value::Bytes(b) => encode_bytes(b),
        Value::Int(i) => seq![105u8] + int_digits(i) + seq![101u8],
        Value::List(l) => seq![108u8] + encode_items(l, 0) + seq![101u8],
        Value::Dict(d) => seq![100u8] + encode_entries(d, 0) + seq![101u8],
    }
}

/// Appends the decimal digits of `n`.
pub(crate) fn push_digits(out: &mut Vec<u8>, n: u64)
    ensures
        final(out)@ == old(out)@ + nat_digits(n as nat),
    decreases n,
{
    if n < 10 {
        out.push(48 + n as u8);
        assert(out@ =~= old(out)@ + nat_digits(n as nat));
    } else {
        push_digits(out, n / 10);
        out.push(48 + (n % 10) as u8);
        assert(out@ =~= old(out)@ + nat_digits(n as nat));
    }
}

/// Appends the decimal text of `i`.
fn push_int(out: &mut Vec<u8>, i: i64)
    ensures
        final(out)@ == old(out)@ + int_digits(i as int),
{
    if i < 0 {
        out.push(45);
        let magnitude: u64 = (-(i + 1)) as u64 + 1;
        push_digits(out, magnitude);
        assert(out@ =~= old(out)@ + int_digits(i as int));
    } else {
        push_digits(out, i as u64);
    }
}

/// Appends a byte string as it is written.
fn push_bytes(out: &mut Vec<u8>, b: &[u8])
    ensures
        final(out)@ == old(out)@ + encode_bytes(b@),
{
    push_digits(out, b.len() as u64);
    out.push(58);
    put_slice(out, b);
    assert(out@ =~= old(out)@ + encode_bytes(b@));
}

/// Appends the items of a list, each as it is written.
fn push_items(out: &mut Vec<u8>, l: &Vec<CanonicalValue>)
    ensures
        final(out)@ == old(out)@ + encode_items(items_view(*l), 0),
    decreases l, 0int,
{
    let ghost items = items_view(*l);
    let ghost whole = old(out)@ + encode_items(items, 0);
    let mut i: usize = 0;
    while i < l.len()
        invariant
            i <= l.len(),
            items == items_view(*l),
            out@ + encode_items(items, i as int) == whole,
        decreases l.len() - i,
    {
        let ghost before = out@;
        push_value(out, &l[i]);
        assert(out@ + encode_items(items, i + 1) =~= before + encode_items(items, i as int));
        i += 1;
    }
    assert(out@ + encode_items(items, i as int) =~= out@);
}

/// Appends the entries of a dictionary, each as its key and its value.
fn push_entries(out: &mut Vec<u8>, d: &Vec<(Vec<u8>, CanonicalValue)>)
    ensures
        final(out)@ == old(out)@ + encode_entries(entries_view(*d), 0),
    decreases d, 0int,
{
    let ghost entries = entries_view(*d);
    let ghost whole = old(out)@ + encode_entries(entries, 0);
    let mut i: usize = 0;
    while i < d.len()
        invariant
            i <= d.len(),
            entries == entries_view(*d),
            out@ + encode_entries(entries, i as int) == whole,
        decreases d.len() - i,
    {
        let ghost before = out@;
        push_bytes(out, d[i].0.as_slice());
        push_value(out, &d[i].1);
        assert(out@ + encode_entries(entries, i + 1) =~= before + encode_entries(entries, i as int));
        i += 1;
    }
    assert(out@ + encode_entries(entries, i as int) =~= out@);
}

/// Appends a value as it is written.
fn push_value(out: &mut Vec<u8>, v: &CanonicalValue)
    ensures
        final(out)@ == old(out)@ + encode_value(v@),
    decreases v, 1int,
{
    match v {
        CanonicalValue::ByteString(b) => {
            push_bytes(out, b.as_slice());
        },
        CanonicalValue::Integer(i) => {
            out.push(105);
            push_int(out, *i);
            out.push(101);
            assert(out@ =~= old(out)@ + encode_value(v@));
        },
        CanonicalValue::List(l) => {
            out.push(108);
            push_items(out, l);
            out.push(101);
            assert(out@ =~= old(out)@ + encode_value(v@));
        },
        CanonicalValue::Dict(d) => {
            out.push(100);
            push_entries(out, d);
            out.push(101);
            assert(out@ =~= old(out)@ + encode_value(v@));
        },
    }
}

/// The canonical encoding of a value: its canonical form as it is written,
/// so that the keys of every dictionary come in byte order.
pub open spec fn canonical_encoding(v: Value) -> Seq<u8> {
    encode_value(normalize(v))
}

/// Writes a value in the canonical encoding: whatever order a dictionary
/// holds its entries in, they are written in byte order of their keys, and
/// of two entries under one key the later. What is written is read back as
/// the canonical form of the value, which for a well-formed value is the
/// value itself.
pub fn encode(v: &CanonicalValue) -> (out: Vec<u8>)
    ensures
        out@ == canonical_encoding(v@),
        decoded(out@) == Some(normalize(v@)),
        well_formed(v@) ==> out@ == encode_value(v@) && decoded(out@) == Some(v@),
{
    let canonical = normalized(v);
    let mut out: Vec<u8> = Vec::new();
    push_value(&mut out, &canonical);
    assert(out@ =~= encode_value(canonical@));
    proof {
        lemma_decode_encode(canonical@, Seq::empty());
        assert(encode_value(canonical@) + Seq::<u8>::empty() =~= encode_value(canonical@));
        if well_formed(v@) {
            lemma_normalize_fixed(v@);
        }
    }
    out
}

} // verus!
