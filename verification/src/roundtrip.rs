//! What is written is read back: the laws that tie the encoder to the
//! decoder.

use crate::decode::{
    decoded, digits_end, digits_value, is_digit, parse_bytes, parse_entries, parse_int,
    parse_items, parse_value,
};
use crate::encode::{
    encode_bytes, encode_entries, encode_items, encode_value, int_digits, nat_digits,
};
use crate::canonical::lemma_inserted_well_formed;
use crate::value::{inserted, keys_sorted, well_formed, Value};
use vstd::prelude::*;

verus! {

/// The bytes `x` stand in `s` from `pos` on.
pub open spec fn holds_at(s: Seq<u8>, pos: int, x: Seq<u8>) -> bool {
    0 <= pos && pos + x.len() <= s.len() && s.subrange(pos, pos + x.len()) == x
}

proof fn lemma_holds_split(s: Seq<u8>, pos: int, a: Seq<u8>, b: Seq<u8>)
    requires
        holds_at(s, pos, a + b),
    ensures
        holds_at(s, pos, a),
        holds_at(s, pos + a.len(), b),
{
    let whole = s.subrange(pos, pos + (a + b).len());
    assert forall|i: int| 0 <= i < a.len() implies s[pos + i] == a[i] by {
        assert(whole[i] == (a + b)[i]);
    }
    assert forall|i: int| 0 <= i < b.len() implies s[pos + a.len() + i] == b[i] by {
        assert(whole[a.len() + i] == (a + b)[a.len() + i]);
    }
    assert(s.subrange(pos, pos + a.len()) =~= a);
    assert(s.subrange(pos + a.len(), pos + a.len() + b.len()) =~= b);
}

proof fn lemma_holds_index(s: Seq<u8>, pos: int, x: Seq<u8>, i: int)
    requires
        holds_at(s, pos, x),
        0 <= i < x.len(),
    ensures
        s[pos + i] == x[i],
{
    assert(s.subrange(pos, pos + x.len())[i] == x[i]);
}

/// The decimal text of a number is one digit or more, and starts with a
/// zero only for zero itself.
pub proof fn lemma_nat_digits_shape(n: nat)
    ensures
        nat_digits(n).len() >= 1,
        nat_digits(n).len() > 1 <==> n >= 10,
        n > 0 ==> nat_digits(n)[0] != 48,
        n == 0 ==> nat_digits(n) == seq![48u8],
        forall|i: int| 0 <= i < nat_digits(n).len() ==> is_digit(#[trigger] nat_digits(n)[i]),
    decreases n,
{
    if n >= 10 {
        lemma_nat_digits_shape(n / 10);
    }
}

proof fn lemma_digits_value_of(n: nat, s: Seq<u8>, pos: int)
    requires
        holds_at(s, pos, nat_digits(n)),
    ensures
        digits_value(s, pos, pos + nat_digits(n).len()) == n,
    decreases n,
{
    let text = nat_digits(n);
    lemma_nat_digits_shape(n);
    lemma_holds_index(s, pos, text, text.len() - 1);
    if n >= 10 {
        let front = nat_digits(n / 10);
        assert(text =~= front + seq![(48 + n % 10) as u8]);
        lemma_holds_split(s, pos, front, seq![(48 + n % 10) as u8]);
        lemma_digits_value_of(n / 10, s, pos);
        assert(digits_value(s, pos, pos + text.len() - 1) == n / 10);
    } else {
        assert(digits_value(s, pos, pos) == 0);
    }
}

proof fn lemma_digits_end_of_run(s: Seq<u8>, pos: int, end: int)
    requires
        0 <= pos <= end <= s.len(),
        forall|i: int| pos <= i < end ==> is_digit(#[trigger] s[i]),
        end == s.len() || !is_digit(s[end]),
    ensures
        digits_end(s, pos) == end,
    decreases end - pos,
{
    if pos < end {
        lemma_digits_end_of_run(s, pos + 1, end);
    }
}

/// The digits of `n`, followed by `stop`, are read back as `n`.
proof fn lemma_digits_round_trip(n: nat, s: Seq<u8>, pos: int, stop: u8)
    requires
        holds_at(s, pos, nat_digits(n) + seq![stop]),
        !is_digit(stop),
    ensures
        digits_end(s, pos) == pos + nat_digits(n).len(),
        digits_value(s, pos, pos + nat_digits(n).len()) == n,
        s[pos + nat_digits(n).len()] == stop,
        s[pos] == nat_digits(n)[0],
{
    let text = nat_digits(n);
    lemma_nat_digits_shape(n);
    lemma_holds_split(s, pos, text, seq![stop]);
    lemma_holds_index(s, pos + text.len(), seq![stop], 0);
    lemma_holds_index(s, pos, text, 0);
    assert forall|i: int| pos <= i < pos + text.len() implies is_digit(#[trigger] s[i]) by {
        lemma_holds_index(s, pos, text, i - pos);
    }
    lemma_digits_end_of_run(s, pos, pos + text.len());
    lemma_digits_value_of(n, s, pos);
}

proof fn lemma_parse_encoded_bytes(b: Seq<u8>, s: Seq<u8>, pos: int)
    requires
        holds_at(s, pos, encode_bytes(b)),
    ensures
        parse_bytes(s, pos) == Some((b, pos + encode_bytes(b).len())),
        encode_bytes(b).len() > 0,
        is_digit(s[pos]),
{
    let text = nat_digits(b.len());
    lemma_nat_digits_shape(b.len());
    assert(encode_bytes(b) =~= (text + seq![58u8]) + b);
    lemma_holds_split(s, pos, text + seq![58u8], b);
    lemma_digits_round_trip(b.len(), s, pos, 58);
}

proof fn lemma_parse_encoded_int(i: int, s: Seq<u8>, pos: int)
    requires
        i64::MIN <= i <= i64::MAX,
        holds_at(s, pos, int_digits(i) + seq![101u8]),
    ensures
        parse_int(s, pos) == Some((i, pos + int_digits(i).len() + 1)),
{
    if i < 0 {
        let n = (-i) as nat;
        let text = nat_digits(n);
        lemma_nat_digits_shape(n);
        assert(int_digits(i) + seq![101u8] =~= seq![45u8] + (text + seq![101u8]));
        lemma_holds_split(s, pos, seq![45u8], text + seq![101u8]);
        lemma_holds_index(s, pos, seq![45u8], 0);
        lemma_digits_round_trip(n, s, pos + 1, 101);
    } else {
        let n = i as nat;
        lemma_nat_digits_shape(n);
        lemma_digits_round_trip(n, s, pos, 101);
        assert(is_digit(nat_digits(n)[0]));
    }
}

/// Every encoding starts with a digit or with one of `i`, `l` and `d`: never
/// with the end marker.
pub proof fn lemma_encoding_starts(v: Value)
    ensures
        encode_value(v).len() > 0,
        encode_value(v)[0] != 101,
        match v {
            Value::Bytes(_) => is_digit(encode_value(v)[0]),
            Value::Int(_) => encode_value(v)[0] == 105,
            Value::List(_) => encode_value(v)[0] == 108,
            Value::Dict(_) => encode_value(v)[0] == 100,
        },
{
    match v {
        Value::Bytes(b) => {
            lemma_nat_digits_shape(b.len());
        },
        _ => {},
    }
}

proof fn lemma_parse_encoded_items(l: Seq<Value>, from: int, s: Seq<u8>, pos: int, acc: Seq<Value>)
    requires
        0 <= from <= l.len(),
        forall|i: int| 0 <= i < l.len() ==> well_formed(#[trigger] l[i]),
        holds_at(s, pos, encode_items(l, from) + seq![101u8]),
    ensures
        parse_items(s, pos, acc) == Some(
            (acc + l.subrange(from, l.len() as int), pos + encode_items(l, from).len() + 1),
        ),
    decreases l, l.len() - from,
{
    if from < l.len() {
        let head = encode_value(l[from]);
        let tail = encode_items(l, from + 1) + seq![101u8];
        assert(encode_items(l, from) + seq![101u8] =~= head + tail);
        lemma_holds_split(s, pos, head, tail);
        lemma_encoding_starts(l[from]);
        lemma_holds_index(s, pos, head, 0);
        lemma_parse_encoded(l[from], s, pos);
        lemma_parse_encoded_items(l, from + 1, s, pos + head.len(), acc.push(l[from]));
        assert(acc.push(l[from]) + l.subrange(from + 1, l.len() as int) =~= acc + l.subrange(
            from,
            l.len() as int,
        ));
    } else {
        lemma_holds_index(s, pos, seq![101u8], 0);
        assert(acc + l.subrange(from, l.len() as int) =~= acc);
    }
}

proof fn lemma_parse_encoded_entries(d: Seq<(Seq<u8>, Value)>, from: int, s: Seq<u8>, pos: int)
    requires
        0 <= from <= d.len(),
        keys_sorted(d),
        forall|i: int| 0 <= i < d.len() ==> well_formed((#[trigger] d[i]).1),
        holds_at(s, pos, encode_entries(d, from) + seq![101u8]),
    ensures
        parse_entries(s, pos, d.take(from)) == Some(
            (d, pos + encode_entries(d, from).len() + 1),
        ),
    decreases d, d.len() - from,
{
    if from < d.len() {
        let key = encode_bytes(d[from].0);
        let head = encode_value(d[from].1);
        let tail = encode_entries(d, from + 1) + seq![101u8];
        assert(encode_entries(d, from) + seq![101u8] =~= key + (head + tail));
        lemma_holds_split(s, pos, key, head + tail);
        lemma_holds_split(s, pos + key.len(), head, tail);
        lemma_parse_encoded_bytes(d[from].0, s, pos);
        lemma_encoding_starts(d[from].1);
        lemma_parse_encoded(d[from].1, s, pos + key.len());
        let before = d.take(from);
        assert(inserted(before, d[from].0, d[from].1) =~= d.take(from + 1)) by {
            if from > 0 {
                assert(before.last() == d[from - 1]);
            }
            assert(before.push(d[from]) =~= d.take(from + 1));
        }
        lemma_parse_encoded_entries(d, from + 1, s, pos + key.len() + head.len());
    } else {
        lemma_holds_index(s, pos, seq![101u8], 0);
        assert(d.take(from) =~= d);
    }
}

/// Where the encoding of a well-formed tree stands in `s`, the tree is read
/// there, and the reading ends where the encoding does.
pub proof fn lemma_parse_encoded(v: Value, s: Seq<u8>, pos: int)
    requires
        well_formed(v),
        holds_at(s, pos, encode_value(v)),
    ensures
        parse_value(s, pos) == Some((v, pos + encode_value(v).len())),
    decreases v, 0int,
{
    lemma_encoding_starts(v);
    lemma_holds_index(s, pos, encode_value(v), 0);
    match v {
        Value::Bytes(b) => {
            lemma_parse_encoded_bytes(b, s, pos);
        },
        Value::Int(i) => {
            assert(encode_value(v) =~= seq![105u8] + (int_digits(i) + seq![101u8]));
            lemma_holds_split(s, pos, seq![105u8], int_digits(i) + seq![101u8]);
            lemma_parse_encoded_int(i, s, pos + 1);
        },
        Value::List(l) => {
            assert(encode_value(v) =~= seq![108u8] + (encode_items(l, 0) + seq![101u8]));
            lemma_holds_split(s, pos, seq![108u8], encode_items(l, 0) + seq![101u8]);
            lemma_parse_encoded_items(l, 0, s, pos + 1, Seq::empty());
            assert(Seq::<Value>::empty() + l.subrange(0, l.len() as int) =~= l);
        },
        Value::Dict(d) => {
            assert(encode_value(v) =~= seq![100u8] + (encode_entries(d, 0) + seq![101u8]));
            lemma_holds_split(s, pos, seq![100u8], encode_entries(d, 0) + seq![101u8]);
            assert(d.take(0) =~= Seq::empty());
            lemma_parse_encoded_entries(d, 0, s, pos + 1);
        },
    }
}

/// Decoding what the encoder wrote for a well-formed tree gives the tree,
/// whatever bytes follow; so the bytes that the encoder wrote survive
/// decoding and encoding again.
pub proof fn lemma_decode_encode(v: Value, rest: Seq<u8>)
    requires
        well_formed(v),
    ensures
        decoded(encode_value(v) + rest) == Some(v),
        parse_value(encode_value(v) + rest, 0) == Some((v, encode_value(v).len() as int)),
        encode_value(decoded(encode_value(v) + rest).unwrap()) == encode_value(v),
{
    let s = encode_value(v) + rest;
    assert(s.subrange(0, encode_value(v).len() as int) =~= encode_value(v));
    lemma_parse_encoded(v, s, 0);
}

proof fn lemma_parsed_items_well_formed(s: Seq<u8>, pos: int, acc: Seq<Value>)
    requires
        forall|i: int| 0 <= i < acc.len() ==> well_formed(#[trigger] acc[i]),
        parse_items(s, pos, acc) is Some,
    ensures
        well_formed(Value::List(parse_items(s, pos, acc).unwrap().0)),
    decreases s.len() - pos, 1int,
{
    if s[pos] != 101 {
        let (v, next) = parse_value(s, pos).unwrap();
        lemma_parsed_well_formed(s, pos);
        lemma_parsed_items_well_formed(s, next, acc.push(v));
    }
}

proof fn lemma_parsed_entries_well_formed(s: Seq<u8>, pos: int, acc: Seq<(Seq<u8>, Value)>)
    requires
        well_formed(Value::Dict(acc)),
        parse_entries(s, pos, acc) is Some,
    ensures
        well_formed(Value::Dict(parse_entries(s, pos, acc).unwrap().0)),
    decreases s.len() - pos, 1int,
{
    if s[pos] != 101 {
        let (key, mid) = parse_bytes(s, pos).unwrap();
        let (v, next) = parse_value(s, mid).unwrap();
        lemma_parsed_well_formed(s, mid);
        lemma_inserted_well_formed(acc, key, v);
        lemma_parsed_entries_well_formed(s, next, inserted(acc, key, v));
    }
}

/// Every tree that is read is well formed: its integers fit in 64 bits, and
/// the keys of its dictionaries stand in strictly rising byte order,
/// whatever their order in the bytes.
pub proof fn lemma_parsed_well_formed(s: Seq<u8>, pos: int)
    requires
        parse_value(s, pos) is Some,
    ensures
        well_formed(parse_value(s, pos).unwrap().0),
    decreases s.len() - pos, 0int,
{
    if s[pos] == 105 {
    } else if s[pos] == 108 {
        lemma_parsed_items_well_formed(s, pos + 1, Seq::empty());
    } else if s[pos] == 100 {
        lemma_parsed_entries_well_formed(s, pos + 1, Seq::empty());
    } else {
    }
}

/// Reading and writing again gives a fixed point: what the encoder writes
/// for a tree that was read is read back as the same tree.
pub proof fn lemma_reencoding_is_stable(s: Seq<u8>)
    requires
        decoded(s) is Some,
    ensures
        decoded(encode_value(decoded(s).unwrap())) == decoded(s),
{
    lemma_parsed_well_formed(s, 0);
    lemma_decode_encode(decoded(s).unwrap(), Seq::empty());
    assert(encode_value(decoded(s).unwrap()) + Seq::<u8>::empty() =~= encode_value(
        decoded(s).unwrap(),
    ));
}

} // verus!
