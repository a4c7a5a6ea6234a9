//! Reading a canonical value from bytes.

use crate::roundtrip::lemma_parsed_well_formed;
use crate::value::{
    dict_insert, entries_view, inserted, items_view, well_formed, CanonicalValue, Value,
};
use vstd::prelude::*;
use vstd::slice::{slice_subrange, slice_to_vec};

verus! {

/// Why bytes are no canonical value.
#[derive(Debug, Clone, Copy, PartialEq, Eq)]
pub enum DecodeError {
    /// The bytes break the grammar of the encoding.
    MalformedEncoding,
}

/// Whether `b` is a decimal digit.
pub open spec fn is_digit(b: u8) -> bool {
    48 <= b <= 57
}

/// Where the run of digits that starts at `pos` ends.
pub open spec fn digits_end(s: Seq<u8>, pos: int) -> int
    decreases s.len() - pos,
{
    if 0 <= pos < s.len() && is_digit(s[pos]) {
        digits_end(s, pos + 1)
    } else {
        pos
    }
}

/// The number that the digits of `s` from `from` up to `to` spell.
pub open spec fn digits_value(s: Seq<u8>, from: int, to: int) -> nat
    decreases to - from,
{
    if from >= to {
        0
    } else {
        digits_value(s, from, to - 1) * 10 + (s[to - 1] - 48) as nat
    }
}

/// The byte string that starts at `pos` and where it ends: a nonempty run
/// of digits, a colon, and as many bytes as the digits say. There is none
/// where the digits or the colon are missing, or where fewer bytes are left
/// than were declared.
pub open spec fn parse_bytes(s: Seq<u8>, pos: int) -> Option<(Seq<u8>, int)> {
    let end = digits_end(s, pos);
    let n = digits_value(s, pos, end);
    if pos < 0 || end == pos || end >= s.len() || s[end] != 58 || end + 1 + n > s.len() {
        None
    } else {
        Some((s.subrange(end + 1, end + 1 + n), end + 1 + n))
    }
}

/// The integer whose text starts at `pos`, behind the `i`, and where it
/// ends: an optional minus sign, a nonempty run of digits and an `e`. There
/// is none where the digits are missing, where anything but `e` follows
/// them, where more than one digit starts with a zero, for `-0`, or where
/// the number does not fit in 64 bits.
pub open spec fn parse_int(s: Seq<u8>, pos: int) -> Option<(int, int)> {
    let negative = 0 <= pos < s.len() && s[pos] == 45;
    let start = if negative {
        pos + 1
    } else {
        pos
    };
    let end = digits_end(s, start);
    let magnitude = digits_value(s, start, end);
    if pos < 0 || end == start || end >= s.len() || s[end] != 101 {
        None
    } else if end - start > 1 && s[start] == 48 {
        None
    } else if negative && (magnitude == 0 || magnitude > 0x8000_0000_0000_0000) {
        None
    } else if !negative && magnitude > 0x7fff_ffff_ffff_ffff {
        None
    } else {
        Some((
            if negative {
                -(magnitude as int)
            } else {
                magnitude as int
            },
            end + 1,
        ))
    }
}

/// The items that start at `pos`, added to those in `acc`, up to the end
/// marker, and where the list ends.
pub open spec fn parse_items(s: Seq<u8>, pos: int, acc: Seq<Value>) -> Option<(Seq<Value>, int)>
    decreases s.len() - pos, 1int,
{
    if pos < 0 || pos >= s.len() {
        None
    } else if s[pos] == 101 {
        Some((acc, pos + 1))
    } else {
        match parse_value(s, pos) {
            Some((v, next)) => if pos < next <= s.len() {
                parse_items(s, next, acc.push(v))
            } else {
                None
            },
            None => None,
        }
    }
}

/// The entries that start at `pos`, each a byte string and a value,
/// inserted in turn into `acc`, up to the end marker, and where the
/// dictionary ends. Of two entries under one key the later stays.
pub open spec fn parse_entries(s: Seq<u8>, pos: int, acc: Seq<(Seq<u8>, Value)>) -> Option<
    (Seq<(Seq<u8>, Value)>, int),
>
    decreases s.len() - pos, 1int,
{
    if pos < 0 || pos >= s.len() {
        None
    } else if s[pos] == 101 {
        Some((acc, pos + 1))
    } else {
        match parse_bytes(s, pos) {
            Some((key, mid)) => if pos < mid <= s.len() {
                match parse_value(s, mid) {
                    Some((v, next)) => if mid < next <= s.len() {
                        parse_entries(s, next, inserted(acc, key, v))
                    } else {
                        None
                    },
                    None => None,
                }
            } else {
                None
            },
            None => None,
        }
    }
}

/// The value that starts at `pos` and where it ends, or `None` where the
/// bytes from `pos` on start with no value.
pub open spec fn parse_value(s: Seq<u8>, pos: int) -> Option<(Value, int)>
    decreases s.len() - pos, 0int,
{
    if pos < 0 || pos >= s.len() {
        None
    } else if s[pos] == 105 {
        match parse_int(s, pos + 1) {
            Some((i, next)) => Some((Value::Int(i), next)),
            None => None,
        }
    } else if s[pos] == 108 {
        match parse_items(s, pos + 1, Seq::empty()) {
            Some((l, next)) => Some((Value::List(l), next)),
            None => None,
        }
    } else if s[pos] == 100 {
        match parse_entries(s, pos + 1, Seq::empty()) {
            Some((d, next)) => Some((Value::Dict(d), next)),
            None => None,
        }
    } else {
        match parse_bytes(s, pos) {
            Some((b, next)) => Some((Value::Bytes(b), next)),
            None => None,
        }
    }
}

/// Reads the run of digits that starts at `start`. Gives where it ends, and
/// the number it spells where that is at most `limit`, else a number above
/// `limit`.
fn read_digits(s: &[u8], start: usize, limit: u128) -> (r: (u128, usize))
    requires
        start <= s.len(),
        limit <= 0xffff_ffff_ffff_ffff,
    ensures
        r.1 == digits_end(s@, start as int),
        start <= r.1 <= s.len(),
        digits_value(s@, start as int, r.1 as int) <= limit ==> r.0 == digits_value(
            s@,
            start as int,
            r.1 as int,
        ),
        digits_value(s@, start as int, r.1 as int) > limit ==> r.0 > limit,
{
    let mut acc: u128 = 0;
    let mut i: usize = start;
    while i < s.len() && s[i] >= 48 && s[i] <= 57
        invariant
            start <= i <= s.len(),
            limit <= 0xffff_ffff_ffff_ffff,
            digits_end(s@, start as int) == digits_end(s@, i as int),
            acc <= limit ==> acc == digits_value(s@, start as int, i as int),
            acc > limit ==> digits_value(s@, start as int, i as int) > limit,
            acc <= limit * 10 + 9,
        decreases s.len() - i,
    {
        if acc <= limit {
            acc = acc * 10 + (s[i] - 48) as u128;
        }
        i += 1;
    }
    (acc, i)
}

/// Reads the byte string that starts at `pos`.
fn decode_bytes(s: &[u8], pos: usize) -> (r: Option<(Vec<u8>, usize)>)
    requires
        pos <= s.len(),
    ensures
        match r {
            Some((b, next)) => parse_bytes(s@, pos as int) == Some((b@, next as int)) && pos < next
                <= s.len(),
            None => parse_bytes(s@, pos as int) is None,
        },
{
    let (n, end) = read_digits(s, pos, s.len() as u128);
    if end == pos || end >= s.len() || s[end] != 58 {
        return None;
    }
    if n > (s.len() - end - 1) as u128 {
        return None;
    }
    let first: usize = end + 1;
    let next: usize = first + n as usize;
    Some((slice_to_vec(slice_subrange(s, first, next)), next))
}

/// Reads the integer whose text starts at `pos`, behind the `i`.
fn decode_int(s: &[u8], pos: usize) -> (r: Option<(i64, usize)>)
    requires
        pos <= s.len(),
    ensures
        match r {
            Some((i, next)) => parse_int(s@, pos as int) == Some((i as int, next as int)) && pos
                < next <= s.len(),
            None => parse_int(s@, pos as int) is None,
        },
{
    let negative: bool = pos < s.len() && s[pos] == 45;
    let start: usize = if negative {
        pos + 1
    } else {
        pos
    };
    let (magnitude, end) = read_digits(s, start, 0x8000_0000_0000_0000);
    if end == start || end >= s.len() || s[end] != 101 {
        return None;
    }
    if end - start > 1 && s[start] == 48 {
        return None;
    }
    if negative {
        if magnitude == 0 || magnitude > 0x8000_0000_0000_0000 {
            return None;
        }
        let below: i64 = (magnitude - 1) as i64;
        Some((-below - 1, end + 1))
    } else {
        if magnitude > 0x7fff_ffff_ffff_ffff {
            return None;
        }
        Some((magnitude as i64, end + 1))
    }
}

/// Reads the items of a list from `pos` up to its end marker.
fn decode_items(s: &[u8], pos: usize) -> (r: Option<(Vec<CanonicalValue>, usize)>)
    requires
        pos <= s.len(),
    ensures
        match r {
            Some((l, next)) => parse_items(s@, pos as int, Seq::empty()) == Some(
                (items_view(l), next as int),
            ) && pos < next <= s.len(),
            None => parse_items(s@, pos as int, Seq::empty()) is None,
        },
    decreases s.len() - pos, 1int,
{
    let mut items: Vec<CanonicalValue> = Vec::new();
    let mut cur: usize = pos;
    assert(items_view(items) =~= Seq::empty());
    loop
        invariant
            pos <= cur <= s.len(),
            parse_items(s@, pos as int, Seq::empty()) == parse_items(
                s@,
                cur as int,
                items_view(items),
            ),
        decreases s.len() - cur,
    {
        if cur >= s.len() {
            return None;
        }
        if s[cur] == 101 {
            return Some((items, cur + 1));
        }
        match decode_value(s, cur) {
            None => {
                return None;
            },
            Some((v, next)) => {
                let ghost before = items_view(items);
                items.push(v);
                assert(items_view(items) =~= before.push(v@));
                cur = next;
            },
        }
    }
}

/// Reads the entries of a dictionary from `pos` up to its end marker.
fn decode_entries(s: &[u8], pos: usize) -> (r: Option<
    (Vec<(Vec<u8>, CanonicalValue)>, usize),
>)
    requires
        pos <= s.len(),
    ensures
        match r {
            Some((d, next)) => parse_entries(s@, pos as int, Seq::empty()) == Some(
                (entries_view(d), next as int),
            ) && pos < next <= s.len(),
            None => parse_entries(s@, pos as int, Seq::empty()) is None,
        },
    decreases s.len() - pos, 1int,
{
    let mut entries: Vec<(Vec<u8>, CanonicalValue)> = Vec::new();
    let mut cur: usize = pos;
    assert(entries_view(entries) =~= Seq::empty());
    loop
        invariant
            pos <= cur <= s.len(),
            parse_entries(s@, pos as int, Seq::empty()) == parse_entries(
                s@,
                cur as int,
                entries_view(entries),
            ),
        decreases s.len() - cur,
    {
        if cur >= s.len() {
            return None;
        }
        if s[cur] == 101 {
            return Some((entries, cur + 1));
        }
        match decode_bytes(s, cur) {
            None => {
                return None;
            },
            Some((key, mid)) => {
                match decode_value(s, mid) {
                    None => {
                        return None;
                    },
                    Some((v, next)) => {
                        dict_insert(&mut entries, key, v);
                        cur = next;
                    },
                }
            },
        }
    }
}

/// Reads the value that starts at `pos`.
fn decode_value(s: &[u8], pos: usize) -> (r: Option<(CanonicalValue, usize)>)
    requires
        pos <= s.len(),
    ensures
        match r {
            Some((v, next)) => parse_value(s@, pos as int) == Some((v@, next as int)) && pos < next
                <= s.len(),
            None => parse_value(s@, pos as int) is None,
        },
    decreases s.len() - pos, 0int,
{
    if pos >= s.len() {
        return None;
    }
    let tag: u8 = s[pos];
    if tag == 105 {
        match decode_int(s, pos + 1) {
            Some((i, next)) => Some((CanonicalValue::Integer(i), next)),
            None => None,
        }
    } else if tag == 108 {
        match decode_items(s, pos + 1) {
            Some((l, next)) => Some((CanonicalValue::List(l), next)),
            None => None,
        }
    } else if tag == 100 {
        match decode_entries(s, pos + 1) {
            Some((d, next)) => Some((CanonicalValue::Dict(d), next)),
            None => None,
        }
    } else {
        match decode_bytes(s, pos) {
            Some((b, next)) => Some((CanonicalValue::ByteString(b), next)),
            None => None,
        }
    }
}

/// The value that `s` starts with, if it starts with one. What follows the
/// value is passed over.
pub open spec fn decoded(s: Seq<u8>) -> Option<Value> {
    match parse_value(s, 0) {
        Some((v, _)) => Some(v),
        None => None,
    }
}

/// Reads the value that `bytes` start with, and says where it ends.
pub fn decode_prefix(bytes: &[u8]) -> (r: Result<(CanonicalValue, usize), DecodeError>)
    ensures
        match r {
            Ok((v, used)) => parse_value(bytes@, 0) == Some((v@, used as int)) && 0 < used
                <= bytes.len() && well_formed(v@),
            Err(e) => parse_value(bytes@, 0) is None,
        },
{
    match decode_value(bytes, 0) {
        Some((v, used)) => {
            proof {
                lemma_parsed_well_formed(bytes@, 0);
            }
            Ok((v, used))
        },
        None => Err(DecodeError::MalformedEncoding),
    }
}

/// Reads a value in the canonical encoding. Fails exactly when the bytes
/// start with no value: a list or dictionary without its end marker, a
/// byte string shorter than it declares, an integer that is empty, holds
/// anything but digits, has a leading zero, is `-0` or does not fit in 64
/// bits, a dictionary key that is no byte string. The value that is read
/// is well formed: each dictionary holds its keys in byte order.
pub fn decode(bytes: &[u8]) -> (r: Result<CanonicalValue, DecodeError>)
    ensures
        match r {
            Ok(v) => decoded(bytes@) == Some(v@) && well_formed(v@),
            Err(e) => decoded(bytes@) is None,
        },
{
    match decode_value(bytes, 0) {
        Some((v, _)) => {
            proof {
                lemma_parsed_well_formed(bytes@, 0);
            }
            Ok(v)
        },
        None => Err(DecodeError::MalformedEncoding),
    }
}

} // verus!
