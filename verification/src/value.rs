//! The canonical value: byte strings, integers, lists and dictionaries whose
//! keys are kept in byte order.

use crate::dictionary::lemma_inserted_sorted;
use crate::wire::bytes_equal;
use vstd::prelude::*;

verus! {

/// A value of the canonical encoding.
#[derive(Debug, PartialEq, Eq)]
pub enum CanonicalValue {
    /// Raw bytes, not necessarily text.
    ByteString(Vec<u8>),
    /// A signed integer.
    Integer(i64),
    /// An ordered sequence of values.
    List(Vec<CanonicalValue>),
    /// Keys with their values; `dict_insert` keeps the keys in byte order.
    Dict(Vec<(Vec<u8>, CanonicalValue)>),
}

/// A canonical value as a mathematical tree.
pub enum Value {
    Bytes(Seq<u8>),
    Int(int),
    List(Seq<Value>),
    Dict(Seq<(Seq<u8>, Value)>),
}

/// The entries of a dictionary as mathematical values.
pub open spec fn entries_view(d: Vec<(Vec<u8>, CanonicalValue)>) -> Seq<(Seq<u8>, Value)>
    decreases d, 0nat,
{
    Seq::new(
        d.len() as nat,
        |i: int|
            if 0 <= i < d.len() {
                (d[i].0@, value_view(d[i].1))
            } else {
                (Seq::empty(), Value::Int(0))
            },
    )
}

/// The items of a list as mathematical values.
pub open spec fn items_view(l: Vec<CanonicalValue>) -> Seq<Value>
    decreases l, 0nat,
{
    Seq::new(
        l.len() as nat,
        |i: int|
            if 0 <= i < l.len() {
                value_view(l[i])
            } else {
                Value::Int(0)
            },
    )
}

/// The tree that a value stands for.
pub open spec fn value_view(v: CanonicalValue) -> Value
    decreases v, 1nat,
{
    match v {
        CanonicalValue::ByteString(b) => Value::Bytes(b@),
        CanonicalValue::Integer(i) => Value::Int(i as int),
        CanonicalValue::List(l) => Value::List(items_view(l)),
        CanonicalValue::Dict(d) => Value::Dict(entries_view(d)),
    }
}

impl View for CanonicalValue {
    type V = Value;

    open spec fn view(&self) -> Value {
        value_view(*self)
    }
}

/// Byte order on byte strings: the first byte that differs decides, and a
/// proper prefix comes first.
pub open spec fn lex_lt(a: Seq<u8>, b: Seq<u8>) -> bool
    decreases a.len(),
{
    if b.len() == 0 {
        false
    } else if a.len() == 0 {
        true
    } else if a[0] != b[0] {
        a[0] < b[0]
    } else {
        lex_lt(a.drop_first(), b.drop_first())
    }
}

/// The keys of `d` stand in strictly rising byte order.
pub open spec fn keys_sorted(d: Seq<(Seq<u8>, Value)>) -> bool {
    forall|i: int, j: int| 0 <= i < j < d.len() ==> lex_lt(#[trigger] d[i].0, #[trigger] d[j].0)
}

/// A tree is well formed when its integers fit in 64 bits and the keys of
/// each of its dictionaries stand in strictly rising byte order.
pub open spec fn well_formed(v: Value) -> bool
    decreases v,
{
    match v {
        Value::Bytes(_) => true,
        Value::Int(i) => i64::MIN <= i <= i64::MAX,
        Value::List(l) => forall|i: int| 0 <= i < l.len() ==> well_formed(#[trigger] l[i]),
        Value::Dict(d) => keys_sorted(d) && forall|i: int|
            0 <= i < d.len() ==> well_formed((#[trigger] d[i]).1),
    }
}

/// The dictionary `d` with `key` bound to `value`: an entry under `key` is
/// replaced, and a new entry goes before the entries with greater keys.
pub open spec fn inserted(d: Seq<(Seq<u8>, Value)>, key: Seq<u8>, value: Value) -> Seq<
    (Seq<u8>, Value),
>
    decreases d.len(),
{
    if d.len() == 0 {
        seq![(key, value)]
    } else if lex_lt(d.last().0, key) {
        d.push((key, value))
    } else if d.last().0 == key {
        d.drop_last().push((key, value))
    } else {
        inserted(d.drop_last(), key, value).push(d.last())
    }
}

/// The value that `d` binds `key` to.
pub open spec fn lookup(d: Seq<(Seq<u8>, Value)>, key: Seq<u8>) -> Option<Value>
    decreases d.len(),
{
    if d.len() == 0 {
        None
    } else if d.last().0 == key {
        Some(d.last().1)
    } else {
        lookup(d.drop_last(), key)
    }
}

/// Byte order is irreflexive.
pub proof fn lemma_lex_irreflexive(a: Seq<u8>)
    ensures
        !lex_lt(a, a),
    decreases a.len(),
{
    if a.len() > 0 {
        lemma_lex_irreflexive(a.drop_first());
    }
}

/// Byte order is transitive.
pub proof fn lemma_lex_transitive(a: Seq<u8>, b: Seq<u8>, c: Seq<u8>)
    requires
        lex_lt(a, b),
        lex_lt(b, c),
    ensures
        lex_lt(a, c),
    decreases a.len(),
{
    if a.len() > 0 && b.len() > 0 && c.len() > 0 && a[0] == b[0] && b[0] == c[0] {
        lemma_lex_transitive(a.drop_first(), b.drop_first(), c.drop_first());
    }
}

/// Byte order is total: of two different byte strings one comes first.
pub proof fn lemma_lex_total(a: Seq<u8>, b: Seq<u8>)
    ensures
        lex_lt(a, b) || lex_lt(b, a) || a == b,
    decreases a.len(),
{
    if a.len() > 0 && b.len() > 0 && a[0] == b[0] {
        lemma_lex_total(a.drop_first(), b.drop_first());
        if a.drop_first() == b.drop_first() {
            assert(a =~= seq![a[0]] + a.drop_first());
            assert(b =~= seq![b[0]] + b.drop_first());
        }
    } else if a.len() == 0 && b.len() == 0 {
        assert(a =~= b);
    }
}

/// Two byte strings that agree up to a place where the first holds the
/// smaller byte stand in byte order.
pub proof fn lemma_lex_first_difference(a: Seq<u8>, b: Seq<u8>, at: int)
    requires
        0 <= at < a.len(),
        at < b.len(),
        forall|i: int| 0 <= i < at ==> a[i] == b[i],
        a[at] < b[at],
    ensures
        lex_lt(a, b),
    decreases at,
{
    if at > 0 {
        lemma_lex_first_difference(a.drop_first(), b.drop_first(), at - 1);
    }
}

/// Whether `a` comes before `b` in byte order.
pub fn bytes_less(a: &[u8], b: &[u8]) -> (less: bool)
    ensures
        less == lex_lt(a@, b@),
{
    let mut i: usize = 0;
    assert(a@.skip(0) =~= a@ && b@.skip(0) =~= b@);
    while i < a.len() && i < b.len()
        invariant
            i <= a.len(),
            i <= b.len(),
            lex_lt(a@, b@) == lex_lt(a@.skip(i as int), b@.skip(i as int)),
        decreases a.len() - i,
    {
        if a[i] != b[i] {
            return a[i] < b[i];
        }
        assert(a@.skip(i as int).drop_first() =~= a@.skip(i + 1));
        assert(b@.skip(i as int).drop_first() =~= b@.skip(i + 1));
        i += 1;
    }
    i < b.len()
}

/// Binds `key` to `value` in the dictionary `d`, which keeps its order: an
/// entry under `key` is replaced, a new one goes before the greater keys.
pub fn dict_insert(d: &mut Vec<(Vec<u8>, CanonicalValue)>, key: Vec<u8>, value: CanonicalValue)
    ensures
        entries_view(*final(d)) == inserted(entries_view(*old(d)), key@, value@),
        keys_sorted(entries_view(*old(d))) ==> keys_sorted(entries_view(*final(d))),
{
    let ghost before = entries_view(*d);
    proof {
        if keys_sorted(before) {
            lemma_inserted_sorted(before, key@, value@);
        }
    }
    let ghost entry = (key@, value@);
    let mut i: usize = d.len();
    assert(before.take(i as int) =~= before);
    assert(inserted(before, key@, value@) =~= inserted(before, key@, value@) + before.skip(
        i as int,
    ));
    while i > 0 && !bytes_less(d[i - 1].0.as_slice(), key.as_slice())
        invariant
            i <= d.len(),
            *d == *old(d),
            before == entries_view(*d),
            entry == (key@, value@),
            inserted(before, key@, value@) == inserted(before.take(i as int), key@, value@)
                + before.skip(i as int),
            i < d.len() ==> !lex_lt(before[i as int].0, key@) && before[i as int].0 != key@,
        decreases i,
    {
        let ghost prefix = before.take(i as int);
        assert(prefix.last() == before[i - 1]);
        assert(prefix.drop_last() =~= before.take(i - 1));
        if bytes_equal(d[i - 1].0.as_slice(), key.as_slice()) {
            d.set(i - 1, (key, value));
            let ghost after = before.take(i - 1).push(entry) + before.skip(i as int);
            assert(entries_view(*d).len() == after.len());
            assert forall|j: int| 0 <= j < after.len() implies entries_view(*d)[j] == after[j] by {
                if j != i - 1 {
                    assert(d[j] == old(d)[j]);
                }
            }
            assert(entries_view(*d) =~= after);
            return ;
        }
        assert(inserted(prefix, key@, value@) + before.skip(i as int) =~= inserted(
            before.take(i - 1),
            key@,
            value@,
        ) + before.skip(i - 1));
        i -= 1;
    }
    let ghost prefix = before.take(i as int);
    assert(inserted(prefix, key@, value@) == prefix.push(entry)) by {
        if i > 0 {
            assert(prefix.last() == before[i - 1]);
        }
    }
    d.insert(i, (key, value));
    let ghost after = prefix.push(entry) + before.skip(i as int);
    assert(entries_view(*d).len() == after.len());
    assert forall|j: int| 0 <= j < after.len() implies entries_view(*d)[j] == after[j] by {
        if j < i {
            assert(d[j] == old(d)[j]);
        } else if j > i {
            assert(d[j] == old(d)[j - 1]);
        }
    }
    assert(entries_view(*d) =~= after);
}

/// Looks up the value that the dictionary `d` binds `key` to.
pub fn dict_get<'a>(d: &'a Vec<(Vec<u8>, CanonicalValue)>, key: &[u8]) -> (r: Option<
    &'a CanonicalValue,
>)
    ensures
        match r {
            Some(v) => lookup(entries_view(*d), key@) == Some(v@),
            None => lookup(entries_view(*d), key@) is None,
        },
{
    let ghost entries = entries_view(*d);
    let mut i: usize = d.len();
    assert(entries.take(i as int) =~= entries);
    while i > 0
        invariant
            i <= d.len(),
            entries == entries_view(*d),
            lookup(entries, key@) == lookup(entries.take(i as int), key@),
        decreases i,
    {
        let ghost prefix = entries.take(i as int);
        assert(prefix.last() == entries[i - 1]);
        assert(prefix.drop_last() =~= entries.take(i - 1));
        if bytes_equal(d[i - 1].0.as_slice(), key) {
            return Some(&d[i - 1].1);
        }
        i -= 1;
    }
    None
}

} // verus!
