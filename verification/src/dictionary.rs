//! Laws of the ordered dictionary: it stays in byte order of its keys, and
//! the order in which keys were bound leaves no trace.

use crate::encode::encode_value;
use crate::value::{
    inserted, keys_sorted, lemma_lex_irreflexive, lemma_lex_total, lemma_lex_transitive, lex_lt,
    lookup, Value,
};
use vstd::prelude::*;
use vstd::seq_lib::lemma_seq_contains_after_push;

verus! {

/// What a sorted dictionary holds before its last entry is sorted too, and
/// its keys come before the last key.
pub proof fn lemma_sorted_front(d: Seq<(Seq<u8>, Value)>)
    requires
        keys_sorted(d),
        d.len() > 0,
    ensures
        keys_sorted(d.drop_last()),
        forall|e: (Seq<u8>, Value)| #[trigger] d.drop_last().contains(e) ==> lex_lt(e.0, d.last().0),
        forall|e: (Seq<u8>, Value)|
            #[trigger] d.contains(e) <==> (d.drop_last().contains(e) || e == d.last()),
{
    let front = d.drop_last();
    assert forall|i: int, j: int| 0 <= i < j < front.len() implies lex_lt(
        #[trigger] front[i].0,
        #[trigger] front[j].0,
    ) by {
        assert(front[i] == d[i] && front[j] == d[j]);
    }
    assert forall|e: (Seq<u8>, Value)| #[trigger] front.contains(e) implies lex_lt(
        e.0,
        d.last().0,
    ) by {
        let i = choose|i: int| 0 <= i < front.len() && front[i] == e;
        assert(d[i] == e);
    }
    assert(d =~= front.push(d.last()));
    assert forall|e: (Seq<u8>, Value)|
        #[trigger] d.contains(e) <==> (front.contains(e) || e == d.last()) by {
        lemma_seq_contains_after_push(front, d.last(), e);
    }
}

/// After a key is bound in a sorted dictionary, the dictionary holds the
/// new entry, and of the old ones those under other keys.
pub proof fn lemma_inserted_entries(
    d: Seq<(Seq<u8>, Value)>,
    key: Seq<u8>,
    value: Value,
    e: (Seq<u8>, Value),
)
    requires
        keys_sorted(d),
    ensures
        inserted(d, key, value).contains(e) <==> (e == (key, value) || (d.contains(e) && e.0
            != key)),
    decreases d.len(),
{
    let entry = (key, value);
    if d.len() == 0 {
        assert(seq![entry][0] == entry);
    } else {
        let front = d.drop_last();
        lemma_sorted_front(d);
        lemma_lex_irreflexive(key);
        if lex_lt(d.last().0, key) {
            lemma_seq_contains_after_push(d, entry, e);
            if d.contains(e) && e != d.last() {
                lemma_lex_transitive(e.0, d.last().0, key);
            }
        } else if d.last().0 == key {
            lemma_seq_contains_after_push(front, entry, e);
        } else {
            lemma_inserted_entries(front, key, value, e);
            lemma_seq_contains_after_push(inserted(front, key, value), d.last(), e);
        }
    }
}

/// Binding a key keeps a sorted dictionary sorted.
pub proof fn lemma_inserted_sorted(d: Seq<(Seq<u8>, Value)>, key: Seq<u8>, value: Value)
    requires
        keys_sorted(d),
    ensures
        keys_sorted(inserted(d, key, value)),
    decreases d.len(),
{
    let entry = (key, value);
    let r = inserted(d, key, value);
    if d.len() == 0 {
    } else {
        let front = d.drop_last();
        let last = d.last();
        lemma_sorted_front(d);
        if lex_lt(last.0, key) {
            assert forall|i: int, j: int| 0 <= i < j < r.len() implies lex_lt(
                #[trigger] r[i].0,
                #[trigger] r[j].0,
            ) by {
                if j == d.len() && i < d.len() - 1 {
                    assert(lex_lt(d[i].0, d[d.len() - 1].0));
                    lemma_lex_transitive(d[i].0, last.0, key);
                }
            }
        } else if last.0 == key {
            assert forall|i: int, j: int| 0 <= i < j < r.len() implies lex_lt(
                #[trigger] r[i].0,
                #[trigger] r[j].0,
            ) by {
                assert(r[i].0 == d[i].0 && r[j].0 == d[j].0);
            }
        } else {
            let inner = inserted(front, key, value);
            lemma_inserted_sorted(front, key, value);
            lemma_lex_total(last.0, key);
            assert forall|i: int, j: int| 0 <= i < j < r.len() implies lex_lt(
                #[trigger] r[i].0,
                #[trigger] r[j].0,
            ) by {
                if j == inner.len() {
                    assert(inner.contains(inner[i]));
                    lemma_inserted_entries(front, key, value, inner[i]);
                } else {
                    assert(r[i] == inner[i] && r[j] == inner[j]);
                }
            }
        }
    }
}

/// Two sorted dictionaries that hold the same entries are the same
/// dictionary.
pub proof fn lemma_sorted_extensional(a: Seq<(Seq<u8>, Value)>, b: Seq<(Seq<u8>, Value)>)
    requires
        keys_sorted(a),
        keys_sorted(b),
        forall|e: (Seq<u8>, Value)| a.contains(e) <==> b.contains(e),
    ensures
        a == b,
    decreases a.len(),
{
    if a.len() == 0 {
        if b.len() > 0 {
            assert(b.contains(b[0]));
        }
        assert(a =~= b);
    } else {
        let x = a.last();
        assert(a.contains(x));
        assert(b.contains(x));
        let y = b.last();
        assert(b.contains(y));
        assert(a.contains(y));
        lemma_sorted_front(a);
        lemma_sorted_front(b);
        lemma_lex_irreflexive(x.0);
        lemma_lex_irreflexive(y.0);
        if x != y {
            assert(a.drop_last().contains(y));
            assert(b.drop_last().contains(x));
            lemma_lex_transitive(x.0, y.0, x.0);
        }
        assert forall|e: (Seq<u8>, Value)| a.drop_last().contains(e) <==> b.drop_last().contains(
            e,
        ) by {
            lemma_lex_irreflexive(e.0);
            assert(a.contains(e) <==> b.contains(e));
        }
        lemma_sorted_extensional(a.drop_last(), b.drop_last());
        assert(a =~= a.drop_last().push(x));
        assert(b =~= b.drop_last().push(y));
    }
}

/// Two different keys may be bound in either order: the dictionary is the
/// same, and so is what the encoder writes for it.
pub proof fn lemma_insertion_order_is_immaterial(
    d: Seq<(Seq<u8>, Value)>,
    key1: Seq<u8>,
    value1: Value,
    key2: Seq<u8>,
    value2: Value,
)
    requires
        keys_sorted(d),
        key1 != key2,
    ensures
        inserted(inserted(d, key1, value1), key2, value2) == inserted(
            inserted(d, key2, value2),
            key1,
            value1,
        ),
        encode_value(Value::Dict(inserted(inserted(d, key1, value1), key2, value2)))
            == encode_value(Value::Dict(inserted(inserted(d, key2, value2), key1, value1))),
{
    let first = inserted(d, key1, value1);
    let second = inserted(d, key2, value2);
    let a = inserted(first, key2, value2);
    let b = inserted(second, key1, value1);
    lemma_inserted_sorted(d, key1, value1);
    lemma_inserted_sorted(d, key2, value2);
    lemma_inserted_sorted(first, key2, value2);
    lemma_inserted_sorted(second, key1, value1);
    assert forall|e: (Seq<u8>, Value)| a.contains(e) <==> b.contains(e) by {
        lemma_inserted_entries(d, key1, value1, e);
        lemma_inserted_entries(d, key2, value2, e);
        lemma_inserted_entries(first, key2, value2, e);
        lemma_inserted_entries(second, key1, value1, e);
    }
    lemma_sorted_extensional(a, b);
}

/// A sorted dictionary binds a key to the value it was last bound to, and
/// every other key as before.
pub proof fn lemma_lookup_inserted(
    d: Seq<(Seq<u8>, Value)>,
    key: Seq<u8>,
    value: Value,
    other: Seq<u8>,
)
    requires
        keys_sorted(d),
    ensures
        lookup(inserted(d, key, value), key) == Some(value),
        other != key ==> lookup(inserted(d, key, value), other) == lookup(d, other),
    decreases d.len(),
{
    let entry = (key, value);
    if d.len() == 0 {
        assert(seq![entry].drop_last() =~= Seq::empty());
        assert(d =~= Seq::empty());
    } else {
        let front = d.drop_last();
        lemma_sorted_front(d);
        if lex_lt(d.last().0, key) {
            assert(d.push(entry).drop_last() =~= d);
        } else if d.last().0 == key {
            assert(front.push(entry).drop_last() =~= front);
        } else {
            let inner = inserted(front, key, value);
            lemma_lookup_inserted(front, key, value, other);
            assert(inner.push(d.last()).drop_last() =~= inner);
        }
    }
}

} // verus!
