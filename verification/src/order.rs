//! Keeping items ordered by a text key, as `ORDER BY <text column> ASC`
//! does: where a new item goes so that the keys stay sorted, with items of
//! equal key kept in the order they came.

use vstd::prelude::*;
use crate::text::{lemma_text_order, text_le, text_lt};

verus! {

/// Where an item with key `t` goes among items with keys `keys`: after every
/// item whose key is not greater than `t`, scanning from the end.
pub open spec fn insert_pos(keys: Seq<Seq<char>>, t: Seq<char>) -> int
    decreases keys.len(),
{
    if keys.len() == 0 {
        0
    } else if text_lt(t, keys.last()) {
        insert_pos(keys.drop_last(), t)
    } else {
        keys.len() as int
    }
}

/// The keys are in ascending text order.
pub open spec fn keys_sorted(keys: Seq<Seq<char>>) -> bool {
    forall|i: int, j: int| 0 <= i < j < keys.len() ==> text_le(#[trigger] keys[i], #[trigger] keys[j])
}

/// The position lies within the keys; every key after it is greater than
/// `t`, and the key just before it is not.
pub proof fn lemma_insert_pos(keys: Seq<Seq<char>>, t: Seq<char>)
    ensures
        0 <= insert_pos(keys, t) <= keys.len(),
        forall|j: int| insert_pos(keys, t) <= j < keys.len() ==> text_lt(t, #[trigger] keys[j]),
        insert_pos(keys, t) > 0 ==> !text_lt(t, keys[insert_pos(keys, t) - 1]),
    decreases keys.len(),
{
    if keys.len() > 0 && text_lt(t, keys.last()) {
        let p = keys.drop_last();
        lemma_insert_pos(p, t);
        assert forall|j: int| insert_pos(keys, t) <= j < keys.len() implies text_lt(t, #[trigger] keys[j]) by {
            if j < p.len() {
                assert(keys[j] == p[j]);
            }
        }
        if insert_pos(p, t) > 0 {
            assert(keys[insert_pos(p, t) - 1] == p[insert_pos(p, t) - 1]);
        }
    }
}

/// Inserting a key at its position keeps sorted keys sorted.
pub proof fn lemma_insert_keeps_sorted(keys: Seq<Seq<char>>, t: Seq<char>)
    requires
        keys_sorted(keys),
    ensures
        keys_sorted(keys.insert(insert_pos(keys, t), t)),
{
    let p = insert_pos(keys, t);
    lemma_insert_pos(keys, t);
    keys.insert_ensures(p, t);
    let r = keys.insert(p, t);
    assert forall|i: int, j: int| 0 <= i < j < r.len() implies text_le(#[trigger] r[i], #[trigger] r[j]) by {
        if j < p {
            assert(r[i] == keys[i] && r[j] == keys[j]);
        } else if j == p {
            assert(r[i] == keys[i]);
            lemma_text_order(keys[i], keys[p - 1], t);
            if i < p - 1 {
                assert(text_le(keys[i], keys[p - 1]));
            }
        } else {
            assert(r[j] == keys[j - 1]);
            if i < p {
                assert(r[i] == keys[i]);
            } else if i == p {
                lemma_text_order(t, keys[j - 1], t);
            } else {
                assert(r[i] == keys[i - 1]);
            }
        }
    }
}

} // verus!
