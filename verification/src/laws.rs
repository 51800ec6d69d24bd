//! What holds of every engine that meets the contract, whatever its backend.
//!
//! The operations are stated over the map that an engine holds: a successful
//! `put` inserts, a successful `delete` removes, a successful `write` applies
//! its batch in order, `get` answers `lookup`, and `seek` gives a seek answer.
//! The laws below are stated over the same functions.

use vstd::prelude::*;
use crate::model::{
    apply_all, is_seek_answer, lemma_apply_pair, lemma_last_modification_wins,
    lemma_untouched_key, lookup, Change, Contents,
};
use crate::order::{
    lemma_empty_is_least, lemma_le_antisymmetric, lemma_le_iff_not_gt, lemma_le_is_total_ordering,
    lemma_le_transitive, lex_le, lex_lt,
};

verus! {

/// An engine that holds nothing answers no `get` and no `seek`: each reads as
/// absent, for every key.
pub proof fn law_absent_by_default(k: Seq<u8>, found: Option<(Seq<u8>, Seq<u8>)>)
    ensures
        lookup(Map::<Seq<u8>, Seq<u8>>::empty(), k) is None,
        is_seek_answer(Map::<Seq<u8>, Seq<u8>>::empty(), k, None),
        is_seek_answer(Map::<Seq<u8>, Seq<u8>>::empty(), k, found) ==> found is None,
{
}

/// A key that was never written reads as absent: starting from nothing, no
/// batch binds a key that none of its modifications touches.
pub proof fn law_unwritten_key_is_absent(cs: Seq<Change>, k: Seq<u8>)
    requires
        forall|j: int| 0 <= j < cs.len() ==> (#[trigger] cs[j]).key() != k,
    ensures
        lookup(apply_all(Map::<Seq<u8>, Seq<u8>>::empty(), cs), k) is None,
{
    lemma_untouched_key(Map::<Seq<u8>, Seq<u8>>::empty(), cs, k);
}

/// After `put(k, v)`, `get(k)` answers `v`.
pub proof fn law_put_then_get(m: Contents, k: Seq<u8>, v: Seq<u8>)
    ensures
        lookup(m.insert(k, v), k) == Some(v),
{
}

/// After `put(k, v1)` and then `put(k, v2)`, `get(k)` answers `v2`, and the
/// engine holds what the second `put` alone would have left.
pub proof fn law_overwrite(m: Contents, k: Seq<u8>, v1: Seq<u8>, v2: Seq<u8>)
    ensures
        lookup(m.insert(k, v1).insert(k, v2), k) == Some(v2),
        m.insert(k, v1).insert(k, v2) == m.insert(k, v2),
{
}

/// After `put(k, v)` and then `delete(k)`, `get(k)` answers absent.
pub proof fn law_delete_then_get(m: Contents, k: Seq<u8>, v: Seq<u8>)
    ensures
        lookup(m.insert(k, v).remove(k), k) is None,
{
}

/// After `delete(k)`, `get(k)` answers absent, whatever the engine held.
pub proof fn law_deleted_key_is_absent(m: Contents, k: Seq<u8>)
    ensures
        lookup(m.remove(k), k) is None,
{
}

/// `delete(k)` where `k` is absent leaves the engine as it was, and `k`
/// absent.
pub proof fn law_delete_absent_is_benign(m: Contents, k: Seq<u8>)
    requires
        lookup(m, k) is None,
    ensures
        m.remove(k) == m,
        lookup(m.remove(k), k) is None,
{
}

/// A modification of one key leaves every other key as it read before.
pub proof fn law_other_keys_unchanged(m: Contents, k: Seq<u8>, v: Seq<u8>, other: Seq<u8>)
    requires
        other != k,
    ensures
        lookup(m.insert(k, v), other) == lookup(m, other),
        lookup(m.remove(k), other) == lookup(m, other),
{
}

/// After `write([Put(a, x), Put(b, y)])`, `get(b)` answers `y` and, where `a`
/// is another key, `get(a)` answers `x`: the whole batch is reflected.
pub proof fn law_batch_of_puts(m: Contents, a: Seq<u8>, x: Seq<u8>, b: Seq<u8>, y: Seq<u8>)
    ensures
        lookup(apply_all(m, seq![Change::Put(a, x), Change::Put(b, y)]), b) == Some(y),
        a != b ==> lookup(apply_all(m, seq![Change::Put(a, x), Change::Put(b, y)]), a) == Some(x),
{
    lemma_apply_pair(m, Change::Put(a, x), Change::Put(b, y));
}

/// After `write([Put(a, x), Put(b, y)])` and then
/// `write([Delete(a), Delete(b)])`, `get(a)` and `get(b)` answer absent.
pub proof fn law_batch_of_deletes(m: Contents, a: Seq<u8>, x: Seq<u8>, b: Seq<u8>, y: Seq<u8>)
    ensures
        ({
            let filled = apply_all(m, seq![Change::Put(a, x), Change::Put(b, y)]);
            let cleared = apply_all(filled, seq![Change::Delete(a), Change::Delete(b)]);
            lookup(cleared, a) is None && lookup(cleared, b) is None
        }),
{
    let filled = apply_all(m, seq![Change::Put(a, x), Change::Put(b, y)]);
    lemma_apply_pair(filled, Change::Delete(a), Change::Delete(b));
}

/// Within one batch the last write wins: after `write([Put(k, v1), Put(k, v2)])`
/// `get(k)` answers `v2`, and after `write([Put(k, v1), Delete(k)])` it
/// answers absent.
pub proof fn law_last_write_wins(m: Contents, k: Seq<u8>, v1: Seq<u8>, v2: Seq<u8>)
    ensures
        lookup(apply_all(m, seq![Change::Put(k, v1), Change::Put(k, v2)]), k) == Some(v2),
        lookup(apply_all(m, seq![Change::Put(k, v1), Change::Delete(k)]), k) is None,
{
    lemma_apply_pair(m, Change::Put(k, v1), Change::Put(k, v2));
    lemma_apply_pair(m, Change::Put(k, v1), Change::Delete(k));
}

/// After any batch, each key reads as its last modification in the batch left
/// it, and a key that the batch does not touch reads as before.
pub proof fn law_batch_in_order(m: Contents, cs: Seq<Change>, k: Seq<u8>)
    ensures
        (forall|j: int| 0 <= j < cs.len() ==> (#[trigger] cs[j]).key() != k) ==> lookup(
            apply_all(m, cs),
            k,
        ) == lookup(m, k),
        forall|i: int|
            0 <= i < cs.len() && (#[trigger] cs[i]).key() == k && (forall|j: int|
                i < j < cs.len() ==> (#[trigger] cs[j]).key() != k) ==> lookup(
                apply_all(m, cs),
                k,
            ) == cs[i].effect(),
{
    if forall|j: int| 0 <= j < cs.len() ==> (#[trigger] cs[j]).key() != k {
        lemma_untouched_key(m, cs, k);
    }
    assert forall|i: int|
        0 <= i < cs.len() && (#[trigger] cs[i]).key() == k && (forall|j: int|
            i < j < cs.len() ==> (#[trigger] cs[j]).key() != k) implies lookup(
        apply_all(m, cs),
        k,
    ) == cs[i].effect() by {
        lemma_last_modification_wins(m, cs, k, i);
    }
}

/// What `seek(q)` finds is at or after `q`, and no entry of the engine lies
/// between `q` and it.
pub proof fn law_seek_finds_the_first(m: Contents, q: Seq<u8>, k: Seq<u8>, v: Seq<u8>, o: Seq<u8>)
    requires
        is_seek_answer(m, q, Some((k, v))),
        m.contains_key(o),
    ensures
        lookup(m, k) == Some(v),
        lex_le(q, k),
        lex_lt(o, q) || lex_le(k, o),
{
    lemma_le_iff_not_gt(q, o);
}

/// Where `seek(q)` finds nothing, every entry of the engine comes before `q`.
pub proof fn law_seek_absent(m: Contents, q: Seq<u8>, o: Seq<u8>)
    requires
        is_seek_answer(m, q, None),
        m.contains_key(o),
    ensures
        lex_lt(o, q),
{
    lemma_le_iff_not_gt(q, o);
}

/// A `seek` has at most one right answer: the contract leaves no choice.
pub proof fn law_seek_answer_is_unique(
    m: Contents,
    q: Seq<u8>,
    x: Option<(Seq<u8>, Seq<u8>)>,
    y: Option<(Seq<u8>, Seq<u8>)>,
)
    requires
        is_seek_answer(m, q, x),
        is_seek_answer(m, q, y),
    ensures
        x == y,
{
    match (x, y) {
        (Some((k1, _)), Some((k2, _))) => {
            lemma_le_antisymmetric(k1, k2);
        },
        _ => {},
    }
}

/// A `seek` from the empty key finds the first entry of the engine: no entry
/// comes before what it finds.
pub proof fn law_seek_from_the_empty_key(m: Contents, k: Seq<u8>, v: Seq<u8>, o: Seq<u8>)
    requires
        is_seek_answer(m, Seq::<u8>::empty(), Some((k, v))),
        m.contains_key(o),
    ensures
        lex_le(k, o),
{
    lemma_empty_is_least(o);
}

/// Every `seek` in an engine of finitely many entries has an answer: the
/// contract asks nothing that cannot be met.
pub proof fn law_seek_has_an_answer(m: Contents, q: Seq<u8>)
    requires
        m.dom().finite(),
    ensures
        exists|found: Option<(Seq<u8>, Seq<u8>)>| is_seek_answer(m, q, found),
{
    let r = |a: Seq<u8>, b: Seq<u8>| lex_le(a, b);
    let at_or_after = m.dom().filter(|k: Seq<u8>| lex_le(q, k));
    m.dom().lemma_len_filter(|k: Seq<u8>| lex_le(q, k));
    if at_or_after.len() == 0 {
        assert forall|o: Seq<u8>| #[trigger] m.contains_key(o) implies !lex_le(q, o) by {
            if lex_le(q, o) {
                assert(at_or_after.contains(o));
            }
        }
        assert(is_seek_answer(m, q, None));
    } else {
        lemma_le_is_total_ordering();
        at_or_after.find_unique_minimal_ensures(r);
        let k = at_or_after.find_unique_minimal(r);
        at_or_after.lemma_minimal_equivalent_least(r, k);
        assert forall|o: Seq<u8>| #[trigger] m.contains_key(o) && lex_le(q, o) implies lex_le(
            k,
            o,
        ) by {
            assert(r(k, o));
        }
        assert(is_seek_answer(m, q, Some((k, m[k]))));
    }
}

/// A `seek` of a key that the engine holds finds that key's own entry.
pub proof fn law_seek_present_key(m: Contents, k: Seq<u8>)
    requires
        m.contains_key(k),
    ensures
        is_seek_answer(m, k, Some((k, m[k]))),
{
}

/// A `seek` from further on never finds an earlier entry: where `q1` comes at
/// or before `q2`, what `seek(q2)` finds does not come before what
/// `seek(q1)` finds.
pub proof fn law_seek_is_monotonic(
    m: Contents,
    q1: Seq<u8>,
    q2: Seq<u8>,
    e1: (Seq<u8>, Seq<u8>),
    e2: (Seq<u8>, Seq<u8>),
)
    requires
        lex_le(q1, q2),
        is_seek_answer(m, q1, Some(e1)),
        is_seek_answer(m, q2, Some(e2)),
    ensures
        lex_le(e1.0, e2.0),
{
    lemma_le_transitive(q1, q2, e2.0);
}

} // verus!
