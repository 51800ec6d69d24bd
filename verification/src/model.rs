//! The mathematical model of an engine: the map it holds, what a read of that
//! map answers, and what a modification does to it.

use vstd::prelude::*;
use crate::order::lex_le;

verus! {

/// What an engine holds: at most one value for each key.
pub type Contents = Map<Seq<u8>, Seq<u8>>;

/// One modification, as plain byte strings.
pub enum Change {
    /// Remove the entry at this key, if there is one.
    Delete(Seq<u8>),
    /// Bind this key to this value, replacing an earlier value.
    Put(Seq<u8>, Seq<u8>),
}

impl Change {
    /// The key that the modification touches.
    pub open spec fn key(self) -> Seq<u8> {
        match self {
            Change::Delete(k) => k,
            Change::Put(k, _) => k,
        }
    }

    /// What a read of the touched key answers right after the modification.
    pub open spec fn effect(self) -> Option<Seq<u8>> {
        match self {
            Change::Delete(_) => None,
            Change::Put(_, v) => Some(v),
        }
    }
}

/// What a point read of `k` answers: the value bound to `k`, or nothing.
pub open spec fn lookup(m: Contents, k: Seq<u8>) -> Option<Seq<u8>> {
    if m.contains_key(k) {
        Some(m[k])
    } else {
        None
    }
}

/// The map after one modification.
pub open spec fn apply(m: Contents, c: Change) -> Contents {
    match c {
        Change::Delete(k) => m.remove(k),
        Change::Put(k, v) => m.insert(k, v),
    }
}

/// The map after the modifications of `cs`, applied in the order given.
pub open spec fn apply_all(m: Contents, cs: Seq<Change>) -> Contents
    decreases cs.len(),
{
    if cs.len() == 0 {
        m
    } else {
        apply(apply_all(m, cs.drop_last()), cs.last())
    }
}

/// `k` is a key of `m` at or after `q`, and no key of `m` at or after `q`
/// comes before it.
pub open spec fn is_first_at_or_after(m: Contents, q: Seq<u8>, k: Seq<u8>) -> bool {
    &&& m.contains_key(k)
    &&& lex_le(q, k)
    &&& forall|o: Seq<u8>| #[trigger] m.contains_key(o) && lex_le(q, o) ==> lex_le(k, o)
}

/// `found` is a right answer to a seek of `q` in `m`: the entry with the
/// least key at or after `q`, or nothing where `m` has no such key.
pub open spec fn is_seek_answer(m: Contents, q: Seq<u8>, found: Option<(Seq<u8>, Seq<u8>)>) -> bool {
    match found {
        Some((k, v)) => is_first_at_or_after(m, q, k) && v == m[k],
        None => forall|o: Seq<u8>| #[trigger] m.contains_key(o) ==> !lex_le(q, o),
    }
}

/// Applying a batch that ends in `c` is applying what comes before, then `c`.
pub proof fn lemma_apply_all_push(m: Contents, cs: Seq<Change>, c: Change)
    ensures
        apply_all(m, cs.push(c)) == apply(apply_all(m, cs), c),
{
    assert(cs.push(c).drop_last() =~= cs);
}

/// A batch of one change does what the change does.
pub proof fn lemma_apply_single(m: Contents, c: Change)
    ensures
        apply_all(m, seq![c]) == apply(m, c),
{
    assert(seq![c].drop_last() =~= Seq::<Change>::empty());
    assert(apply_all(m, Seq::<Change>::empty()) == m);
}

/// A batch of two changes does what the first does, then what the second does.
pub proof fn lemma_apply_pair(m: Contents, c: Change, d: Change)
    ensures
        apply_all(m, seq![c, d]) == apply(apply(m, c), d),
{
    assert(seq![c, d].drop_last() =~= seq![c]);
    lemma_apply_single(m, c);
}

/// A key that no modification of the batch touches reads as before.
pub proof fn lemma_untouched_key(m: Contents, cs: Seq<Change>, k: Seq<u8>)
    requires
        forall|j: int| 0 <= j < cs.len() ==> (#[trigger] cs[j]).key() != k,
    ensures
        lookup(apply_all(m, cs), k) == lookup(m, k),
    decreases cs.len(),
{
    if cs.len() > 0 {
        lemma_untouched_key(m, cs.drop_last(), k);
    }
}

/// A key reads as its last modification in the batch left it, whatever came
/// before in the batch or was in the map.
pub proof fn lemma_last_modification_wins(m: Contents, cs: Seq<Change>, k: Seq<u8>, i: int)
    requires
        0 <= i < cs.len(),
        cs[i].key() == k,
        forall|j: int| i < j < cs.len() ==> (#[trigger] cs[j]).key() != k,
    ensures
        lookup(apply_all(m, cs), k) == cs[i].effect(),
    decreases cs.len(),
{
    if i < cs.len() - 1 {
        lemma_last_modification_wins(m, cs.drop_last(), k, i);
    }
}

} // verus!
