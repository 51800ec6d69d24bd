//! The in-memory backend: entries kept in one vector, in ascending order of
//! their keys, so that a binary search finds the place of any key.

use vstd::prelude::*;
use vstd::seq_lib::seq_to_set_is_finite;
use vstd::slice::slice_to_vec;
use crate::engine::{batch_view, Engine, Modify};
use crate::error::Error;
use crate::model::{apply_all, is_first_at_or_after, lemma_apply_all_push, Contents};
use crate::order::{
    less, lemma_le_iff_not_gt, lemma_lt_asymmetric, lemma_lt_irreflexive, lemma_lt_total,
    lemma_lt_transitive, lex_le, lex_lt,
};

verus! {

/// One stored entry.
struct Entry {
    key: Vec<u8>,
    value: Vec<u8>,
}

/// The stored entries as plain bytes, in the order in which they are stored.
spec fn pairs(entries: Seq<Entry>) -> Seq<(Seq<u8>, Seq<u8>)> {
    entries.map_values(|e: Entry| (e.key@, e.value@))
}

/// The keys ascend strictly, so that no key occurs twice.
spec fn ascending(p: Seq<(Seq<u8>, Seq<u8>)>) -> bool {
    forall|i: int, j: int| 0 <= i < j < p.len() ==> lex_lt(#[trigger] p[i].0, #[trigger] p[j].0)
}

/// `k` is the key of some entry.
spec fn has_key(p: Seq<(Seq<u8>, Seq<u8>)>, k: Seq<u8>) -> bool {
    exists|i: int| 0 <= i < p.len() && #[trigger] p[i].0 == k
}

/// A position at which `k` is stored, where it is stored at all.
spec fn position(p: Seq<(Seq<u8>, Seq<u8>)>, k: Seq<u8>) -> int {
    choose|i: int| 0 <= i < p.len() && #[trigger] p[i].0 == k
}

/// The map that the entries stand for.
spec fn as_map(p: Seq<(Seq<u8>, Seq<u8>)>) -> Contents {
    Map::new(|k: Seq<u8>| has_key(p, k), |k: Seq<u8>| p[position(p, k)].1)
}

/// `n` is where `k` belongs: every key before `n` comes before `k`, and no
/// key from `n` on does.
spec fn is_place(p: Seq<(Seq<u8>, Seq<u8>)>, k: Seq<u8>, n: int) -> bool {
    &&& 0 <= n <= p.len()
    &&& forall|i: int| 0 <= i < n ==> lex_lt(#[trigger] p[i].0, k)
    &&& forall|i: int| n <= i < p.len() ==> !lex_lt(#[trigger] p[i].0, k)
}

/// In ascending entries each key is stored once, and the map binds it to the
/// value stored with it.
proof fn lemma_entry(p: Seq<(Seq<u8>, Seq<u8>)>, i: int)
    requires
        ascending(p),
        0 <= i < p.len(),
    ensures
        as_map(p).contains_key(p[i].0),
        as_map(p)[p[i].0] == p[i].1,
        position(p, p[i].0) == i,
{
    let k = p[i].0;
    assert(has_key(p, k));
    let j = position(p, k);
    if j < i {
        lemma_lt_asymmetric(p[j].0, p[i].0);
    } else if i < j {
        lemma_lt_asymmetric(p[i].0, p[j].0);
    }
}

/// Where `k` belongs at `n` and is not stored there, it is stored nowhere,
/// and every key from `n` on comes after it.
proof fn lemma_place_vacant(p: Seq<(Seq<u8>, Seq<u8>)>, k: Seq<u8>, n: int)
    requires
        ascending(p),
        is_place(p, k, n),
        n < p.len() ==> p[n].0 != k,
    ensures
        !as_map(p).contains_key(k),
        forall|i: int| n <= i < p.len() ==> lex_lt(k, #[trigger] p[i].0),
{
    assert forall|i: int| n <= i < p.len() implies lex_lt(k, #[trigger] p[i].0) by {
        lemma_lt_total(k, p[n].0);
        if n < i {
            lemma_lt_transitive(k, p[n].0, p[i].0);
        }
    }
    if has_key(p, k) {
        let j = position(p, k);
        lemma_lt_irreflexive(k);
    }
}

/// Storing a new key at its place keeps the order and binds the key.
proof fn lemma_insert(p: Seq<(Seq<u8>, Seq<u8>)>, k: Seq<u8>, v: Seq<u8>, n: int)
    requires
        ascending(p),
        is_place(p, k, n),
        n < p.len() ==> p[n].0 != k,
    ensures
        ascending(p.insert(n, (k, v))),
        as_map(p.insert(n, (k, v))) == as_map(p).insert(k, v),
{
    let q = p.insert(n, (k, v));
    lemma_place_vacant(p, k, n);
    assert forall|i: int, j: int| 0 <= i < j < q.len() implies lex_lt(
        #[trigger] q[i].0,
        #[trigger] q[j].0,
    ) by {
        if j < n {
            assert(q[i] == p[i] && q[j] == p[j]);
        } else if j == n {
            assert(q[i] == p[i]);
        } else if i < n {
            assert(q[i] == p[i] && q[j] == p[j - 1]);
            lemma_lt_transitive(p[i].0, k, p[j - 1].0);
        } else if i == n {
            assert(q[j] == p[j - 1]);
        } else {
            assert(q[i] == p[i - 1] && q[j] == p[j - 1]);
        }
    }
    lemma_entry(q, n);
    assert forall|x: Seq<u8>| as_map(q).contains_key(x) <==> as_map(p).insert(k, v).contains_key(
        x,
    ) by {
        if has_key(q, x) {
            let j = position(q, x);
            if j < n {
                assert(p[j].0 == x);
            } else if j > n {
                assert(p[j - 1].0 == x);
            }
        }
        if has_key(p, x) {
            let j = position(p, x);
            if j < n {
                assert(q[j].0 == x);
            } else {
                assert(q[j + 1].0 == x);
            }
        }
    }
    assert forall|x: Seq<u8>| as_map(q).contains_key(x) implies as_map(q)[x] == as_map(p).insert(
        k,
        v,
    )[x] by {
        let j = position(q, x);
        lemma_entry(q, j);
        if j < n {
            assert(q[j] == p[j]);
            lemma_entry(p, j);
        } else if j > n {
            assert(q[j] == p[j - 1]);
            lemma_entry(p, j - 1);
        }
    }
    assert(as_map(q) =~= as_map(p).insert(k, v));
}

/// Storing a new value with a key that is stored keeps the order and rebinds
/// the key.
proof fn lemma_replace(p: Seq<(Seq<u8>, Seq<u8>)>, k: Seq<u8>, v: Seq<u8>, n: int)
    requires
        ascending(p),
        0 <= n < p.len(),
        p[n].0 == k,
    ensures
        ascending(p.update(n, (k, v))),
        as_map(p.update(n, (k, v))) == as_map(p).insert(k, v),
{
    let q = p.update(n, (k, v));
    assert forall|i: int, j: int| 0 <= i < j < q.len() implies lex_lt(
        #[trigger] q[i].0,
        #[trigger] q[j].0,
    ) by {
        assert(q[i].0 == p[i].0 && q[j].0 == p[j].0);
    }
    assert forall|x: Seq<u8>| as_map(q).contains_key(x) <==> as_map(p).insert(k, v).contains_key(
        x,
    ) by {
        if has_key(q, x) {
            let j = position(q, x);
            assert(p[j].0 == x);
        }
        if has_key(p, x) {
            let j = position(p, x);
            assert(q[j].0 == x);
        }
        assert(q[n].0 == k);
    }
    assert forall|x: Seq<u8>| as_map(q).contains_key(x) implies as_map(q)[x] == as_map(p).insert(
        k,
        v,
    )[x] by {
        let j = position(q, x);
        lemma_entry(q, j);
        if j != n {
            assert(q[j] == p[j]);
            lemma_entry(p, j);
        }
    }
    assert(as_map(q) =~= as_map(p).insert(k, v));
}

/// Dropping a stored entry keeps the order and unbinds its key.
proof fn lemma_remove(p: Seq<(Seq<u8>, Seq<u8>)>, n: int)
    requires
        ascending(p),
        0 <= n < p.len(),
    ensures
        ascending(p.remove(n)),
        as_map(p.remove(n)) == as_map(p).remove(p[n].0),
{
    let q = p.remove(n);
    let k = p[n].0;
    assert forall|i: int, j: int| 0 <= i < j < q.len() implies lex_lt(
        #[trigger] q[i].0,
        #[trigger] q[j].0,
    ) by {
        let pi = if i < n { i } else { i + 1 };
        let pj = if j < n { j } else { j + 1 };
        assert(q[i] == p[pi] && q[j] == p[pj]);
    }
    assert forall|x: Seq<u8>| as_map(q).contains_key(x) <==> as_map(p).remove(k).contains_key(
        x,
    ) by {
        if has_key(q, x) {
            let j = position(q, x);
            let pj = if j < n { j } else { j + 1 };
            assert(p[pj].0 == x);
            lemma_entry(p, pj);
            lemma_entry(p, n);
        }
        if has_key(p, x) && x != k {
            let j = position(p, x);
            if j < n {
                assert(q[j].0 == x);
            } else {
                assert(q[j - 1].0 == x);
            }
        }
    }
    assert forall|x: Seq<u8>| as_map(q).contains_key(x) implies as_map(q)[x] == as_map(p).remove(
        k,
    )[x] by {
        let j = position(q, x);
        lemma_entry(q, j);
        let pj = if j < n { j } else { j + 1 };
        assert(q[j] == p[pj]);
        lemma_entry(p, pj);
    }
    assert(as_map(q) =~= as_map(p).remove(k));
}

/// The entry stored at the place of `q` is the first at or after `q`; where
/// the place is the end, no key is at or after `q`.
proof fn lemma_place_is_first(p: Seq<(Seq<u8>, Seq<u8>)>, q: Seq<u8>, n: int)
    requires
        ascending(p),
        is_place(p, q, n),
    ensures
        n < p.len() ==> is_first_at_or_after(as_map(p), q, p[n].0) && as_map(p)[p[n].0] == p[n].1,
        n == p.len() ==> forall|o: Seq<u8>| #[trigger] as_map(p).contains_key(o) ==> !lex_le(q, o),
{
    assert forall|o: Seq<u8>| #[trigger] as_map(p).contains_key(o) && lex_le(q, o) implies n
        < p.len() && lex_le(p[n].0, o) by {
        let j = position(p, o);
        lemma_le_iff_not_gt(q, o);
        assert(p[j].0 == o);
        assert(j >= n);
    }
    if n < p.len() {
        lemma_entry(p, n);
        lemma_le_iff_not_gt(q, p[n].0);
    }
}

/// The place of `key` among the entries, by binary search.
fn place(entries: &Vec<Entry>, key: &[u8]) -> (n: usize)
    requires
        ascending(pairs(entries@)),
    ensures
        is_place(pairs(entries@), key@, n as int),
{
    let ghost p = pairs(entries@);
    let mut lo: usize = 0;
    let mut hi: usize = entries.len();
    while lo < hi
        invariant
            p == pairs(entries@),
            ascending(p),
            lo <= hi <= entries.len(),
            forall|i: int| 0 <= i < lo ==> lex_lt(#[trigger] p[i].0, key@),
            forall|i: int| hi <= i < p.len() ==> !lex_lt(#[trigger] p[i].0, key@),
        decreases hi - lo,
    {
        let mid = lo + (hi - lo) / 2;
        if less(entries[mid].key.as_slice(), key) {
            proof {
                assert(p[mid as int].0 == entries[mid as int].key@);
                assert forall|i: int| 0 <= i < mid + 1 implies lex_lt(#[trigger] p[i].0, key@) by {
                    if i < mid {
                        lemma_lt_transitive(p[i].0, p[mid as int].0, key@);
                    }
                }
            }
            lo = mid + 1;
        } else {
            proof {
                assert(p[mid as int].0 == entries[mid as int].key@);
                assert forall|i: int| mid <= i < p.len() implies !lex_lt(
                    #[trigger] p[i].0,
                    key@,
                ) by {
                    if mid < i && lex_lt(p[i].0, key@) {
                        lemma_lt_transitive(p[mid as int].0, p[i].0, key@);
                    }
                }
            }
            hi = mid;
        }
    }
    lo
}

/// Whether `key` is stored at `n`, its place.
fn stored_at(entries: &Vec<Entry>, key: &[u8], n: usize) -> (r: bool)
    requires
        ascending(pairs(entries@)),
        is_place(pairs(entries@), key@, n as int),
    ensures
        r == (n < entries.len() && pairs(entries@)[n as int].0 == key@),
        r == as_map(pairs(entries@)).contains_key(key@),
{
    let ghost p = pairs(entries@);
    if n < entries.len() && !less(key, entries[n].key.as_slice()) {
        proof {
            assert(p[n as int].0 == entries[n as int].key@);
            lemma_lt_total(key@, p[n as int].0);
            lemma_entry(p, n as int);
        }
        true
    } else {
        proof {
            if n < entries.len() {
                assert(p[n as int].0 == entries[n as int].key@);
                lemma_lt_asymmetric(key@, p[n as int].0);
            }
            lemma_place_vacant(p, key@, n as int);
        }
        false
    }
}

/// Binds `key` to `value` among the entries.
fn store(entries: &mut Vec<Entry>, key: &[u8], value: &[u8])
    requires
        ascending(pairs(old(entries)@)),
    ensures
        ascending(pairs(final(entries)@)),
        as_map(pairs(final(entries)@)) == as_map(pairs(old(entries)@)).insert(key@, value@),
{
    let ghost p = pairs(entries@);
    let n = place(entries, key);
    let found = stored_at(entries, key, n);
    let entry = Entry { key: slice_to_vec(key), value: slice_to_vec(value) };
    if found {
        entries.set(n, entry);
        proof {
            assert(pairs(entries@) =~= p.update(n as int, (key@, value@)));
            lemma_replace(p, key@, value@, n as int);
        }
    } else {
        entries.insert(n, entry);
        proof {
            assert(pairs(entries@) =~= p.insert(n as int, (key@, value@)));
            lemma_insert(p, key@, value@, n as int);
        }
    }
}

/// Unbinds `key` among the entries; nothing changes where it is not stored.
fn discard(entries: &mut Vec<Entry>, key: &[u8])
    requires
        ascending(pairs(old(entries)@)),
    ensures
        ascending(pairs(final(entries)@)),
        as_map(pairs(final(entries)@)) == as_map(pairs(old(entries)@)).remove(key@),
{
    let ghost p = pairs(entries@);
    let n = place(entries, key);
    if stored_at(entries, key, n) {
        entries.remove(n);
        proof {
            assert(pairs(entries@) =~= p.remove(n as int));
            lemma_remove(p, n as int);
        }
    } else {
        assert(as_map(p).remove(key@) =~= as_map(p));
    }
}

/// The in-memory engine. It holds its entries in process memory and never
/// reports an error.
pub struct MemoryEngine {
    entries: Vec<Entry>,
}

impl MemoryEngine {
    #[verifier::type_invariant]
    spec fn well_formed(self) -> bool {
        ascending(pairs(self.entries@))
    }

    /// The engine holds finitely many entries.
    pub proof fn lemma_finite(self)
        ensures
            self@.dom().finite(),
    {
        let p = pairs(self.entries@);
        let keys = p.map_values(|e: (Seq<u8>, Seq<u8>)| e.0);
        assert forall|k: Seq<u8>| as_map(p).dom().contains(k) <==> keys.to_set().contains(k) by {
            if has_key(p, k) {
                let i = position(p, k);
                assert(keys[i] == k);
            }
            if keys.contains(k) {
                let i = choose|i: int| 0 <= i < keys.len() && keys[i] == k;
                assert(p[i].0 == k);
            }
        }
        assert(as_map(p).dom() =~= keys.to_set());
        seq_to_set_is_finite(keys);
    }

    /// An engine that holds nothing.
    pub fn new() -> (r: Self)
        ensures
            r@ == Map::<Seq<u8>, Seq<u8>>::empty(),
            r.infallible(),
    {
        let r = MemoryEngine { entries: Vec::new() };
        assert(r@ =~= Map::<Seq<u8>, Seq<u8>>::empty());
        r
    }
}

impl Engine for MemoryEngine {
    closed spec fn view(&self) -> Contents {
        as_map(pairs(self.entries@))
    }

    open spec fn infallible(&self) -> bool {
        true
    }

    fn get(&self, key: &[u8]) -> (r: Result<Option<Vec<u8>>, Error>) {
        proof {
            use_type_invariant(self);
        }
        let n = place(&self.entries, key);
        if stored_at(&self.entries, key, n) {
            proof {
                lemma_entry(pairs(self.entries@), n as int);
            }
            Ok(Some(self.entries[n].value.clone()))
        } else {
            Ok(None)
        }
    }

    fn seek(&self, key: &[u8]) -> (r: Result<Option<(Vec<u8>, Vec<u8>)>, Error>) {
        proof {
            use_type_invariant(self);
        }
        let n = place(&self.entries, key);
        proof {
            lemma_place_is_first(pairs(self.entries@), key@, n as int);
        }
        if n < self.entries.len() {
            let entry = &self.entries[n];
            Ok(Some((entry.key.clone(), entry.value.clone())))
        } else {
            Ok(None)
        }
    }

    fn write<'a>(&mut self, batch: Vec<Modify<'a>>) -> (r: Result<(), Error>) {
        proof {
            use_type_invariant(&*self);
        }
        let ghost before = self@;
        let ghost changes = batch_view(batch@);
        let mut entries: Vec<Entry> = Vec::new();
        std::mem::swap(&mut entries, &mut self.entries);
        let mut i: usize = 0;
        while i < batch.len()
            invariant
                i <= batch.len(),
                changes == batch_view(batch@),
                ascending(pairs(entries@)),
                as_map(pairs(entries@)) == apply_all(before, changes.take(i as int)),
            decreases batch.len() - i,
        {
            match batch[i] {
                Modify::Delete(key) => {
                    discard(&mut entries, key);
                },
                Modify::Put((key, value)) => {
                    store(&mut entries, key, value);
                },
            }
            proof {
                assert(changes.take(i + 1) =~= changes.take(i as int).push(changes[i as int]));
                lemma_apply_all_push(before, changes.take(i as int), changes[i as int]);
            }
            i += 1;
        }
        proof {
            assert(changes.take(i as int) =~= changes);
        }
        self.entries = entries;
        Ok(())
    }
}

} // verus!
