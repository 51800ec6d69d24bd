//! The engine contract: the operations that every backend offers, and what
//! each of them owes its caller.

use vstd::prelude::*;
use crate::error::Error;
use crate::model::{apply_all, is_seek_answer, lemma_apply_single, lookup, Change, Contents};

verus! {

/// One modification of a batch. It borrows its bytes, which need not outlive
/// the call that takes the batch.
#[derive(Debug)]
pub enum Modify<'a> {
    /// Remove the entry at this key; nothing happens where there is none.
    Delete(&'a [u8]),
    /// Bind the key, written first, to the value, replacing an earlier value.
    Put((&'a [u8], &'a [u8])),
}

impl<'a> View for Modify<'a> {
    type V = Change;

    open spec fn view(&self) -> Change {
        match *self {
            Modify::Delete(k) => Change::Delete(k@),
            Modify::Put((k, v)) => Change::Put(k@, v@),
        }
    }
}

/// A batch as the sequence of changes it asks for.
pub open spec fn batch_view(batch: Seq<Modify>) -> Seq<Change> {
    batch.map_values(|m: Modify| m@)
}

/// An answer of `get` as plain bytes.
pub open spec fn value_view(found: Option<Vec<u8>>) -> Option<Seq<u8>> {
    match found {
        Some(v) => Some(v@),
        None => None,
    }
}

/// An answer of `seek` as plain bytes.
pub open spec fn entry_view(found: Option<(Vec<u8>, Vec<u8>)>) -> Option<(Seq<u8>, Seq<u8>)> {
    match found {
        Some((k, v)) => Some((k@, v@)),
        None => None,
    }
}

/// A key-value store behind a uniform interface.
///
/// An engine is described by `view`, the map it holds. A backend that
/// verification cannot see into keeps the two defaults below: nothing is then
/// known of its contents, and it may fail; that its operations meet the
/// clauses stated here is its author's word.
pub trait Engine {
    /// The entries that the engine holds.
    open spec fn view(&self) -> Contents {
        arbitrary()
    }

    /// Whether every operation on this engine succeeds.
    open spec fn infallible(&self) -> bool {
        false
    }

    /// The value bound to `key`, or `None` where the engine has no entry for
    /// it. The engine is not changed.
    fn get(&self, key: &[u8]) -> (r: Result<Option<Vec<u8>>, Error>)
        ensures
            self.infallible() ==> r is Ok,
            r matches Ok(found) ==> value_view(found) == lookup(self@, key@),
    ;

    /// The entry with the least key at or after `key`, or `None` where the
    /// engine has no such key. The engine is not changed.
    fn seek(&self, key: &[u8]) -> (r: Result<Option<(Vec<u8>, Vec<u8>)>, Error>)
        ensures
            self.infallible() ==> r is Ok,
            r matches Ok(found) ==> is_seek_answer(self@, key@, entry_view(found)),
    ;

    /// Applies the batch in the order given, all of it or, on an error, none
    /// of it. The empty batch changes nothing and always succeeds.
    fn write<'a>(&mut self, batch: Vec<Modify<'a>>) -> (r: Result<(), Error>)
        ensures
            final(self).infallible() == old(self).infallible(),
            old(self).infallible() || batch@.len() == 0 ==> r is Ok,
            r is Ok ==> final(self)@ == apply_all(old(self)@, batch_view(batch@)),
            r is Err ==> final(self)@ == old(self)@,
    ;

    /// Binds `key` to `value`: a batch of that one modification.
    fn put(&mut self, key: &[u8], value: &[u8]) -> (r: Result<(), Error>)
        ensures
            final(self).infallible() == old(self).infallible(),
            old(self).infallible() ==> r is Ok,
            r is Ok ==> final(self)@ == old(self)@.insert(key@, value@),
            r is Err ==> final(self)@ == old(self)@,
    {
        let batch = vec![Modify::Put((key, value))];
        proof {
            assert(batch_view(batch@) =~= seq![Change::Put(key@, value@)]);
            lemma_apply_single(self@, Change::Put(key@, value@));
        }
        self.write(batch)
    }

    /// Removes the entry at `key`: a batch of that one modification. Where
    /// the engine has no such entry, it succeeds and changes nothing.
    fn delete(&mut self, key: &[u8]) -> (r: Result<(), Error>)
        ensures
            final(self).infallible() == old(self).infallible(),
            old(self).infallible() ==> r is Ok,
            r is Ok ==> final(self)@ == old(self)@.remove(key@),
            r is Err ==> final(self)@ == old(self)@,
    {
        let batch = vec![Modify::Delete(key)];
        proof {
            assert(batch_view(batch@) =~= seq![Change::Delete(key@)]);
            lemma_apply_single(self@, Change::Delete(key@));
        }
        self.write(batch)
    }
}

} // verus!
