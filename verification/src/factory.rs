//! The factory: from a descriptor, chosen at run time, to a ready engine.

use vstd::prelude::*;
use crate::engine::{Engine, Modify};
use crate::error::Error;
use crate::memory::MemoryEngine;
use crate::model::Contents;

verus! {

/// Names the backend to construct.
#[derive(Debug)]
pub enum Descriptor<'a> {
    /// The in-memory backend.
    Memory,
    /// The persistent backend, with its database rooted at this path.
    RocksDBPath(&'a str),
}

/// The engine that a descriptor selected. It offers the engine contract
/// itself, so that its holder need not know which backend is behind it.
pub enum Backend<P> {
    Memory(MemoryEngine),
    Persistent(P),
}

impl<P> Backend<P> {
    /// What the factory makes of an attempt to open the persistent backend.
    pub open spec fn of_opened(outcome: Result<P, Error>) -> Result<Backend<P>, Error> {
        match outcome {
            Ok(engine) => Ok(Backend::Persistent(engine)),
            Err(error) => Err(error),
        }
    }

    /// Wraps the persistent engine that was opened, or hands on the error
    /// with which opening it failed.
    pub fn opened(outcome: Result<P, Error>) -> (r: Result<Backend<P>, Error>)
        ensures
            r == Self::of_opened(outcome),
    {
        match outcome {
            Ok(engine) => Ok(Backend::Persistent(engine)),
            Err(error) => Err(error),
        }
    }
}

impl<P: Engine> Engine for Backend<P> {
    open spec fn view(&self) -> Contents {
        match self {
            Backend::Memory(engine) => engine@,
            Backend::Persistent(engine) => engine@,
        }
    }

    open spec fn infallible(&self) -> bool {
        match self {
            Backend::Memory(engine) => engine.infallible(),
            Backend::Persistent(engine) => engine.infallible(),
        }
    }

    fn get(&self, key: &[u8]) -> (r: Result<Option<Vec<u8>>, Error>) {
        match self {
            Backend::Memory(engine) => engine.get(key),
            Backend::Persistent(engine) => engine.get(key),
        }
    }

    fn seek(&self, key: &[u8]) -> (r: Result<Option<(Vec<u8>, Vec<u8>)>, Error>) {
        match self {
            Backend::Memory(engine) => engine.seek(key),
            Backend::Persistent(engine) => engine.seek(key),
        }
    }

    fn write<'a>(&mut self, batch: Vec<Modify<'a>>) -> (r: Result<(), Error>) {
        match self {
            Backend::Memory(engine) => engine.write(batch),
            Backend::Persistent(engine) => engine.write(batch),
        }
    }
}

/// Constructs the backend that `desc` names.
///
/// The in-memory backend is made here and holds nothing. The persistent
/// backend is opened by `open`, which is handed the descriptor's path and is
/// called for no other descriptor; what it returns decides the result.
pub fn new_engine<'a, P, F>(desc: Descriptor<'a>, open: F) -> (r: Result<Backend<P>, Error>)
    where
        P: Engine,
        F: FnOnce(&'a str) -> Result<P, Error>,
    requires
        desc matches Descriptor::RocksDBPath(path) ==> open.requires((path,)),
    ensures
        desc is Memory ==> (r matches Ok(Backend::Memory(engine)) && engine@ == Map::<
            Seq<u8>,
            Seq<u8>,
        >::empty()),
        desc matches Descriptor::RocksDBPath(path) ==> exists|outcome: Result<P, Error>|
            #[trigger] open.ensures((path,), outcome) && r == Backend::<P>::of_opened(outcome),
{
    match desc {
        Descriptor::Memory => Ok(Backend::Memory(MemoryEngine::new())),
        Descriptor::RocksDBPath(path) => Backend::opened(open(path)),
    }
}

} // verus!
