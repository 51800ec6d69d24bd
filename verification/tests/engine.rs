use std::collections::BTreeMap;
use std::ops::Bound;

use storage_engine::{new_engine, Backend, Descriptor, Engine, Error, Fault, MemoryEngine, Modify};

/// Stands where the persistent backend goes: an ordered map of the standard
/// library behind the engine contract.
struct Shelf {
    path: String,
    map: BTreeMap<Vec<u8>, Vec<u8>>,
}

impl Engine for Shelf {
    fn get(&self, key: &[u8]) -> Result<Option<Vec<u8>>, Error> {
        Ok(self.map.get(key).cloned())
    }

    fn seek(&self, key: &[u8]) -> Result<Option<(Vec<u8>, Vec<u8>)>, Error> {
        let mut range = self.map.range::<[u8], _>((Bound::Included(key), Bound::Unbounded));
        Ok(range.next().map(|(k, v)| (k.clone(), v.clone())))
    }

    fn write(&mut self, batch: Vec<Modify>) -> Result<(), Error> {
        for modify in batch {
            match modify {
                Modify::Delete(k) => {
                    self.map.remove(k);
                }
                Modify::Put((k, v)) => {
                    self.map.insert(k.to_vec(), v.to_vec());
                }
            }
        }
        Ok(())
    }
}

fn open_shelf(path: &str) -> Result<Shelf, Error> {
    Ok(Shelf { path: path.to_string(), map: BTreeMap::new() })
}

fn assert_has<E: Engine>(engine: &E, key: &[u8], value: &[u8]) {
    assert_eq!(engine.get(key).unwrap().unwrap(), value);
}

fn assert_none<E: Engine>(engine: &E, key: &[u8]) {
    assert_eq!(engine.get(key).unwrap(), None);
}

fn get_put<E: Engine>(engine: &mut E) {
    assert_none(engine, b"x");
    engine.put(b"x", b"1").unwrap();
    assert_has(engine, b"x", b"1");
    engine.put(b"x", b"2").unwrap();
    assert_has(engine, b"x", b"2");
    engine.delete(b"x").unwrap();
    assert_none(engine, b"x");
}

fn batch<E: Engine>(engine: &mut E) {
    engine.write(vec![Modify::Put((b"x", b"1")), Modify::Put((b"y", b"2"))]).unwrap();
    assert_has(engine, b"x", b"1");
    assert_has(engine, b"y", b"2");

    engine.write(vec![Modify::Delete(b"x"), Modify::Delete(b"y")]).unwrap();
    assert_none(engine, b"x");
    assert_none(engine, b"y");
}

#[test]
fn memory() {
    let mut e = new_engine(Descriptor::Memory, open_shelf).unwrap();
    assert!(matches!(e, Backend::Memory(_)));
    get_put(&mut e);
    batch(&mut e);
}

#[test]
fn rocksdb() {
    let mut e = new_engine(Descriptor::RocksDBPath("/tmp/rocks"), open_shelf).unwrap();
    match &e {
        Backend::Persistent(shelf) => assert_eq!(shelf.path, "/tmp/rocks"),
        Backend::Memory(_) => panic!("the descriptor names the persistent backend"),
    }
    get_put(&mut e);
    batch(&mut e);
}

#[test]
fn memory_engine_alone() {
    let mut e = MemoryEngine::new();
    get_put(&mut e);
    batch(&mut e);
}

#[test]
fn memory_descriptor_does_not_open() {
    let mut calls = 0;
    let e = new_engine(Descriptor::Memory, |path: &str| {
        calls += 1;
        open_shelf(path)
    })
    .unwrap();
    assert!(matches!(e, Backend::Memory(_)));
    assert_eq!(calls, 0);
}

#[test]
fn persistent_descriptor_opens_once_with_its_path() {
    let mut seen: Vec<String> = Vec::new();
    let e = new_engine(Descriptor::RocksDBPath("some/dir"), |path: &str| {
        seen.push(path.to_string());
        open_shelf(path)
    })
    .unwrap();
    assert!(matches!(e, Backend::Persistent(_)));
    assert_eq!(seen, vec!["some/dir".to_string()]);
}

#[test]
fn failure_to_open_is_handed_on() {
    let r = new_engine(Descriptor::RocksDBPath("/nowhere"), |path: &str| -> Result<Shelf, Error> {
        let cause = Fault { description: "permission denied".to_string(), cause: None };
        Err(Error::Other(Fault {
            description: format!("cannot open {}", path),
            cause: Some(Box::new(cause)),
        }))
    });
    match r {
        Ok(_) => panic!("opening failed"),
        Err(error) => {
            assert_eq!(error.description(), "cannot open /nowhere");
            assert_eq!(error.message(), "cannot open /nowhere".to_string());
            let cause = error.cause().unwrap();
            assert_eq!(cause.description, "permission denied");
            assert!(cause.cause.is_none());
        }
    }
}

#[test]
fn opened_wraps_engine_and_keeps_error() {
    let ok = Backend::opened(open_shelf("p"));
    assert!(matches!(ok, Ok(Backend::Persistent(_))));
    let err: Result<Backend<Shelf>, Error> =
        Backend::opened(Err(Error::Other(Fault { description: "bad".to_string(), cause: None })));
    match err {
        Err(Error::Other(fault)) => assert_eq!(fault.description, "bad"),
        _ => panic!("the error is kept"),
    }
}

#[test]
fn error_without_cause() {
    let error = Error::Other(Fault { description: "disk full".to_string(), cause: None });
    assert_eq!(error.description(), "disk full");
    assert_eq!(error.message(), "disk full");
    assert!(error.cause().is_none());
}

#[test]
fn error_cause_chain() {
    let root = Fault { description: "root".to_string(), cause: None };
    let middle = Fault { description: "middle".to_string(), cause: Some(Box::new(root)) };
    let error = Error::Other(Fault { description: "top".to_string(), cause: Some(Box::new(middle)) });
    assert_eq!(error.description(), "top");
    let first = error.cause().unwrap();
    assert_eq!(first.description, "middle");
    let second = first.cause.as_ref().unwrap();
    assert_eq!(second.description, "root");
    assert!(second.cause.is_none());
}

/// A backend whose every operation fails.
struct Broken;

fn broken() -> Error {
    Error::Other(Fault { description: "broken".to_string(), cause: None })
}

impl Engine for Broken {
    fn get(&self, _key: &[u8]) -> Result<Option<Vec<u8>>, Error> {
        Err(broken())
    }

    fn seek(&self, _key: &[u8]) -> Result<Option<(Vec<u8>, Vec<u8>)>, Error> {
        Err(broken())
    }

    fn write(&mut self, _batch: Vec<Modify>) -> Result<(), Error> {
        Err(broken())
    }
}

#[test]
fn backend_errors_surface_unchanged() {
    let mut e = new_engine(Descriptor::RocksDBPath("x"), |_: &str| -> Result<Broken, Error> { Ok(Broken) })
        .unwrap();
    assert_eq!(e.get(b"k").unwrap_err().description(), "broken");
    assert_eq!(e.seek(b"k").unwrap_err().description(), "broken");
    assert_eq!(e.put(b"k", b"v").unwrap_err().description(), "broken");
    assert_eq!(e.delete(b"k").unwrap_err().description(), "broken");
    assert_eq!(e.write(vec![]).unwrap_err().description(), "broken");
}

#[test]
fn engines_behind_one_dynamic_handle() {
    let mut handles: Vec<Box<dyn Engine>> = vec![
        Box::new(MemoryEngine::new()),
        Box::new(new_engine(Descriptor::Memory, open_shelf).unwrap()),
        Box::new(new_engine(Descriptor::RocksDBPath("d"), open_shelf).unwrap()),
        Box::new(open_shelf("s").unwrap()),
    ];
    for handle in handles.iter_mut() {
        assert_eq!(handle.get(b"k").unwrap(), None);
        handle.put(b"k", b"v").unwrap();
        assert_eq!(handle.get(b"k").unwrap(), Some(b"v".to_vec()));
        assert_eq!(handle.seek(b"a").unwrap(), Some((b"k".to_vec(), b"v".to_vec())));
        handle.delete(b"k").unwrap();
        assert_eq!(handle.get(b"k").unwrap(), None);
    }
}
