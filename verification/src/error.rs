//! The one error that an engine reports: a backend's failure, carried as the
//! backend described it.

use vstd::prelude::*;

verus! {

/// A failure as its origin described it, with the failure that led to it, if
/// one is known. The causes form a chain that ends where none is known.
#[derive(Debug)]
pub struct Fault {
    pub description: String,
    pub cause: Option<Box<Fault>>,
}

/// Why an engine operation failed.
#[derive(Debug)]
#[non_exhaustive]
pub enum Error {
    /// The backend failed; the fault is the backend's own.
    Other(Fault),
}

impl Error {
    /// The fault that the error wraps.
    pub open spec fn fault(self) -> Fault {
        match self {
            Error::Other(f) => f,
        }
    }

    /// The wrapped fault's description.
    pub fn description(&self) -> (r: &str)
        ensures
            r@ == self.fault().description@,
    {
        match self {
            Error::Other(f) => f.description.as_str(),
        }
    }

    /// The wrapped fault's cause: the next link of the chain, if there is one.
    pub fn cause(&self) -> (r: Option<&Fault>)
        ensures
            match self.fault().cause {
                Some(next) => r == Some(&*next),
                None => r is None,
            },
    {
        match self {
            Error::Other(f) => match &f.cause {
                Some(next) => Some(&**next),
                None => None,
            },
        }
    }

    /// The text that shows the error to a reader: the wrapped fault's
    /// description.
    pub fn message(&self) -> (r: String)
        ensures
            r@ == self.fault().description@,
    {
        match self {
            Error::Other(f) => f.description.clone(),
        }
    }
}

} // verus!
