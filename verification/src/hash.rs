//! Object hashes: the content hashes that name builds and binds.
use vstd::prelude::*;

verus! {

/// The hash that names a build or a bind in the store.
#[derive(Debug, Clone, PartialEq, Eq, Hash)]
pub struct ObjectHash(pub String);

impl ObjectHash {
    /// The hash as a string.
    pub fn as_str(&self) -> (r: &str)
        ensures
            r@ == self.0@,
    {
        self.0.as_str()
    }
}

} // verus!
