//! Bind state: the resolved outputs of an applied bind, kept so that its
//! destroy actions can refer to them. Stored as `{store}/bind/{hash}/state.json`.
use vstd::prelude::*;
use crate::hash::ObjectHash;
use crate::strmap::StrMap;
use crate::text::{path_join, join_path};
use crate::inputs::store::path_exists;
use super::store::{bind_dir_path, spec_bind_dir_path};

verus! {

/// File name of the state file inside a bind's directory.
pub const STATE_FILENAME: &'static str = "state.json";

/// The persisted state of a bind.
#[derive(Debug, Clone, PartialEq)]
pub struct BindState {
    /// Output name to resolved value.
    pub outputs: StrMap<String>,
}

impl BindState {
    /// A state with the given outputs.
    pub fn new(outputs: StrMap<String>) -> (s: Self)
        ensures
            s.outputs == outputs,
    {
        BindState { outputs }
    }

    /// A state without outputs.
    pub fn empty() -> (s: Self)
        ensures
            s.outputs.wf(),
            s.outputs@ == Map::<Seq<char>, String>::empty(),
    {
        BindState { outputs: StrMap::new() }
    }
}

/// The path of a bind's state file: `{store_dir}/bind/{hash}/state.json`.
pub open spec fn spec_bind_state_path(hash: Seq<char>, store_dir: Seq<char>) -> Seq<char> {
    path_join(spec_bind_dir_path(hash, store_dir), STATE_FILENAME@)
}

/// The path of a bind's state file.
pub fn bind_state_path(hash: &ObjectHash, store_dir: &str) -> (r: String)
    ensures
        r@ == spec_bind_state_path(hash.0@, store_dir@),
{
    let dir = bind_dir_path(hash, store_dir);
    join_path(dir.as_str(), STATE_FILENAME)
}

/// Whether a bind's state file exists on disk.
pub fn bind_state_exists(hash: &ObjectHash, store_dir: &str) -> bool {
    let path = bind_state_path(hash, store_dir);
    path_exists(path.as_str())
}

} // verus!
