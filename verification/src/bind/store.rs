//! Where bind state lives in the store: `{store}/bind/{hash}`.
use vstd::prelude::*;
use crate::hash::ObjectHash;
use crate::text::{path_join, join_path};

verus! {

/// The directory name of a bind: its hash.
pub fn bind_dir_name(hash: &ObjectHash) -> (r: String)
    ensures
        r@ == hash.0@,
{
    hash.0.clone()
}

/// The store directory of a bind: `{store_dir}/bind/{hash}`.
pub open spec fn spec_bind_dir_path(hash: Seq<char>, store_dir: Seq<char>) -> Seq<char> {
    path_join(path_join(store_dir, "bind"@), hash)
}

/// The store directory of a bind under `store_dir`.
pub fn bind_dir_path(hash: &ObjectHash, store_dir: &str) -> (r: String)
    ensures
        r@ == spec_bind_dir_path(hash.0@, store_dir@),
{
    let bind = "bind";
    proof {
        reveal_strlit("bind");
    }
    let base = join_path(store_dir, bind);
    let name = bind_dir_name(hash);
    join_path(base.as_str(), name.as_str())
}

} // verus!
