//! Where build outputs live in the store: `{store}/build/{hash}`.
use vstd::prelude::*;
use crate::hash::ObjectHash;
use crate::text::{path_join, join_path};
use crate::inputs::store::path_exists;

verus! {

/// The directory name of a build: its hash.
pub fn build_dir_name(hash: &ObjectHash) -> (r: String)
    ensures
        r@ == hash.0@,
{
    hash.0.clone()
}

/// `{store}/build/{hash}`.
pub open spec fn spec_build_path(store: Seq<char>, hash: Seq<char>) -> Seq<char> {
    path_join(path_join(store, "build"@), hash)
}

/// The build directory of a hash under a store directory.
pub fn build_path_in(store: &str, hash: &ObjectHash) -> (r: String)
    ensures
        r@ == spec_build_path(store@, hash.0@),
{
    let build = "build";
    proof {
        reveal_strlit("build");
    }
    let base = join_path(store, build);
    let name = build_dir_name(hash);
    join_path(base.as_str(), name.as_str())
}

/// Where a build's outputs are to be found.
#[derive(Debug, Clone, PartialEq, Eq)]
pub enum BuildDirChoice {
    /// The build directory of the primary store.
    Primary(String),
    /// The build exists only in the parent store: link `primary` to `fallback`,
    /// and use `fallback` directly if the link cannot be made.
    LinkFromParent { fallback: String, primary: String },
}

/// Chooses the build directory: the primary one if it exists; else the parent
/// store's if that exists (to be linked into the primary store); else the
/// primary one, where a new build will be written.
pub fn choose_build_dir(primary: String, primary_exists: bool, fallback: Option<(String, bool)>) -> (r: BuildDirChoice)
    ensures
        r == (if primary_exists {
            BuildDirChoice::Primary(primary)
        } else {
            match fallback {
                Some((f, true)) => BuildDirChoice::LinkFromParent { fallback: f, primary },
                _ => BuildDirChoice::Primary(primary),
            }
        }),
{
    if primary_exists {
        return BuildDirChoice::Primary(primary);
    }
    match fallback {
        Some((f, exists)) => {
            if exists {
                BuildDirChoice::LinkFromParent { fallback: f, primary }
            } else {
                BuildDirChoice::Primary(primary)
            }
        },
        None => BuildDirChoice::Primary(primary),
    }
}

/// The build directory of a hash: `{store_dir}/build/{hash}`, or, when only
/// the parent store has the build, `{parent}/build/{hash}` to be linked in.
pub fn build_dir_path(hash: &ObjectHash, store_dir: &str, parent_store_dir: Option<&str>) -> (r: BuildDirChoice)
    ensures
        match r {
            BuildDirChoice::Primary(p) => p@ == spec_build_path(store_dir@, hash.0@),
            BuildDirChoice::LinkFromParent { fallback, primary } => {
                &&& primary@ == spec_build_path(store_dir@, hash.0@)
                &&& parent_store_dir matches Some(ps) && fallback@ == spec_build_path(ps@, hash.0@)
            },
        },
{
    let primary = build_path_in(store_dir, hash);
    let primary_exists = path_exists(primary.as_str());
    let fallback = match parent_store_dir {
        Some(parent) => {
            let f = build_path_in(parent, hash);
            let e = path_exists(f.as_str());
            Some((f, e))
        },
        None => None,
    };
    choose_build_dir(primary, primary_exists, fallback)
}

/// The build directory to use once the choice is carried out: the primary
/// one, or, for a build found only in the parent store, the primary one when
/// the link to the parent's could be made and the parent's directly when not.
pub fn chosen_build_dir(choice: BuildDirChoice, link_made: bool) -> (r: String)
    ensures
        r == (match choice {
            BuildDirChoice::Primary(p) => p,
            BuildDirChoice::LinkFromParent { fallback, primary } => if link_made {
                primary
            } else {
                fallback
            },
        }),
{
    match choice {
        BuildDirChoice::Primary(p) => p,
        BuildDirChoice::LinkFromParent { fallback, primary } => {
            if link_made {
                primary
            } else {
                fallback
            }
        },
    }
}

/// Whether a build exists under the given store directory.
pub fn build_exists_in_store(hash: &ObjectHash, store_path: &str) -> bool {
    let path = build_path_in(store_path, hash);
    path_exists(path.as_str())
}

} // verus!
