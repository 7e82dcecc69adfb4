//! Resolution of the placeholders of builds and binds: the outputs of earlier
//! actions, of completed builds and binds (found by hash prefix), and the
//! output directory.
//!
//! Builds may refer to builds only; binds to builds and binds.
use vstd::prelude::*;
use crate::hash::ObjectHash;
use crate::strmap::StrMap;
use crate::text::{has_prefix, starts_with, concat_str, compare_str_eq};
use crate::build::store::{build_path_in, spec_build_path};
use super::dag::DagManifest;
use super::types::{BindResult, BuildResult};

verus! {

/// A placeholder that could not be resolved.
#[derive(Debug, Clone, PartialEq, Eq)]
pub enum PlaceholderError {
    /// No action with this index has run yet.
    UnresolvedAction(usize),
    /// No completed build has this output.
    UnresolvedBuild { hash: String, output: String },
    /// No completed bind has this output.
    UnresolvedBind { hash: String, output: String },
    /// The environment variable is not set.
    UnresolvedEnv(String),
}

/// The text `{:?}` gives for a path.
pub uninterp spec fn path_debug_text(p: Seq<char>) -> Seq<char>;

/// Formats a path with `{:?}` (the `Debug` of `std::path::Path`). Trusted:
/// the text depends on the path alone; what it is, Rust's escaping rules say.
#[verifier::external_body]
fn path_debug(p: &str) -> (r: String)
    ensures
        r@ == path_debug_text(p@),
{
    format!("{:?}", std::path::Path::new(p))
}

/// The position of the first key, in ascending order, that starts with `prefix`.
pub open spec fn first_with_prefix(keys: Seq<Seq<char>>, prefix: Seq<char>) -> Option<int>
    decreases keys.len(),
{
    if keys.len() == 0 {
        None
    } else if has_prefix(keys[0], prefix) {
        Some(0)
    } else {
        match first_with_prefix(keys.drop_first(), prefix) {
            Some(i) => Some(i + 1),
            None => None,
        }
    }
}

proof fn lemma_first_with_prefix(keys: Seq<Seq<char>>, prefix: Seq<char>)
    ensures
        match first_with_prefix(keys, prefix) {
            Some(i) => 0 <= i < keys.len() && has_prefix(keys[i], prefix) && forall|j: int| 0 <= j < i ==> !has_prefix(
                #[trigger] keys[j],
                prefix,
            ),
            None => forall|j: int| 0 <= j < keys.len() ==> !has_prefix(#[trigger] keys[j], prefix),
        },
    decreases keys.len(),
{
    if keys.len() > 0 && !has_prefix(keys[0], prefix) {
        lemma_first_with_prefix(keys.drop_first(), prefix);
        assert forall|j: int| 1 <= j < keys.len() implies keys[j] == #[trigger] keys.drop_first()[j - 1] by {}
        match first_with_prefix(keys.drop_first(), prefix) {
            Some(i) => {
                assert forall|j: int| 0 <= j < i + 1 implies !has_prefix(#[trigger] keys[j], prefix) by {
                    if j > 0 {
                        assert(keys[j] == keys.drop_first()[j - 1]);
                    }
                }
            },
            None => {
                assert forall|j: int| 0 <= j < keys.len() implies !has_prefix(#[trigger] keys[j], prefix) by {
                    if j > 0 {
                        assert(keys[j] == keys.drop_first()[j - 1]);
                    }
                }
            },
        }
    }
}

/// Finds the first key, in ascending order, that starts with `prefix`.
fn find_prefixed<V>(m: &StrMap<V>, prefix: &str) -> (r: Option<usize>)
    requires
        m.wf(),
    ensures
        r matches Some(i) ==> first_with_prefix(m.keys(), prefix@) == Some(i as int) && i < m.keys().len(),
        r is None ==> first_with_prefix(m.keys(), prefix@) is None,
{
    proof {
        m.lemma_view();
        lemma_first_with_prefix(m.keys(), prefix@);
    }
    let n = m.len();
    let mut i: usize = 0;
    while i < n
        invariant
            m.wf(),
            n == m.keys().len(),
            i <= n,
            forall|j: int| 0 <= j < i ==> !has_prefix(#[trigger] m.keys()[j], prefix@),
            match first_with_prefix(m.keys(), prefix@) {
                Some(f) => 0 <= f < m.keys().len() && has_prefix(m.keys()[f], prefix@) && forall|j: int|
                    0 <= j < f ==> !has_prefix(#[trigger] m.keys()[j], prefix@),
                None => forall|j: int| 0 <= j < m.keys().len() ==> !has_prefix(#[trigger] m.keys()[j], prefix@),
            },
        decreases n - i,
    {
        let (k, _) = m.entry_at(i);
        if starts_with(k.as_str(), prefix) {
            return Some(i);
        }
        i = i + 1;
    }
    None
}

/// A build output: that of the first completed build whose hash starts with
/// `hash`, or, for `out`, its store path.
pub open spec fn completed_build_output(completed: StrMap<BuildResult>, hash: Seq<char>, output: Seq<char>) -> Option<Seq<char>> {
    match first_with_prefix(completed.keys(), hash) {
        Some(i) => {
            let res = completed@[completed.keys()[i]];
            if res.outputs@.dom().contains(output) {
                Some(res.outputs@[output]@)
            } else if output == "out"@ {
                Some(res.store_path@)
            } else {
                None
            }
        },
        None => None,
    }
}

/// The hash named in the error of an unresolved build output: for `out` of a
/// build the manifest has but that has not completed, a note with the path it
/// would have.
pub open spec fn unresolved_build_hash(manifest: DagManifest, store_dir: Seq<char>, hash: Seq<char>, output: Seq<char>) -> Seq<char> {
    if output == "out"@ {
        match first_with_prefix(manifest.builds.keys(), hash) {
            Some(j) => hash + " (not yet realized, path would be "@ + path_debug_text(
                spec_build_path(store_dir, manifest.builds.keys()[j]),
            ) + ")"@,
            None => hash,
        }
    } else {
        hash
    }
}

/// A bind output: that of the first completed bind whose hash starts with `hash`.
pub open spec fn completed_bind_output(completed: StrMap<BindResult>, hash: Seq<char>, output: Seq<char>) -> Option<Seq<char>> {
    match first_with_prefix(completed.keys(), hash) {
        Some(i) => {
            let res = completed@[completed.keys()[i]];
            if res.outputs@.dom().contains(output) {
                Some(res.outputs@[output]@)
            } else {
                None
            }
        },
        None => None,
    }
}

/// Resolves a build output (see `completed_build_output`, `unresolved_build_hash`).
fn resolve_build_output(hash: &str, output: &str, completed: &StrMap<BuildResult>, manifest: &DagManifest, store_dir: &str) -> (r: Result<String, PlaceholderError>)
    requires
        completed.wf(),
        manifest.wf(),
        forall|k: Seq<char>| #[trigger] completed@.dom().contains(k) ==> completed@[k].outputs.wf(),
    ensures
        match completed_build_output(*completed, hash@, output@) {
            Some(v) => r matches Ok(s) && s@ == v,
            None => r matches Err(PlaceholderError::UnresolvedBuild { hash: h, output: o }) && o@ == output@
                && h@ == unresolved_build_hash(*manifest, store_dir@, hash@, output@),
        },
{
    let out_name = "out";
    proof {
        reveal_strlit("out");
        completed.lemma_view();
        manifest.builds.lemma_view();
    }
    let is_out = compare_str_eq(output, out_name);
    match find_prefixed(completed, hash) {
        Some(i) => {
            let (_, res) = completed.entry_at(i);
            proof {
                assert(completed@.dom().contains(completed.keys()[i as int]));
            }
            match res.outputs.get(output) {
                Some(v) => {
                    return Ok(v.clone());
                },
                None => {},
            }
            if is_out {
                return Ok(res.store_path.clone());
            }
        },
        None => {},
    }
    if is_out {
        match find_prefixed(&manifest.builds, hash) {
            Some(j) => {
                let (full, _) = manifest.builds.entry_at(j);
                let path = build_path_in(store_dir, &ObjectHash(full.clone()));
                let shown = path_debug(path.as_str());
                let a = " (not yet realized, path would be ";
                let b = ")";
                proof {
                    reveal_strlit(" (not yet realized, path would be ");
                    reveal_strlit(")");
                }
                let t1 = concat_str(hash, a);
                let t2 = concat_str(t1.as_str(), shown.as_str());
                let t3 = concat_str(t2.as_str(), b);
                return Err(PlaceholderError::UnresolvedBuild { hash: t3, output: output.to_string() });
            },
            None => {},
        }
    }
    Err(PlaceholderError::UnresolvedBuild { hash: hash.to_string(), output: output.to_string() })
}

/// Resolves a bind output (see `completed_bind_output`).
fn resolve_bind_output(hash: &str, output: &str, completed: &StrMap<BindResult>) -> (r: Result<String, PlaceholderError>)
    requires
        completed.wf(),
        forall|k: Seq<char>| #[trigger] completed@.dom().contains(k) ==> completed@[k].outputs.wf(),
    ensures
        match completed_bind_output(*completed, hash@, output@) {
            Some(v) => r matches Ok(s) && s@ == v,
            None => r matches Err(PlaceholderError::UnresolvedBind { hash: h, output: o }) && h@ == hash@ && o@ == output@,
        },
{
    proof {
        completed.lemma_view();
    }
    match find_prefixed(completed, hash) {
        Some(i) => {
            let (_, res) = completed.entry_at(i);
            proof {
                assert(completed@.dom().contains(completed.keys()[i as int]));
            }
            match res.outputs.get(output) {
                Some(v) => {
                    return Ok(v.clone());
                },
                None => {},
            }
        },
        None => {},
    }
    Err(PlaceholderError::UnresolvedBind { hash: hash.to_string(), output: output.to_string() })
}

/// Resolves the placeholders of a build: its actions' outputs, completed
/// builds' outputs and its output directory. Builds cannot refer to binds.
pub struct BuildCtxResolver<'a> {
    action_results: Vec<String>,
    completed_builds: &'a StrMap<BuildResult>,
    manifest: &'a DagManifest,
    out_dir: String,
    store_dir: String,
}

impl<'a> BuildCtxResolver<'a> {
    /// The outputs of the actions run so far, in order.
    pub closed spec fn actions(&self) -> Seq<String> {
        self.action_results@
    }

    /// The output directory.
    pub closed spec fn out(&self) -> Seq<char> {
        self.out_dir@
    }

    /// The completed builds.
    pub closed spec fn builds(&self) -> StrMap<BuildResult> {
        *self.completed_builds
    }

    /// The manifest.
    pub closed spec fn manifest_of(&self) -> DagManifest {
        *self.manifest
    }

    /// The store directory.
    pub closed spec fn store(&self) -> Seq<char> {
        self.store_dir@
    }

    /// A resolver with no action run yet; `store_dir` is the store whose
    /// build directories are named for builds not yet realized.
    pub fn new(completed_builds: &'a StrMap<BuildResult>, manifest: &'a DagManifest, out_dir: String, store_dir: String) -> (r: Self)
        ensures
            r.actions() == Seq::<String>::empty(),
            r.out() == out_dir@,
            r.builds() == *completed_builds,
            r.manifest_of() == *manifest,
            r.store() == store_dir@,
    {
        BuildCtxResolver { action_results: Vec::new(), completed_builds, manifest, out_dir, store_dir }
    }

    /// Records the output of the next action.
    pub fn push_action_result(&mut self, result: String)
        ensures
            final(self).actions() == old(self).actions().push(result),
            final(self).out() == old(self).out(),
            final(self).builds() == old(self).builds(),
            final(self).manifest_of() == old(self).manifest_of(),
            final(self).store() == old(self).store(),
    {
        self.action_results.push(result);
    }

    /// The number of actions run so far.
    pub fn action_count(&self) -> (n: usize)
        ensures
            n == self.actions().len(),
    {
        self.action_results.len()
    }

    /// The output of the action at an index.
    pub fn resolve_action(&self, index: usize) -> (r: Result<String, PlaceholderError>)
        ensures
            index < self.actions().len() ==> (r matches Ok(s) && s@ == self.actions()[index as int]@),
            index >= self.actions().len() ==> r == Err::<String, PlaceholderError>(PlaceholderError::UnresolvedAction(index)),
    {
        if index < self.action_results.len() {
            Ok(self.action_results[index].clone())
        } else {
            Err(PlaceholderError::UnresolvedAction(index))
        }
    }

    /// The output of a completed build (see `completed_build_output`,
    /// `unresolved_build_hash`).
    pub fn resolve_build(&self, hash: &str, output: &str) -> (r: Result<String, PlaceholderError>)
        requires
            self.builds().wf(),
            self.manifest_of().wf(),
            forall|k: Seq<char>| #[trigger] self.builds()@.dom().contains(k) ==> self.builds()@[k].outputs.wf(),
        ensures
            match completed_build_output(self.builds(), hash@, output@) {
                Some(v) => r matches Ok(s) && s@ == v,
                None => r matches Err(PlaceholderError::UnresolvedBuild { hash: h, output: o }) && o@ == output@
                    && h@ == unresolved_build_hash(self.manifest_of(), self.store(), hash@, output@),
            },
    {
        resolve_build_output(hash, output, self.completed_builds, self.manifest, self.store_dir.as_str())
    }

    /// Builds cannot refer to binds: always unresolved.
    pub fn resolve_bind(&self, hash: &str, output: &str) -> (r: Result<String, PlaceholderError>)
        ensures
            r matches Err(PlaceholderError::UnresolvedBind { hash: h, output: o }) && h@ == hash@ && o@ == output@,
    {
        Err(PlaceholderError::UnresolvedBind { hash: hash.to_string(), output: output.to_string() })
    }

    /// The output directory.
    pub fn resolve_out(&self) -> (r: Result<String, PlaceholderError>)
        ensures
            r matches Ok(s) && s@ == self.out(),
    {
        Ok(self.out_dir.clone())
    }
}

/// Resolves the placeholders of a bind: its actions' outputs, completed
/// builds' and binds' outputs and its output directory.
pub struct BindCtxResolver<'a> {
    action_results: Vec<String>,
    completed_builds: &'a StrMap<BuildResult>,
    completed_binds: &'a StrMap<BindResult>,
    manifest: &'a DagManifest,
    out_dir: String,
    store_dir: String,
}

impl<'a> BindCtxResolver<'a> {
    /// The outputs of the actions run so far, in order.
    pub closed spec fn actions(&self) -> Seq<String> {
        self.action_results@
    }

    /// The output directory.
    pub closed spec fn out(&self) -> Seq<char> {
        self.out_dir@
    }

    /// The completed builds.
    pub closed spec fn builds(&self) -> StrMap<BuildResult> {
        *self.completed_builds
    }

    /// The completed binds.
    pub closed spec fn binds(&self) -> StrMap<BindResult> {
        *self.completed_binds
    }

    /// The manifest.
    pub closed spec fn manifest_of(&self) -> DagManifest {
        *self.manifest
    }

    /// The store directory.
    pub closed spec fn store(&self) -> Seq<char> {
        self.store_dir@
    }

    /// A resolver with no action run yet; `store_dir` is the store whose
    /// build directories are named for builds not yet realized.
    pub fn new(
        completed_builds: &'a StrMap<BuildResult>,
        completed_binds: &'a StrMap<BindResult>,
        manifest: &'a DagManifest,
        out_dir: String,
        store_dir: String,
    ) -> (r: Self)
        ensures
            r.actions() == Seq::<String>::empty(),
            r.out() == out_dir@,
            r.builds() == *completed_builds,
            r.binds() == *completed_binds,
            r.manifest_of() == *manifest,
            r.store() == store_dir@,
    {
        BindCtxResolver { action_results: Vec::new(), completed_builds, completed_binds, manifest, out_dir, store_dir }
    }

    /// Records the output of the next action.
    pub fn push_action_result(&mut self, result: String)
        ensures
            final(self).actions() == old(self).actions().push(result),
            final(self).out() == old(self).out(),
            final(self).builds() == old(self).builds(),
            final(self).binds() == old(self).binds(),
            final(self).manifest_of() == old(self).manifest_of(),
            final(self).store() == old(self).store(),
    {
        self.action_results.push(result);
    }

    /// The number of actions run so far.
    pub fn action_count(&self) -> (n: usize)
        ensures
            n == self.actions().len(),
    {
        self.action_results.len()
    }

    /// A resolver over the same completed builds and binds, with another
    /// output directory and no action run yet.
    pub fn with_out_dir(&self, out_dir: String) -> (r: BindCtxResolver<'a>)
        ensures
            r.actions() == Seq::<String>::empty(),
            r.out() == out_dir@,
            r.builds() == self.builds(),
            r.binds() == self.binds(),
            r.manifest_of() == self.manifest_of(),
            r.store() == self.store(),
    {
        BindCtxResolver {
            action_results: Vec::new(),
            completed_builds: self.completed_builds,
            completed_binds: self.completed_binds,
            manifest: self.manifest,
            out_dir,
            store_dir: self.store_dir.clone(),
        }
    }

    /// The output of the action at an index.
    pub fn resolve_action(&self, index: usize) -> (r: Result<String, PlaceholderError>)
        ensures
            index < self.actions().len() ==> (r matches Ok(s) && s@ == self.actions()[index as int]@),
            index >= self.actions().len() ==> r == Err::<String, PlaceholderError>(PlaceholderError::UnresolvedAction(index)),
    {
        if index < self.action_results.len() {
            Ok(self.action_results[index].clone())
        } else {
            Err(PlaceholderError::UnresolvedAction(index))
        }
    }

    /// The output of a completed build (see `completed_build_output`,
    /// `unresolved_build_hash`).
    pub fn resolve_build(&self, hash: &str, output: &str) -> (r: Result<String, PlaceholderError>)
        requires
            self.builds().wf(),
            self.manifest_of().wf(),
            forall|k: Seq<char>| #[trigger] self.builds()@.dom().contains(k) ==> self.builds()@[k].outputs.wf(),
        ensures
            match completed_build_output(self.builds(), hash@, output@) {
                Some(v) => r matches Ok(s) && s@ == v,
                None => r matches Err(PlaceholderError::UnresolvedBuild { hash: h, output: o }) && o@ == output@
                    && h@ == unresolved_build_hash(self.manifest_of(), self.store(), hash@, output@),
            },
    {
        resolve_build_output(hash, output, self.completed_builds, self.manifest, self.store_dir.as_str())
    }

    /// The output of a completed bind (see `completed_bind_output`).
    pub fn resolve_bind(&self, hash: &str, output: &str) -> (r: Result<String, PlaceholderError>)
        requires
            self.binds().wf(),
            forall|k: Seq<char>| #[trigger] self.binds()@.dom().contains(k) ==> self.binds()@[k].outputs.wf(),
        ensures
            match completed_bind_output(self.binds(), hash@, output@) {
                Some(v) => r matches Ok(s) && s@ == v,
                None => r matches Err(PlaceholderError::UnresolvedBind { hash: h, output: o }) && h@ == hash@ && o@ == output@,
            },
    {
        resolve_bind_output(hash, output, self.completed_binds)
    }

    /// The output directory.
    pub fn resolve_out(&self) -> (r: Result<String, PlaceholderError>)
        ensures
            r matches Ok(s) && s@ == self.out(),
    {
        Ok(self.out_dir.clone())
    }
}

} // verus!
