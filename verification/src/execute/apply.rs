//! The decisions of applying a configuration and of destroying what was
//! applied: when to stop early, what to execute, what each phase does with a
//! bind whose state or definition is missing, how a failure is recovered
//! from, and what a destroy reports.
//!
//! Loading state, running actions and keeping snapshots is the caller's work;
//! these functions decide from what the caller found.
use vstd::prelude::*;
use crate::hash::ObjectHash;
use crate::strmap::StrMap;
use crate::text::{compare_str_eq, concat_str, replace_all, replaced};
use crate::bind::state::BindState;
use crate::inputs::refs::InputsRef;
use super::dag::{DagManifest, DagNode};
use super::types::{BindResult, BuildResult, ExecuteConfig, ExecuteError};

verus! {

/// Options of an apply.
#[derive(Debug, Clone)]
pub struct ApplyOptions {
    /// Execution settings.
    pub execute: ExecuteConfig,
    /// Whether to use the system store rather than the user's.
    pub system: bool,
    /// Compute what would change without changing anything.
    pub dry_run: bool,
}

/// Options of a destroy.
#[derive(Debug, Clone)]
pub struct DestroyOptions {
    /// Execution settings.
    pub execute: ExecuteConfig,
    /// Whether to use the system store rather than the user's.
    pub system: bool,
    /// Report what would be destroyed without destroying it.
    pub dry_run: bool,
}

/// What a destroy did.
#[derive(Debug, Clone, Copy, PartialEq, Eq)]
pub struct DestroyResult {
    /// The number of binds destroyed.
    pub binds_destroyed: usize,
    /// The number of builds left without a bind (for a later collection).
    pub builds_orphaned: usize,
}

/// Errors of apply and destroy.
#[derive(Debug)]
pub enum ApplyError {
    /// The configuration could not be evaluated.
    Eval(String),
    /// A snapshot could not be read or written.
    Snapshot(String),
    /// Execution failed.
    Execute(ExecuteError),
    /// A bind's state could not be read or written.
    BindState(String),
    /// The configuration file does not exist.
    ConfigNotFound(String),
    /// A bind could not be destroyed.
    DestroyFailed { hash: ObjectHash, source: ExecuteError },
    /// A bind could not be restored during rollback.
    RestoreFailed { hash: ObjectHash, source: String },
    /// A bind could not be updated.
    UpdateFailed { old_hash: ObjectHash, new_hash: ObjectHash, source: ExecuteError },
}

/// A failure of the destroy phase, with the binds destroyed before it.
#[derive(Debug)]
pub struct DestroyPhaseError {
    /// The binds destroyed before the failure, in order.
    pub destroyed: Vec<ObjectHash>,
    /// The bind that could not be destroyed.
    pub failed_hash: ObjectHash,
    /// Why.
    pub source: ExecuteError,
}

/// How an apply starts, once the difference to the current state is known.
#[derive(Debug, Clone, Copy, PartialEq, Eq)]
pub enum ApplyStart {
    /// Nothing changes: record the state and stop.
    Unchanged,
    /// A dry run: report the difference and stop.
    DryRun,
    /// Go on with the changes.
    Proceed,
}

/// An empty difference ends an apply before anything else (a dry run
/// included); a dry run ends it before any change.
pub fn apply_start(diff_is_empty: bool, dry_run: bool) -> (r: ApplyStart)
    ensures
        r == (if diff_is_empty {
            ApplyStart::Unchanged
        } else if dry_run {
            ApplyStart::DryRun
        } else {
            ApplyStart::Proceed
        }),
{
    if diff_is_empty {
        ApplyStart::Unchanged
    } else if dry_run {
        ApplyStart::DryRun
    } else {
        ApplyStart::Proceed
    }
}

/// The set of hashes of a list.
pub open spec fn hash_set(hs: Seq<ObjectHash>) -> Set<Seq<char>> {
    Set::new(|k: Seq<char>| exists|i: int| 0 <= i < hs.len() && (#[trigger] hs[i]).0@ == k)
}

/// Moves the entries of `from` listed in `hs` into `into`.
fn move_listed(from: &mut StrMap<Option<InputsRef>>, into: &mut StrMap<Option<InputsRef>>, hs: &Vec<ObjectHash>)
    requires
        old(from).wf(),
        old(into).wf(),
        old(into)@.dom().disjoint(old(from)@.dom()),
    ensures
        final(from).wf(),
        final(into).wf(),
        final(into)@ == old(into)@.union_prefer_right(old(from)@.restrict(hash_set(hs@))),
        final(from)@ == old(from)@.remove_keys(hash_set(hs@)),
{
    let mut i: usize = 0;
    let ghost f0 = from@;
    let ghost i0 = into@;
    proof {
        assert(i0.union_prefer_right(f0.restrict(hash_set(hs@.take(0)))) =~= i0);
        assert(f0.remove_keys(hash_set(hs@.take(0))) =~= f0);
    }
    while i < hs.len()
        invariant
            from.wf(),
            into.wf(),
            i0.dom().disjoint(f0.dom()),
            i <= hs@.len(),
            into@ == i0.union_prefer_right(f0.restrict(hash_set(hs@.take(i as int)))),
            from@ == f0.remove_keys(hash_set(hs@.take(i as int))),
        decreases hs@.len() - i,
    {
        let ghost k = hs@[i as int].0@;
        proof {
            assert forall|x: Seq<char>| hash_set(hs@.take(i + 1)).contains(x) <==> hash_set(hs@.take(i as int)).contains(x)
                || x == k by {
                if hash_set(hs@.take(i + 1)).contains(x) {
                    let j = choose|j: int| 0 <= j < hs@.take(i + 1).len() && (#[trigger] hs@.take(i + 1)[j]).0@ == x;
                    if j < i {
                        assert(hs@.take(i as int)[j] == hs@.take(i + 1)[j]);
                    }
                }
                if hash_set(hs@.take(i as int)).contains(x) {
                    let j = choose|j: int| 0 <= j < hs@.take(i as int).len() && (#[trigger] hs@.take(i as int)[j]).0@ == x;
                    assert(hs@.take(i + 1)[j] == hs@.take(i as int)[j]);
                }
                if x == k {
                    assert(hs@.take(i + 1)[i as int] == hs@[i as int]);
                }
            }
        }
        match from.remove(hs[i].0.as_str()) {
            Some(v) => {
                into.insert(hs[i].0.clone(), v);
            },
            None => {},
        }
        proof {
            assert(into@ =~= i0.union_prefer_right(f0.restrict(hash_set(hs@.take(i + 1)))));
            assert(from@ =~= f0.remove_keys(hash_set(hs@.take(i + 1))));
        }
        i = i + 1;
    }
    proof {
        assert(hs@.take(i as int) =~= hs@);
    }
}

/// What an apply executes: the builds to realize and the cached builds
/// (whose outputs the binds may need), and the binds to apply, each with its
/// entry of the desired manifest; hashes the manifest lacks are left out.
pub fn build_execution_manifest(
    desired: DagManifest,
    builds_to_realize: &Vec<ObjectHash>,
    builds_cached: &Vec<ObjectHash>,
    binds_to_apply: &Vec<ObjectHash>,
) -> (r: DagManifest)
    requires
        desired.wf(),
    ensures
        r.wf(),
        r.builds@ == desired.builds@.restrict(hash_set(builds_to_realize@) + hash_set(builds_cached@)),
        r.bindings@ == desired.bindings@.restrict(hash_set(binds_to_apply@)),
{
    let DagManifest { builds, bindings } = desired;
    let ghost b0 = builds@;
    let ghost d0 = bindings@;
    let mut builds = builds;
    let mut bindings = bindings;
    let mut out_builds: StrMap<Option<InputsRef>> = StrMap::new();
    let mut out_binds: StrMap<Option<InputsRef>> = StrMap::new();
    move_listed(&mut builds, &mut out_builds, builds_to_realize);
    move_listed(&mut builds, &mut out_builds, builds_cached);
    move_listed(&mut bindings, &mut out_binds, binds_to_apply);
    proof {
        assert(out_builds@ =~= b0.restrict(hash_set(builds_to_realize@) + hash_set(builds_cached@)));
        assert(out_binds@ =~= d0.restrict(hash_set(binds_to_apply@)));
    }
    DagManifest { builds: out_builds, bindings: out_binds }
}

/// What the caller found when loading a bind's saved state.
#[derive(Debug)]
pub enum BindStateLoad {
    /// The state was read.
    Loaded(BindState),
    /// The bind has no saved state.
    Missing,
    /// The state could not be read.
    Unreadable,
}

/// What to do with one bind of the destroy phase.
#[derive(Debug)]
pub enum DestroyStep {
    /// Leave it: it has no saved state, or no definition to destroy it by.
    Skip,
    /// Run its destroy actions with these outputs (those saved when it was applied).
    Destroy(BindResult),
    /// Stop the phase with this error.
    Abort(DestroyPhaseError),
}

/// The message of a bind state that could not be loaded.
pub open spec fn load_state_message(hash: Seq<char>) -> Seq<char> {
    "load bind state for "@ + hash
}

/// The message of a bind definition that is missing.
pub open spec fn find_definition_message(hash: Seq<char>) -> Seq<char> {
    "find bind definition for "@ + hash
}

/// A copy of a list of hashes.
pub fn copy_hashes(hs: &Vec<ObjectHash>) -> (r: Vec<ObjectHash>)
    ensures
        r@ == hs@,
{
    let mut r: Vec<ObjectHash> = Vec::new();
    let mut i: usize = 0;
    while i < hs.len()
        invariant
            i <= hs@.len(),
            r@ == hs@.take(i as int),
        decreases hs@.len() - i,
    {
        r.push(ObjectHash(hs[i].0.clone()));
        proof {
            assert(r@ =~= hs@.take(i + 1));
        }
        i = i + 1;
    }
    proof {
        assert(hs@.take(i as int) =~= hs@);
    }
    r
}

/// The destroy phase: destroys the binds one after the other, remembering
/// which were destroyed so that a failure can hand them back.
pub struct DestroyPhase {
    destroyed: Vec<ObjectHash>,
}

impl DestroyPhase {
    /// The binds destroyed so far, in order.
    pub closed spec fn destroyed_so_far(&self) -> Seq<ObjectHash> {
        self.destroyed@
    }

    /// A phase with nothing destroyed.
    pub fn new() -> (r: Self)
        ensures
            r.destroyed_so_far() == Seq::<ObjectHash>::empty(),
    {
        DestroyPhase { destroyed: Vec::new() }
    }

    /// Decides about one bind from its saved state and whether its definition
    /// is known: a state that cannot be read stops the phase (before the
    /// definition is looked at); a bind without state or without definition is
    /// skipped; otherwise it is destroyed with its saved outputs.
    pub fn step(&self, hash: &ObjectHash, state: BindStateLoad, has_definition: bool) -> (r: DestroyStep)
        ensures
            match state {
                BindStateLoad::Unreadable => r matches DestroyStep::Abort(e) && {
                    &&& e.destroyed@ == self.destroyed_so_far()
                    &&& e.failed_hash == *hash
                    &&& (e.source matches ExecuteError::CmdFailed { cmd, code } && cmd@ == load_state_message(hash.0@) && code is None)
                },
                BindStateLoad::Missing => r is Skip,
                BindStateLoad::Loaded(s) => if has_definition {
                    r matches DestroyStep::Destroy(b) && b.outputs == s.outputs && b.action_results@.len() == 0
                } else {
                    r is Skip
                },
            },
    {
        match state {
            BindStateLoad::Unreadable => {
                let p = "load bind state for ";
                proof {
                    reveal_strlit("load bind state for ");
                }
                DestroyStep::Abort(DestroyPhaseError {
                    destroyed: copy_hashes(&self.destroyed),
                    failed_hash: ObjectHash(hash.0.clone()),
                    source: ExecuteError::CmdFailed { cmd: concat_str(p, hash.0.as_str()), code: None },
                })
            },
            BindStateLoad::Missing => DestroyStep::Skip,
            BindStateLoad::Loaded(s) => {
                if has_definition {
                    DestroyStep::Destroy(BindResult { outputs: s.outputs, action_results: Vec::new() })
                } else {
                    DestroyStep::Skip
                }
            },
        }
    }

    /// Records the outcome of destroying a bind: a success adds it to the
    /// destroyed binds; a failure ends the phase with the binds destroyed
    /// before it.
    pub fn record(&mut self, hash: ObjectHash, outcome: Result<(), ExecuteError>) -> (r: Option<DestroyPhaseError>)
        ensures
            match outcome {
                Ok(_) => r is None && final(self).destroyed_so_far() == old(self).destroyed_so_far().push(hash),
                Err(e) => r matches Some(err) && err.destroyed@ == old(self).destroyed_so_far() && err.failed_hash == hash
                    && err.source == e && final(self).destroyed_so_far() == old(self).destroyed_so_far(),
            },
    {
        match outcome {
            Ok(_) => {
                self.destroyed.push(hash);
                None
            },
            Err(e) => Some(DestroyPhaseError { destroyed: copy_hashes(&self.destroyed), failed_hash: hash, source: e }),
        }
    }

    /// The binds destroyed, in order.
    pub fn into_destroyed(self) -> (r: Vec<ObjectHash>)
        ensures
            r@ == self.destroyed_so_far(),
    {
        self.destroyed
    }
}

/// After a bind was updated and its new state saved, whether the old state is
/// removed: only when the update changed the bind's hash (else the new state
/// was saved in its place).
pub fn removes_old_state(old_hash: &ObjectHash, new_hash: &ObjectHash) -> (r: bool)
    ensures
        r == (old_hash.0@ != new_hash.0@),
{
    !compare_str_eq(old_hash.0.as_str(), new_hash.0.as_str())
}

/// Decides about one bind to update from its old saved state and whether its
/// new definition is known: without the old state (missing or unreadable) the
/// update fails naming the old hash; without the new definition it fails
/// naming the new hash; otherwise the update runs with the old outputs.
pub fn update_step(old_hash: &ObjectHash, new_hash: &ObjectHash, state: BindStateLoad, has_definition: bool) -> (r: Result<BindResult, ApplyError>)
    ensures
        match state {
            BindStateLoad::Loaded(s) => if has_definition {
                r matches Ok(b) && b.outputs == s.outputs && b.action_results@.len() == 0
            } else {
                r matches Err(ApplyError::UpdateFailed { old_hash: o, new_hash: n, source: ExecuteError::CmdFailed { cmd, code } })
                    && o == *old_hash && n == *new_hash && cmd@ == find_definition_message(new_hash.0@) && code is None
            },
            _ => r matches Err(ApplyError::UpdateFailed { old_hash: o, new_hash: n, source: ExecuteError::CmdFailed { cmd, code } })
                && o == *old_hash && n == *new_hash && cmd@ == load_state_message(old_hash.0@) && code is None,
        },
{
    match state {
        BindStateLoad::Loaded(s) => {
            if has_definition {
                Ok(BindResult { outputs: s.outputs, action_results: Vec::new() })
            } else {
                let p = "find bind definition for ";
                proof {
                    reveal_strlit("find bind definition for ");
                }
                Err(ApplyError::UpdateFailed {
                    old_hash: ObjectHash(old_hash.0.clone()),
                    new_hash: ObjectHash(new_hash.0.clone()),
                    source: ExecuteError::CmdFailed { cmd: concat_str(p, new_hash.0.as_str()), code: None },
                })
            }
        },
        _ => {
            let p = "load bind state for ";
            proof {
                reveal_strlit("load bind state for ");
            }
            Err(ApplyError::UpdateFailed {
                old_hash: ObjectHash(old_hash.0.clone()),
                new_hash: ObjectHash(new_hash.0.clone()),
                source: ExecuteError::CmdFailed { cmd: concat_str(p, old_hash.0.as_str()), code: None },
            })
        },
    }
}

/// The binds of a wave to restore after a failed apply: the wave's binds,
/// in order, that were destroyed and that the previous manifest defines.
pub open spec fn restorable(wave: Seq<DagNode>, destroyed: Set<Seq<char>>, defined: Set<Seq<char>>) -> Seq<ObjectHash>
    decreases wave.len(),
{
    if wave.len() == 0 {
        Seq::empty()
    } else {
        let rest = restorable(wave.drop_last(), destroyed, defined);
        match wave.last() {
            DagNode::Bind(h) => if destroyed.contains(h.0@) && defined.contains(h.0@) {
                rest.push(h)
            } else {
                rest
            },
            DagNode::Build(_) => rest,
        }
    }
}

/// Picks the binds of a wave to restore (see `restorable`).
pub fn binds_to_restore(wave: &Vec<DagNode>, destroyed: &StrMap<()>, manifest: &DagManifest) -> (r: Vec<ObjectHash>)
    requires
        destroyed.wf(),
        manifest.wf(),
    ensures
        r@ == restorable(wave@, destroyed@.dom(), manifest.bindings@.dom()),
{
    let mut r: Vec<ObjectHash> = Vec::new();
    let mut i: usize = 0;
    while i < wave.len()
        invariant
            destroyed.wf(),
            manifest.wf(),
            i <= wave@.len(),
            r@ == restorable(wave@.take(i as int), destroyed@.dom(), manifest.bindings@.dom()),
        decreases wave@.len() - i,
    {
        proof {
            assert(wave@.take(i + 1).drop_last() =~= wave@.take(i as int));
            assert(wave@.take(i + 1).last() == wave@[i as int]);
        }
        match &wave[i] {
            DagNode::Bind(h) => {
                if destroyed.contains_key(h.0.as_str()) && manifest.bindings.contains_key(h.0.as_str()) {
                    r.push(ObjectHash(h.0.clone()));
                }
            },
            DagNode::Build(_) => {},
        }
        i = i + 1;
    }
    proof {
        assert(wave@.take(i as int) =~= wave@);
    }
    r
}

/// Whether a failed apply restores the binds it destroyed: when it
/// destroyed some and the previous state is known.
pub fn restores_after_failure(destroyed_count: usize, has_previous_state: bool) -> (b: bool)
    ensures
        b == (destroyed_count > 0 && has_previous_state),
{
    destroyed_count > 0 && has_previous_state
}

/// What becomes of the current-snapshot pointer after a failed apply tried to
/// restore the destroyed binds.
#[derive(Debug, Clone, PartialEq, Eq)]
pub enum SnapshotPointer {
    /// Leave it.
    Keep,
    /// Point it back at the previous snapshot.
    SetCurrent(String),
    /// Clear it, so that the next apply starts afresh.
    Clear,
}

/// A restore that succeeded points the current snapshot back at the previous
/// one (if there was one); one that failed clears the pointer.
pub fn pointer_after_restore(restored: bool, previous_id: Option<String>) -> (r: SnapshotPointer)
    ensures
        r == (if !restored {
            SnapshotPointer::Clear
        } else {
            match previous_id {
                Some(id) => SnapshotPointer::SetCurrent(id),
                None => SnapshotPointer::Keep,
            }
        }),
{
    if !restored {
        SnapshotPointer::Clear
    } else {
        match previous_id {
            Some(id) => SnapshotPointer::SetCurrent(id),
            None => SnapshotPointer::Keep,
        }
    }
}

/// The error of an apply whose execution failed.
pub fn execution_failed() -> (r: ApplyError)
    ensures
        r matches ApplyError::Execute(ExecuteError::CmdFailed { cmd, code }) && cmd@ == "apply"@ && code == Some(1i32),
{
    let c = "apply";
    proof {
        reveal_strlit("apply");
    }
    ApplyError::Execute(ExecuteError::CmdFailed { cmd: c.to_string(), code: Some(1) })
}

/// How a destroy starts, from the current snapshot's bind and build counts.
#[derive(Debug, Clone, Copy, PartialEq, Eq)]
pub enum DestroyPlan {
    /// Done already: report this, clearing the current snapshot if asked.
    Finished { result: DestroyResult, clear_current: bool },
    /// Destroy every bind of the snapshot.
    DestroyAll,
}

/// Without a current snapshot there is nothing to destroy; a snapshot without
/// binds is cleared at once, its builds orphaned; a dry run reports every
/// bind and build without destroying; otherwise every bind is destroyed.
pub fn plan_destroy(current: Option<(usize, usize)>, dry_run: bool) -> (r: DestroyPlan)
    ensures
        r == match current {
            None => DestroyPlan::Finished { result: DestroyResult { binds_destroyed: 0, builds_orphaned: 0 }, clear_current: false },
            Some((binds, builds)) => if binds == 0 {
                DestroyPlan::Finished { result: DestroyResult { binds_destroyed: 0, builds_orphaned: builds }, clear_current: true }
            } else if dry_run {
                DestroyPlan::Finished { result: DestroyResult { binds_destroyed: binds, builds_orphaned: builds }, clear_current: false }
            } else {
                DestroyPlan::DestroyAll
            },
        },
{
    match current {
        None => DestroyPlan::Finished { result: DestroyResult { binds_destroyed: 0, builds_orphaned: 0 }, clear_current: false },
        Some((binds, builds)) => {
            if binds == 0 {
                DestroyPlan::Finished { result: DestroyResult { binds_destroyed: 0, builds_orphaned: builds }, clear_current: true }
            } else if dry_run {
                DestroyPlan::Finished { result: DestroyResult { binds_destroyed: binds, builds_orphaned: builds }, clear_current: false }
            } else {
                DestroyPlan::DestroyAll
            }
        },
    }
}

/// The placeholder of a build's own output directory.
pub open spec fn out_placeholder_text() -> Seq<char> {
    "$${out}"@
}

/// The result of a build already in the store, for resolving the
/// placeholders of binds being restored: each declared output with its
/// output-directory placeholder replaced by the store path, and `out`
/// naming the store path.
pub fn restored_build_result(store_path: &str, declared: Option<&StrMap<String>>) -> (r: BuildResult)
    requires
        declared matches Some(d) ==> d.wf(),
    ensures
        r.store_path@ == store_path@,
        r.outputs.wf(),
        r.outputs@.dom() == (match declared {
            Some(d) => d@.dom(),
            None => Set::<Seq<char>>::empty(),
        }).insert("out"@),
        r.outputs@["out"@]@ == store_path@,
        forall|k: Seq<char>| #[trigger] r.outputs@.dom().contains(k) && k != "out"@ ==> (declared matches Some(d)
            && r.outputs@[k]@ == replaced(d@[k]@, out_placeholder_text(), store_path@)),
        r.action_results@.len() == 0,
{
    let pat = "$${out}";
    let out_key = "out";
    proof {
        reveal_strlit("$${out}");
        reveal_strlit("out");
    }
    let mut outputs: StrMap<String> = StrMap::new();
    match declared {
        Some(d) => {
            proof {
                d.lemma_view();
            }
            let n = d.len();
            let mut i: usize = 0;
            while i < n
                invariant
                    d.wf(),
                    n == d.keys().len(),
                    i <= n,
                    outputs.wf(),
                    pat@ == out_placeholder_text(),
                    pat@.len() > 0,
                    forall|k: Seq<char>| d@.dom().contains(k) <==> d.keys().contains(k),
                    forall|k: Seq<char>| #[trigger] outputs@.dom().contains(k) <==> d.keys().take(i as int).contains(k),
                    forall|k: Seq<char>| #[trigger] outputs@.dom().contains(k) ==> outputs@[k]@ == replaced(d@[k]@, pat@, store_path@),
                decreases n - i,
            {
                let (k, v) = d.entry_at(i);
                let rv = replace_all(v.as_str(), pat, store_path);
                outputs.insert(k.clone(), rv);
                proof {
                    let t0 = d.keys().take(i as int);
                    let t1 = d.keys().take(i + 1);
                    assert forall|x: Seq<char>| #[trigger] outputs@.dom().contains(x) <==> t1.contains(x) by {
                        if t0.contains(x) {
                            let j = choose|j: int| 0 <= j < t0.len() && t0[j] == x;
                            assert(t1[j] == x);
                        }
                        if t1.contains(x) {
                            let j = choose|j: int| 0 <= j < t1.len() && t1[j] == x;
                            if j < i {
                                assert(t0[j] == x);
                            }
                        }
                        assert(t1[i as int] == k@);
                    }
                }
                i = i + 1;
            }
            proof {
                assert(d.keys().take(n as int) =~= d.keys());
            }
        },
        None => {},
    }
    outputs.insert(out_key.to_string(), store_path.to_string());
    BuildResult { store_path: store_path.to_string(), outputs, action_results: Vec::new() }
}

} // verus!
