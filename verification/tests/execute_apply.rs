use syslua_lib::bind::state::BindState;
use syslua_lib::execute::apply::{
    apply_start, binds_to_restore, build_execution_manifest, copy_hashes, execution_failed, plan_destroy,
    pointer_after_restore, removes_old_state, restored_build_result, restores_after_failure, update_step, ApplyError, ApplyStart,
    BindStateLoad, DestroyPhase, DestroyPlan, DestroyResult, DestroyStep, SnapshotPointer,
};
use syslua_lib::execute::dag::{DagManifest, DagNode};
use syslua_lib::execute::types::ExecuteError;
use syslua_lib::hash::ObjectHash;
use syslua_lib::inputs::refs::InputsRef;
use syslua_lib::strmap::StrMap;

fn hash(s: &str) -> ObjectHash {
    ObjectHash(s.to_string())
}

fn state(link: &str) -> BindState {
    let mut outputs = StrMap::new();
    outputs.insert("link".to_string(), link.to_string());
    BindState { outputs }
}

#[test]
fn build_execution_manifest_filters_correctly() {
    let mut desired = DagManifest { builds: StrMap::new(), bindings: StrMap::new() };
    desired.builds.insert("cached".to_string(), None);
    desired.builds.insert("new".to_string(), None);
    desired.bindings.insert("new_bind".to_string(), None);
    desired.bindings.insert("unchanged_bind".to_string(), Some(InputsRef::Boolean(true)));

    let exec_manifest =
        build_execution_manifest(desired, &vec![hash("new")], &vec![hash("cached")], &vec![hash("new_bind")]);

    assert_eq!(exec_manifest.builds.len(), 2);
    assert!(exec_manifest.builds.contains_key("new"));
    assert!(exec_manifest.builds.contains_key("cached"));

    assert_eq!(exec_manifest.bindings.len(), 1);
    assert!(exec_manifest.bindings.contains_key("new_bind"));
    assert!(!exec_manifest.bindings.contains_key("unchanged_bind"));
}

#[test]
fn build_execution_manifest_keeps_entries_and_ignores_unknown_hashes() {
    let mut desired = DagManifest { builds: StrMap::new(), bindings: StrMap::new() };
    desired.builds.insert("b".to_string(), Some(InputsRef::String("x".to_string())));
    let exec_manifest = build_execution_manifest(desired, &vec![hash("b"), hash("missing")], &vec![hash("b")], &vec![]);
    assert_eq!(exec_manifest.builds.len(), 1);
    assert_eq!(exec_manifest.builds.get("b"), Some(&Some(InputsRef::String("x".to_string()))));
    assert!(exec_manifest.bindings.is_empty());
}

#[test]
fn build_restore_resolver_data_computes_build_paths() {
    let result = restored_build_result("/store/build/build123", None);
    assert_eq!(result.store_path, "/store/build/build123");
    assert!(result.outputs.contains_key("out"));
    assert_eq!(result.outputs.get("out").unwrap(), "/store/build/build123");
    assert_eq!(result.outputs.len(), 1);
}

#[test]
fn restored_build_outputs_replace_the_output_directory() {
    let mut declared = StrMap::new();
    declared.insert("bin".to_string(), "$${out}/bin".to_string());
    declared.insert("both".to_string(), "$${out}:$${out}".to_string());
    declared.insert("plain".to_string(), "/usr/bin".to_string());
    let result = restored_build_result("/s/b/h", Some(&declared));
    assert_eq!(result.outputs.get("bin").unwrap(), "/s/b/h/bin");
    assert_eq!(result.outputs.get("both").unwrap(), "/s/b/h:/s/b/h");
    assert_eq!(result.outputs.get("plain").unwrap(), "/usr/bin");
    assert_eq!(result.outputs.get("out").unwrap(), "/s/b/h");
    assert!(result.action_results.is_empty());
}

#[test]
fn apply_start_decisions() {
    assert_eq!(apply_start(true, true), ApplyStart::Unchanged);
    assert_eq!(apply_start(true, false), ApplyStart::Unchanged);
    assert_eq!(apply_start(false, true), ApplyStart::DryRun);
    assert_eq!(apply_start(false, false), ApplyStart::Proceed);
}

#[test]
fn destroy_removed_binds_returns_empty_vec_for_empty_input() {
    let phase = DestroyPhase::new();
    assert!(phase.into_destroyed().is_empty());
}

#[test]
fn destroy_removed_binds_skips_binds_without_state() {
    let phase = DestroyPhase::new();
    assert!(matches!(phase.step(&hash("a"), BindStateLoad::Missing, true), DestroyStep::Skip));
    assert!(phase.into_destroyed().is_empty());
}

#[test]
fn destroy_removed_binds_skips_binds_without_definition() {
    let phase = DestroyPhase::new();
    assert!(matches!(phase.step(&hash("a"), BindStateLoad::Loaded(state("/x")), false), DestroyStep::Skip));
}

#[test]
fn destroy_phase_records_and_reports_partial_progress() {
    let mut phase = DestroyPhase::new();
    match phase.step(&hash("a"), BindStateLoad::Loaded(state("/x")), true) {
        DestroyStep::Destroy(r) => {
            assert_eq!(r.outputs.get("link").unwrap(), "/x");
            assert!(r.action_results.is_empty());
        },
        _ => panic!("expected a destroy"),
    }
    assert!(phase.record(hash("a"), Ok(())).is_none());
    match phase.step(&hash("b"), BindStateLoad::Unreadable, true) {
        DestroyStep::Abort(e) => {
            assert_eq!(e.destroyed, vec![hash("a")]);
            assert_eq!(e.failed_hash, hash("b"));
            match e.source {
                ExecuteError::CmdFailed { cmd, code } => {
                    assert_eq!(cmd, "load bind state for b");
                    assert_eq!(code, None);
                },
                _ => panic!("expected a command failure"),
            }
        },
        _ => panic!("expected an abort"),
    }
    let err = phase
        .record(hash("c"), Err(ExecuteError::CmdFailed { cmd: "rm".to_string(), code: Some(2) }))
        .unwrap();
    assert_eq!(err.destroyed, vec![hash("a")]);
    assert_eq!(err.failed_hash, hash("c"));
    assert_eq!(phase.into_destroyed(), vec![hash("a")]);
}

#[test]
fn update_modified_binds_fails_without_old_state() {
    match update_step(&hash("old"), &hash("new"), BindStateLoad::Missing, true) {
        Err(ApplyError::UpdateFailed { old_hash, new_hash, source: ExecuteError::CmdFailed { cmd, code } }) => {
            assert_eq!(old_hash, hash("old"));
            assert_eq!(new_hash, hash("new"));
            assert_eq!(cmd, "load bind state for old");
            assert_eq!(code, None);
        },
        _ => panic!("expected an update failure"),
    }
    assert!(matches!(
        update_step(&hash("old"), &hash("new"), BindStateLoad::Unreadable, true),
        Err(ApplyError::UpdateFailed { .. })
    ));
}

#[test]
fn update_modified_binds_fails_without_new_bind_def() {
    match update_step(&hash("old"), &hash("new"), BindStateLoad::Loaded(state("/x")), false) {
        Err(ApplyError::UpdateFailed { source: ExecuteError::CmdFailed { cmd, .. }, .. }) => {
            assert_eq!(cmd, "find bind definition for new");
        },
        _ => panic!("expected an update failure"),
    }
    match update_step(&hash("old"), &hash("new"), BindStateLoad::Loaded(state("/x")), true) {
        Ok(r) => assert_eq!(r.outputs.get("link").unwrap(), "/x"),
        _ => panic!("expected the old outputs"),
    }
}

#[test]
fn restore_destroyed_binds_picks_destroyed_defined_binds_in_wave_order() {
    let wave = vec![
        DagNode::Bind(hash("z")),
        DagNode::Build(hash("a")),
        DagNode::Bind(hash("kept")),
        DagNode::Bind(hash("b")),
        DagNode::Bind(hash("undefined")),
    ];
    let mut destroyed: StrMap<()> = StrMap::new();
    destroyed.insert("z".to_string(), ());
    destroyed.insert("b".to_string(), ());
    destroyed.insert("a".to_string(), ());
    destroyed.insert("undefined".to_string(), ());
    let mut m = DagManifest { builds: StrMap::new(), bindings: StrMap::new() };
    m.builds.insert("a".to_string(), None);
    m.bindings.insert("z".to_string(), None);
    m.bindings.insert("kept".to_string(), None);
    m.bindings.insert("b".to_string(), None);
    assert_eq!(binds_to_restore(&wave, &destroyed, &m), vec![hash("z"), hash("b")]);
}

#[test]
fn restore_destroyed_binds_handles_empty_list() {
    assert!(!restores_after_failure(0, true));
    assert!(!restores_after_failure(2, false));
    assert!(restores_after_failure(2, true));
}

#[test]
fn snapshot_pointer_after_restore() {
    assert_eq!(pointer_after_restore(true, Some("s1".to_string())), SnapshotPointer::SetCurrent("s1".to_string()));
    assert_eq!(pointer_after_restore(true, None), SnapshotPointer::Keep);
    assert_eq!(pointer_after_restore(false, Some("s1".to_string())), SnapshotPointer::Clear);
}

#[test]
fn execution_failure_error() {
    match execution_failed() {
        ApplyError::Execute(ExecuteError::CmdFailed { cmd, code }) => {
            assert_eq!(cmd, "apply");
            assert_eq!(code, Some(1));
        },
        _ => panic!("expected an execution error"),
    }
}

#[test]
fn destroy_plan_decisions() {
    assert_eq!(
        plan_destroy(None, false),
        DestroyPlan::Finished { result: DestroyResult { binds_destroyed: 0, builds_orphaned: 0 }, clear_current: false }
    );
    assert_eq!(
        plan_destroy(Some((0, 3)), false),
        DestroyPlan::Finished { result: DestroyResult { binds_destroyed: 0, builds_orphaned: 3 }, clear_current: true }
    );
    assert_eq!(
        plan_destroy(Some((2, 3)), true),
        DestroyPlan::Finished { result: DestroyResult { binds_destroyed: 2, builds_orphaned: 3 }, clear_current: false }
    );
    assert_eq!(plan_destroy(Some((2, 3)), false), DestroyPlan::DestroyAll);
}

#[test]
fn copied_hashes_are_equal() {
    let v = vec![hash("a"), hash("b")];
    assert_eq!(copy_hashes(&v), v);
}

#[test]
fn old_bind_state_is_removed_only_when_the_hash_changed() {
    let a = ObjectHash("aaa".to_string());
    let b = ObjectHash("bbb".to_string());
    assert!(removes_old_state(&a, &b));
    assert!(!removes_old_state(&a, &ObjectHash("aaa".to_string())));
}
