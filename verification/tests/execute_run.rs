use syslua_lib::execute::apply::restored_build_result;
use syslua_lib::execute::dag::{DagManifest, ExecutionDag};
use syslua_lib::execute::resolver::BindCtxResolver;
use syslua_lib::execute::run::ExecutionRun;
use syslua_lib::execute::types::{BindResult, BuildResult, DagResult, ExecuteError, FailedDependency};
use syslua_lib::hash::ObjectHash;
use syslua_lib::inputs::refs::InputsRef;
use syslua_lib::strmap::StrMap;

fn hash(s: &str) -> ObjectHash {
    ObjectHash(s.to_string())
}

fn manifest() -> DagManifest {
    DagManifest { builds: StrMap::new(), bindings: StrMap::new() }
}

fn failure() -> ExecuteError {
    ExecuteError::CmdFailed { cmd: "exit 1".to_string(), code: Some(1) }
}

fn built(h: &ObjectHash) -> BuildResult {
    BuildResult { store_path: format!("/store/build/{}", h.0), outputs: StrMap::new(), action_results: vec![] }
}

fn applied() -> BindResult {
    BindResult { outputs: StrMap::new(), action_results: vec![] }
}

/// Runs a manifest, every node succeeding but those listed as failing.
/// Returns what was recorded, the binds handed back for rollback, and the
/// waves as they were planned.
fn simulate(m: &DagManifest, builds_only: bool, failing: &[&str]) -> (DagResult, Vec<ObjectHash>, Vec<(Vec<ObjectHash>, Vec<ObjectHash>)>) {
    let dag = ExecutionDag::from_manifest(m).unwrap();
    let mut run = if builds_only {
        ExecutionRun::builds_only(&dag).unwrap()
    } else {
        ExecutionRun::for_manifest(&dag).unwrap()
    };
    let mut rollback = Vec::new();
    let mut plans = Vec::new();
    while let Some(plan) = run.plan_next_wave(&dag) {
        plans.push((plan.builds.clone(), plan.binds.clone()));
        let results: Vec<(ObjectHash, Result<BuildResult, ExecuteError>)> = plan
            .builds
            .iter()
            .map(|h| (h.clone(), if failing.contains(&h.0.as_str()) { Err(failure()) } else { Ok(built(h)) }))
            .collect();
        if let Some(rb) = run.finish_builds(results) {
            rollback = rb;
            continue;
        }
        let results: Vec<(ObjectHash, Result<BindResult, ExecuteError>)> = plan
            .binds
            .iter()
            .map(|h| (h.clone(), if failing.contains(&h.0.as_str()) { Err(failure()) } else { Ok(applied()) }))
            .collect();
        if let Some(rb) = run.finish_binds(results) {
            rollback = rb;
        }
    }
    assert!(run.is_finished());
    (run.into_result(), rollback, plans)
}

#[test]
fn execute_empty_manifest() {
    let (result, _, _) = simulate(&manifest(), true, &[]);
    assert!(result.is_success());
    assert_eq!(result.total(), 0);
}

#[test]
fn execute_single_independent_build() {
    let mut m = manifest();
    m.builds.insert("test".to_string(), None);
    let (result, _, _) = simulate(&m, true, &[]);
    assert!(result.is_success());
    assert_eq!(result.realized.len(), 1);
    assert!(result.realized.contains_key("test"));
}

#[test]
fn execute_parallel_independent_builds() {
    let mut m = manifest();
    m.builds.insert("a".to_string(), None);
    m.builds.insert("b".to_string(), None);
    m.builds.insert("c".to_string(), None);
    let (result, _, plans) = simulate(&m, true, &[]);
    assert!(result.is_success());
    assert_eq!(result.realized.len(), 3);
    // all three run in one wave
    assert_eq!(plans.len(), 1);
    assert_eq!(plans[0].0.len(), 3);
}

#[test]
fn execute_dependent_builds() {
    let mut m = manifest();
    m.builds.insert("a".to_string(), None);
    m.builds.insert("b".to_string(), Some(InputsRef::Build(hash("a"))));
    let (result, _, plans) = simulate(&m, true, &[]);
    assert!(result.is_success());
    assert_eq!(result.realized.len(), 2);
    assert!(result.realized.contains_key("a"));
    assert!(result.realized.contains_key("b"));
    assert_eq!(plans, vec![(vec![hash("a")], vec![]), (vec![hash("b")], vec![])]);
}

#[test]
fn execute_failing_build() {
    let mut m = manifest();
    m.builds.insert("failing".to_string(), None);
    let (result, rollback, _) = simulate(&m, true, &["failing"]);
    assert!(!result.is_success());
    assert!(result.build_failed.is_some());
    let (failed_hash, _) = result.build_failed.as_ref().unwrap();
    assert_eq!(failed_hash, &hash("failing"));
    assert!(rollback.is_empty());
}

#[test]
fn execute_skip_dependent_on_failure() {
    let mut m = manifest();
    m.builds.insert("a".to_string(), None);
    m.builds.insert("b".to_string(), Some(InputsRef::Build(hash("a"))));
    let (result, _, _) = simulate(&m, true, &["a"]);
    assert!(!result.is_success());
    assert!(result.build_failed.is_some());
    assert_eq!(result.build_skipped.len(), 1);
    let (failed_hash, _) = result.build_failed.as_ref().unwrap();
    assert_eq!(failed_hash, &hash("a"));
    assert!(result.build_skipped.contains_key("b"));
    assert_eq!(result.build_skipped.get("b"), Some(&FailedDependency::Build(hash("a"))));
}

#[test]
fn execute_builds_only_keeps_going_after_a_failure() {
    // a fails, c is independent and still realized; d depends on b which
    // depends on a: both skipped, d for b
    let mut m = manifest();
    m.builds.insert("a".to_string(), None);
    m.builds.insert("b".to_string(), Some(InputsRef::Build(hash("a"))));
    m.builds.insert("c".to_string(), None);
    m.builds.insert("d".to_string(), Some(InputsRef::Build(hash("b"))));
    let (result, _, _) = simulate(&m, true, &["a"]);
    assert!(result.realized.contains_key("c"));
    assert_eq!(result.build_skipped.get("b"), Some(&FailedDependency::Build(hash("a"))));
    assert_eq!(result.build_skipped.get("d"), Some(&FailedDependency::Build(hash("b"))));
    assert_eq!(result.build_total(), 4);
}

#[test]
fn execute_diamond_dependency() {
    let mut m = manifest();
    m.builds.insert("a".to_string(), None);
    m.builds.insert("b".to_string(), Some(InputsRef::Build(hash("a"))));
    m.builds.insert("c".to_string(), Some(InputsRef::Build(hash("a"))));
    m.builds.insert(
        "d".to_string(),
        Some(InputsRef::Table(vec![
            ("b".to_string(), InputsRef::Build(hash("b"))),
            ("c".to_string(), InputsRef::Build(hash("c"))),
        ])),
    );
    let (result, _, _) = simulate(&m, true, &[]);
    assert!(result.is_success());
    assert_eq!(result.realized.len(), 4);
}

#[test]
fn manifest_bind_after_build() {
    let mut m = manifest();
    m.builds.insert("app".to_string(), None);
    m.bindings.insert("link".to_string(), Some(InputsRef::Build(hash("app"))));
    let (result, _, plans) = simulate(&m, false, &[]);
    assert!(result.is_success());
    assert_eq!(result.realized.len(), 1);
    assert_eq!(result.applied.len(), 1);
    assert!(result.realized.contains_key("app"));
    assert!(result.applied.contains_key("link"));
    assert_eq!(plans, vec![(vec![hash("app")], vec![]), (vec![], vec![hash("link")])]);
}

#[test]
fn manifest_bind_chain() {
    let mut m = manifest();
    m.bindings.insert("a".to_string(), None);
    m.bindings.insert("b".to_string(), Some(InputsRef::Bind(hash("a"))));
    m.bindings.insert("c".to_string(), Some(InputsRef::Bind(hash("b"))));
    let (result, _, _) = simulate(&m, false, &[]);
    assert!(result.is_success());
    assert_eq!(result.applied.len(), 3);
    assert!(result.applied.contains_key("a"));
    assert!(result.applied.contains_key("b"));
    assert!(result.applied.contains_key("c"));
}

#[test]
fn manifest_bind_placeholder_resolution() {
    // the build declares `bin` under its output directory; the bind reads it
    let mut m = manifest();
    m.builds.insert("provider".to_string(), None);
    m.bindings.insert("user".to_string(), Some(InputsRef::Build(hash("provider"))));
    let dag = ExecutionDag::from_manifest(&m).unwrap();
    let mut run = ExecutionRun::for_manifest(&dag).unwrap();

    let mut declared: StrMap<String> = StrMap::new();
    declared.insert("bin".to_string(), "$${out}/bin".to_string());

    let plan = run.plan_next_wave(&dag).unwrap();
    assert_eq!(plan.builds, vec![hash("provider")]);
    let result = restored_build_result("/store/build/provider", Some(&declared));
    assert!(run.finish_builds(vec![(hash("provider"), Ok(result))]).is_none());
    assert!(run.finish_binds(vec![]).is_none());

    let plan = run.plan_next_wave(&dag).unwrap();
    assert_eq!(plan.binds, vec![hash("user")]);
    let binds: StrMap<BindResult> = StrMap::new();
    let resolver = BindCtxResolver::new(&run.result().realized, &binds, &m, "/tmp".to_string(), "/store".to_string());
    let resolved = resolver.resolve_build("provider", "bin").unwrap();
    assert_eq!(resolved, "/store/build/provider/bin");
    assert!(run.finish_binds(vec![(hash("user"), Ok(applied()))]).is_none());
    assert!(run.plan_next_wave(&dag).is_none());

    let result = run.into_result();
    assert!(result.is_success());
    assert_eq!(result.realized.len(), 1);
    assert_eq!(result.applied.len(), 1);
    let build_result = result.realized.get("provider").unwrap();
    assert!(build_result.outputs.contains_key("bin"));
    assert!(build_result.outputs.get("bin").unwrap().ends_with("/bin"));
}

#[test]
fn manifest_bind_failure_rollback() {
    let mut m = manifest();
    m.bindings.insert("bind_a".to_string(), None);
    m.bindings.insert("bind_b".to_string(), Some(InputsRef::Bind(hash("bind_a"))));
    let (result, rollback, _) = simulate(&m, false, &["bind_b"]);
    assert!(!result.is_success());
    assert!(result.bind_failed.is_some());
    let (failed_hash, _) = result.bind_failed.as_ref().unwrap();
    assert_eq!(failed_hash, &hash("bind_b"));
    assert!(result.applied.contains_key("bind_a"));
    // bind_a is destroyed by the rollback
    assert_eq!(rollback, vec![hash("bind_a")]);
}

#[test]
fn rollback_runs_in_reverse_order_of_application() {
    let mut m = manifest();
    m.bindings.insert("first".to_string(), None);
    m.bindings.insert("second".to_string(), Some(InputsRef::Bind(hash("first"))));
    m.bindings.insert("third".to_string(), Some(InputsRef::Bind(hash("second"))));
    m.bindings.insert("fourth".to_string(), Some(InputsRef::Bind(hash("third"))));
    let (result, rollback, _) = simulate(&m, false, &["fourth"]);
    assert_eq!(rollback, vec![hash("third"), hash("second"), hash("first")]);
    assert_eq!(result.applied.len(), 3);
}

#[test]
fn manifest_build_failure_skips_binds() {
    let mut m = manifest();
    m.builds.insert("failing-build".to_string(), None);
    m.bindings.insert("bind".to_string(), Some(InputsRef::Build(hash("failing-build"))));
    let (result, rollback, plans) = simulate(&m, false, &["failing-build"]);
    assert!(!result.is_success());
    assert!(result.build_failed.is_some());
    let (failed_hash, _) = result.build_failed.as_ref().unwrap();
    assert_eq!(failed_hash, &hash("failing-build"));
    assert!(result.applied.is_empty());
    assert!(rollback.is_empty());
    // nothing runs after the failure, but the dependent bind is recorded as skipped
    assert_eq!(plans.len(), 2);
    assert_eq!(plans[1], (vec![], vec![]));
    assert_eq!(result.bind_skipped.get("bind"), Some(&FailedDependency::Build(hash("failing-build"))));
}

#[test]
fn build_failure_rolls_back_binds_of_earlier_waves() {
    // wave 0: bind x and build a; wave 1: build b (depends on a), which fails
    let mut m = manifest();
    m.builds.insert("a".to_string(), None);
    m.builds.insert("b".to_string(), Some(InputsRef::Build(hash("a"))));
    m.bindings.insert("x".to_string(), None);
    let (result, rollback, _) = simulate(&m, false, &["b"]);
    assert!(result.applied.contains_key("x"));
    assert_eq!(rollback, vec![hash("x")]);
    assert!(result.build_failed.is_some());
}

#[test]
fn manifest_mixed_wave_execution() {
    let mut m = manifest();
    m.builds.insert("a".to_string(), None);
    m.builds.insert("b".to_string(), Some(InputsRef::Build(hash("a"))));
    m.bindings.insert("x".to_string(), None);
    m.bindings.insert("y".to_string(), Some(InputsRef::Bind(hash("x"))));
    let (result, _, plans) = simulate(&m, false, &[]);
    assert!(result.is_success());
    assert_eq!(result.realized.len(), 2);
    assert_eq!(result.applied.len(), 2);
    assert!(result.realized.contains_key("a"));
    assert!(result.realized.contains_key("b"));
    assert!(result.applied.contains_key("x"));
    assert!(result.applied.contains_key("y"));
    assert_eq!(plans[0], (vec![hash("a")], vec![hash("x")]));
    assert_eq!(plans[1], (vec![hash("b")], vec![hash("y")]));
}

#[test]
fn manifest_empty() {
    let (result, _, _) = simulate(&manifest(), false, &[]);
    assert!(result.is_success());
    assert_eq!(result.build_total(), 0);
    assert_eq!(result.bind_total(), 0);
    assert_eq!(result.total(), 0);
}

#[test]
fn manifest_only_binds() {
    let mut m = manifest();
    m.bindings.insert("a".to_string(), None);
    m.bindings.insert("b".to_string(), None);
    let (result, _, _) = simulate(&m, false, &[]);
    assert!(result.is_success());
    assert_eq!(result.realized.len(), 0);
    assert_eq!(result.applied.len(), 2);
}

#[test]
fn stopped_run_plans_nothing_more() {
    let mut m = manifest();
    m.builds.insert("a".to_string(), None);
    m.builds.insert("b".to_string(), Some(InputsRef::Build(hash("a"))));
    let dag = ExecutionDag::from_manifest(&m).unwrap();
    let mut run = ExecutionRun::for_manifest(&dag).unwrap();
    let plan = run.plan_next_wave(&dag).unwrap();
    assert_eq!(plan.builds, vec![hash("a")]);
    assert_eq!(run.finish_builds(vec![(hash("a"), Err(failure()))]), Some(vec![]));
    assert!(run.stopped());
    assert!(!run.is_finished());
    // the next wave runs nothing, and records b as skipped for a
    let plan = run.plan_next_wave(&dag).unwrap();
    assert!(plan.builds.is_empty() && plan.binds.is_empty());
    assert_eq!(run.result().build_skipped.get("b"), Some(&FailedDependency::Build(hash("a"))));
    assert!(run.is_finished());
    assert!(run.plan_next_wave(&dag).is_none());
}

#[test]
fn same_wave_successes_after_a_failure_are_rolled_back() {
    // one wave of three binds; the middle one fails
    let mut m = manifest();
    m.bindings.insert("a".to_string(), None);
    m.bindings.insert("b".to_string(), None);
    m.bindings.insert("c".to_string(), None);
    let (result, rollback, _) = simulate(&m, false, &["b"]);
    assert!(result.applied.contains_key("a"));
    assert!(result.applied.contains_key("c"));
    assert_eq!(result.bind_failed.as_ref().unwrap().0, hash("b"));
    assert_eq!(rollback, vec![hash("c"), hash("a")]);
}

#[test]
fn dependents_in_later_waves_are_skipped_after_a_stop() {
    // a fails; b depends on a, c on b: both are recorded as skipped, d (independent, later wave) does not run
    let mut m = manifest();
    m.builds.insert("a".to_string(), None);
    m.builds.insert("b".to_string(), Some(InputsRef::Build(hash("a"))));
    m.builds.insert("c".to_string(), Some(InputsRef::Build(hash("b"))));
    m.builds.insert("e".to_string(), None);
    m.builds.insert("d".to_string(), Some(InputsRef::Build(hash("e"))));
    let (result, _, _) = simulate(&m, false, &["a"]);
    assert_eq!(result.build_skipped.get("b"), Some(&FailedDependency::Build(hash("a"))));
    assert_eq!(result.build_skipped.get("c"), Some(&FailedDependency::Build(hash("b"))));
    assert!(!result.realized.contains_key("d"));
    assert!(!result.build_skipped.contains_key("d"));
    assert!(result.realized.contains_key("e"));
}
