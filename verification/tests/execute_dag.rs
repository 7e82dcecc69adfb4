use syslua_lib::execute::dag::{find_failed_dependency, DagManifest, DagNode, ExecutionDag};
use syslua_lib::execute::types::{ExecuteError, FailedDependency};
use syslua_lib::hash::ObjectHash;
use syslua_lib::inputs::refs::InputsRef;
use syslua_lib::strmap::StrMap;

fn hash(s: &str) -> ObjectHash {
    ObjectHash(s.to_string())
}

fn manifest() -> DagManifest {
    DagManifest { builds: StrMap::new(), bindings: StrMap::new() }
}

fn add_build(m: &mut DagManifest, h: &ObjectHash, inputs: Option<InputsRef>) {
    m.builds.insert(h.0.clone(), inputs);
}

fn add_bind(m: &mut DagManifest, h: &ObjectHash, inputs: Option<InputsRef>) {
    m.bindings.insert(h.0.clone(), inputs);
}

fn position(v: &[ObjectHash], h: &ObjectHash) -> usize {
    v.iter().position(|x| x == h).unwrap()
}

#[test]
fn empty_manifest() {
    let m = manifest();
    let dag = ExecutionDag::from_manifest(&m).unwrap();

    assert_eq!(dag.build_count(), 0);
    assert!(dag.topological_builds().unwrap().is_empty());
    assert!(dag.build_waves().unwrap().is_empty());
}

#[test]
fn single_build_no_deps() {
    let h = hash("test");
    let mut m = manifest();
    add_build(&mut m, &h, None);

    let dag = ExecutionDag::from_manifest(&m).unwrap();

    assert_eq!(dag.build_count(), 1);
    assert!(!dag.has_dependencies(&h));

    let topo = dag.topological_builds().unwrap();
    assert_eq!(topo, vec![h.clone()]);

    let waves = dag.build_waves().unwrap();
    assert_eq!(waves.len(), 1);
    assert_eq!(waves[0], vec![h]);
}

#[test]
fn linear_dependency_chain() {
    let a = hash("a1");
    let b = hash("b2");
    let c = hash("c3");
    let mut m = manifest();
    add_build(&mut m, &a, None);
    add_build(&mut m, &b, Some(InputsRef::Build(a.clone())));
    add_build(&mut m, &c, Some(InputsRef::Build(b.clone())));

    let dag = ExecutionDag::from_manifest(&m).unwrap();

    assert!(!dag.has_dependencies(&a));
    assert!(dag.has_dependencies(&b));
    assert!(dag.has_dependencies(&c));

    assert_eq!(dag.build_dependencies(&b), vec![a.clone()]);
    assert_eq!(dag.build_dependencies(&c), vec![b.clone()]);

    let topo = dag.topological_builds().unwrap();
    assert!(position(&topo, &a) < position(&topo, &b));
    assert!(position(&topo, &b) < position(&topo, &c));

    let waves = dag.build_waves().unwrap();
    assert_eq!(waves.len(), 3);
    assert_eq!(waves[0], vec![a]);
    assert_eq!(waves[1], vec![b]);
    assert_eq!(waves[2], vec![c]);
}

#[test]
fn linear_chain_declared_in_reverse_hash_order() {
    // the dependent sorts before its dependency
    let a = hash("zz");
    let b = hash("mm");
    let c = hash("aa");
    let mut m = manifest();
    add_build(&mut m, &a, None);
    add_build(&mut m, &b, Some(InputsRef::Build(a.clone())));
    add_build(&mut m, &c, Some(InputsRef::Build(b.clone())));

    let dag = ExecutionDag::from_manifest(&m).unwrap();
    let topo = dag.topological_builds().unwrap();
    assert_eq!(topo, vec![a.clone(), b.clone(), c.clone()]);
    let waves = dag.build_waves().unwrap();
    assert_eq!(waves, vec![vec![a], vec![b], vec![c]]);
}

#[test]
fn diamond_dependency() {
    let a = hash("a");
    let b = hash("b");
    let c = hash("c");
    let d = hash("d");
    let mut m = manifest();
    add_build(&mut m, &a, None);
    add_build(&mut m, &b, Some(InputsRef::Build(a.clone())));
    add_build(&mut m, &c, Some(InputsRef::Build(a.clone())));
    add_build(
        &mut m,
        &d,
        Some(InputsRef::Table(vec![
            ("b".to_string(), InputsRef::Build(b.clone())),
            ("c".to_string(), InputsRef::Build(c.clone())),
        ])),
    );

    let dag = ExecutionDag::from_manifest(&m).unwrap();

    let topo = dag.topological_builds().unwrap();
    assert!(position(&topo, &a) < position(&topo, &b));
    assert!(position(&topo, &a) < position(&topo, &c));
    assert!(position(&topo, &b) < position(&topo, &d));
    assert!(position(&topo, &c) < position(&topo, &d));

    let waves = dag.build_waves().unwrap();
    assert_eq!(waves.len(), 3);

    assert_eq!(waves[0].len(), 1);
    assert!(waves[0].contains(&a));

    assert_eq!(waves[1].len(), 2);
    assert!(waves[1].contains(&b));
    assert!(waves[1].contains(&c));

    assert_eq!(waves[2].len(), 1);
    assert!(waves[2].contains(&d));
}

#[test]
fn parallel_independent_builds() {
    let mut m = manifest();
    add_build(&mut m, &hash("a"), None);
    add_build(&mut m, &hash("b"), None);
    add_build(&mut m, &hash("c"), None);

    let dag = ExecutionDag::from_manifest(&m).unwrap();

    let waves = dag.build_waves().unwrap();
    assert_eq!(waves.len(), 1);
    assert_eq!(waves[0].len(), 3);
}

#[test]
fn nested_inputs_dependencies() {
    let a = hash("a");
    let b = hash("b");
    let c = hash("c");
    let mut m = manifest();
    add_build(&mut m, &a, None);
    add_build(&mut m, &b, None);
    add_build(
        &mut m,
        &c,
        Some(InputsRef::Table(vec![
            ("dep".to_string(), InputsRef::Build(a.clone())),
            ("nested".to_string(), InputsRef::Array(vec![InputsRef::Build(b.clone())])),
        ])),
    );

    let dag = ExecutionDag::from_manifest(&m).unwrap();

    let deps = dag.build_dependencies(&c);
    assert_eq!(deps.len(), 2);
    assert!(deps.contains(&a));
    assert!(deps.contains(&b));
}

#[test]
fn dependency_outside_manifest_is_ignored() {
    let a = hash("a");
    let mut m = manifest();
    add_build(&mut m, &a, Some(InputsRef::Build(hash("elsewhere"))));
    let dag = ExecutionDag::from_manifest(&m).unwrap();
    assert!(!dag.has_dependencies(&a));
    assert!(dag.build_dependencies(&hash("elsewhere")).is_empty());
}

#[test]
fn build_with_bind_reference_is_refused() {
    let mut m = manifest();
    add_bind(&mut m, &hash("bind1"), None);
    add_build(&mut m, &hash("b1"), None);
    add_build(
        &mut m,
        &hash("b2"),
        Some(InputsRef::Array(vec![InputsRef::String("x".to_string()), InputsRef::Bind(hash("bind1"))])),
    );
    match ExecutionDag::from_manifest(&m) {
        Err(ExecuteError::InvalidManifest(msg)) => {
            assert_eq!(msg, "build b2 has bind references in inputs: builds cannot depend on binds");
        },
        _ => panic!("expected an invalid manifest"),
    }
}

#[test]
fn bind_count_and_all_binds() {
    let a = hash("bind_a");
    let b = hash("bind_b");
    let mut m = manifest();
    add_bind(&mut m, &a, None);
    add_bind(&mut m, &b, Some(InputsRef::String("different".to_string())));

    let dag = ExecutionDag::from_manifest(&m).unwrap();

    assert_eq!(dag.bind_count(), 2);

    let all = dag.all_binds();
    assert_eq!(all.len(), 2);
    assert!(all.contains(&a));
    assert!(all.contains(&b));
}

#[test]
fn bind_depends_on_build() {
    let build_hash = hash("dep");
    let bind_hash = hash("bind");
    let mut m = manifest();
    add_build(&mut m, &build_hash, None);
    add_bind(&mut m, &bind_hash, Some(InputsRef::Build(build_hash.clone())));

    let dag = ExecutionDag::from_manifest(&m).unwrap();

    let build_deps = dag.bind_build_dependencies(&bind_hash);
    assert_eq!(build_deps, vec![build_hash]);

    let bind_deps = dag.bind_bind_dependencies(&bind_hash);
    assert!(bind_deps.is_empty());
}

#[test]
fn bind_depends_on_bind() {
    let a = hash("bind_a");
    let b = hash("bind_b");
    let mut m = manifest();
    add_bind(&mut m, &a, None);
    add_bind(&mut m, &b, Some(InputsRef::Bind(a.clone())));

    let dag = ExecutionDag::from_manifest(&m).unwrap();

    let build_deps = dag.bind_build_dependencies(&b);
    assert!(build_deps.is_empty());

    let bind_deps = dag.bind_bind_dependencies(&b);
    assert_eq!(bind_deps, vec![a]);
}

#[test]
fn execution_waves_with_builds_only() {
    let a = hash("a");
    let b = hash("b");
    let c = hash("c");
    let mut m = manifest();
    add_build(&mut m, &a, None);
    add_build(&mut m, &b, Some(InputsRef::Build(a.clone())));
    add_build(&mut m, &c, Some(InputsRef::Build(b.clone())));

    let dag = ExecutionDag::from_manifest(&m).unwrap();
    let waves = dag.execution_waves().unwrap();

    assert_eq!(waves.len(), 3);
    assert_eq!(waves[0], vec![DagNode::Build(a)]);
    assert_eq!(waves[1], vec![DagNode::Build(b)]);
    assert_eq!(waves[2], vec![DagNode::Build(c)]);
}

#[test]
fn execution_waves_with_binds_only() {
    let a = hash("bind_a");
    let b = hash("bind_b");
    let mut m = manifest();
    add_bind(&mut m, &a, None);
    add_bind(&mut m, &b, Some(InputsRef::Bind(a.clone())));

    let dag = ExecutionDag::from_manifest(&m).unwrap();
    let waves = dag.execution_waves().unwrap();

    assert_eq!(waves.len(), 2);
    assert_eq!(waves[0], vec![DagNode::Bind(a)]);
    assert_eq!(waves[1], vec![DagNode::Bind(b)]);
}

#[test]
fn execution_waves_parallel_mixed() {
    let build_a = hash("build_a");
    let bind_b = hash("bind_b");
    let mut m = manifest();
    add_build(&mut m, &build_a, None);
    add_bind(&mut m, &bind_b, None);

    let dag = ExecutionDag::from_manifest(&m).unwrap();
    let waves = dag.execution_waves().unwrap();

    assert_eq!(waves.len(), 1);
    assert_eq!(waves[0].len(), 2);
    assert!(waves[0].contains(&DagNode::Build(build_a)));
    assert!(waves[0].contains(&DagNode::Bind(bind_b)));
}

#[test]
fn execution_waves_bind_after_its_build() {
    let build_a = hash("build_a");
    let bind_b = hash("bind_b");
    let mut m = manifest();
    add_build(&mut m, &build_a, None);
    add_bind(&mut m, &bind_b, Some(InputsRef::Build(build_a.clone())));

    let dag = ExecutionDag::from_manifest(&m).unwrap();
    let waves = dag.execution_waves().unwrap();
    assert_eq!(waves, vec![vec![DagNode::Build(build_a)], vec![DagNode::Bind(bind_b)]]);
    // waves of builds leave out the wave holding only the bind
    assert_eq!(dag.build_waves().unwrap().len(), 1);
}

#[test]
fn get_bind_from_manifest() {
    let bind_hash = hash("bind");
    let inputs = Some(InputsRef::String("value".to_string()));
    let mut m = manifest();
    add_bind(&mut m, &bind_hash, Some(InputsRef::String("value".to_string())));

    let dag = ExecutionDag::from_manifest(&m).unwrap();

    let retrieved = dag.get_bind(&bind_hash, &m);
    assert!(retrieved.is_some());
    assert_eq!(retrieved.unwrap(), &inputs);

    let fake_hash = hash("nonexistent");
    assert!(dag.get_bind(&fake_hash, &m).is_none());
}

#[test]
fn failed_build_dependency_is_reported() {
    let a = hash("a");
    let b = hash("b");
    let bind = hash("bind");
    let mut m = manifest();
    add_build(&mut m, &a, None);
    add_build(&mut m, &b, Some(InputsRef::Build(a.clone())));
    add_bind(&mut m, &bind, Some(InputsRef::Build(b.clone())));
    let dag = ExecutionDag::from_manifest(&m).unwrap();

    let mut failed_builds: StrMap<()> = StrMap::new();
    let failed_binds: StrMap<()> = StrMap::new();
    assert_eq!(find_failed_dependency(&DagNode::Build(b.clone()), &dag, &failed_builds, &failed_binds), None);

    failed_builds.insert("a".to_string(), ());
    assert_eq!(
        find_failed_dependency(&DagNode::Build(b.clone()), &dag, &failed_builds, &failed_binds),
        Some(FailedDependency::Build(a.clone()))
    );
    // the bind depends on b only, which has not failed
    assert_eq!(find_failed_dependency(&DagNode::Bind(bind.clone()), &dag, &failed_builds, &failed_binds), None);

    failed_builds.insert("b".to_string(), ());
    assert_eq!(
        find_failed_dependency(&DagNode::Bind(bind), &dag, &failed_builds, &failed_binds),
        Some(FailedDependency::Build(b))
    );
}

#[test]
fn failed_bind_dependency_is_reported() {
    let a = hash("bind_a");
    let b = hash("bind_b");
    let mut m = manifest();
    add_bind(&mut m, &a, None);
    add_bind(&mut m, &b, Some(InputsRef::Bind(a.clone())));
    let dag = ExecutionDag::from_manifest(&m).unwrap();

    let failed_builds: StrMap<()> = StrMap::new();
    let mut failed_binds: StrMap<()> = StrMap::new();
    failed_binds.insert("bind_a".to_string(), ());
    assert_eq!(
        find_failed_dependency(&DagNode::Bind(b), &dag, &failed_builds, &failed_binds),
        Some(FailedDependency::Bind(a))
    );
}
