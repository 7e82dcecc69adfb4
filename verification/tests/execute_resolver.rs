use syslua_lib::execute::dag::DagManifest;
use syslua_lib::execute::resolver::{BindCtxResolver, BuildCtxResolver, PlaceholderError};
use syslua_lib::execute::types::{BindResult, BuildResult};
use syslua_lib::strmap::StrMap;

fn empty_manifest() -> DagManifest {
    DagManifest { builds: StrMap::new(), bindings: StrMap::new() }
}

fn store() -> String {
    "/store".to_string()
}

#[test]
fn build_ctx_resolve_action_success() {
    let completed = StrMap::new();
    let manifest = empty_manifest();
    let mut resolver = BuildCtxResolver::new(&completed, &manifest, "/out".to_string(), store());

    resolver.push_action_result("/tmp/downloaded.tar.gz".to_string());
    resolver.push_action_result("/build/output".to_string());

    assert_eq!(resolver.resolve_action(0).unwrap(), "/tmp/downloaded.tar.gz");
    assert_eq!(resolver.resolve_action(1).unwrap(), "/build/output");
}

#[test]
fn build_ctx_resolve_action_out_of_bounds() {
    let completed = StrMap::new();
    let manifest = empty_manifest();
    let resolver = BuildCtxResolver::new(&completed, &manifest, "/out".to_string(), store());

    let result = resolver.resolve_action(0);
    assert!(matches!(result, Err(PlaceholderError::UnresolvedAction(0))));
}

#[test]
fn build_ctx_resolve_out_success() {
    let completed = StrMap::new();
    let manifest = empty_manifest();
    let resolver = BuildCtxResolver::new(&completed, &manifest, "/store/build/myapp-1.0-abc123".to_string(), store());

    assert_eq!(resolver.resolve_out().unwrap(), "/store/build/myapp-1.0-abc123");
}

#[test]
fn build_ctx_resolve_build_from_completed() {
    let mut outputs = StrMap::new();
    outputs.insert("bin".to_string(), "/store/obj/test/bin".to_string());
    let result = BuildResult { store_path: "/store/obj/test".to_string(), outputs, action_results: vec![] };

    let mut completed = StrMap::new();
    completed.insert("abc123def456".to_string(), result);

    let manifest = empty_manifest();
    let resolver = BuildCtxResolver::new(&completed, &manifest, "/out".to_string(), store());

    assert_eq!(resolver.resolve_build("abc123def456", "bin").unwrap(), "/store/obj/test/bin");
    assert_eq!(resolver.resolve_build("abc123", "bin").unwrap(), "/store/obj/test/bin");
    assert_eq!(resolver.resolve_build("abc123", "out").unwrap(), "/store/obj/test");
}

#[test]
fn build_ctx_resolve_build_not_found() {
    let completed = StrMap::new();
    let manifest = empty_manifest();
    let resolver = BuildCtxResolver::new(&completed, &manifest, "/out".to_string(), store());

    let result = resolver.resolve_build("nonexistent", "out");
    assert!(matches!(result, Err(PlaceholderError::UnresolvedBuild { .. })));
}

#[test]
fn build_ctx_resolve_build_not_yet_realized() {
    let completed = StrMap::new();
    let mut manifest = empty_manifest();
    manifest.builds.insert("abc123full".to_string(), None);
    let resolver = BuildCtxResolver::new(&completed, &manifest, "/out".to_string(), store());

    match resolver.resolve_build("abc123", "out") {
        Err(PlaceholderError::UnresolvedBuild { hash, output }) => {
            assert_eq!(hash, "abc123 (not yet realized, path would be \"/store/build/abc123full\")");
            assert_eq!(output, "out");
        },
        _ => panic!("expected an unresolved build"),
    }
    // other outputs of such a build name the hash alone
    match resolver.resolve_build("abc123", "bin") {
        Err(PlaceholderError::UnresolvedBuild { hash, .. }) => assert_eq!(hash, "abc123"),
        _ => panic!("expected an unresolved build"),
    }
}

#[test]
fn build_ctx_resolve_bind_not_supported() {
    let completed = StrMap::new();
    let manifest = empty_manifest();
    let resolver = BuildCtxResolver::new(&completed, &manifest, "/out".to_string(), store());

    let result = resolver.resolve_bind("somebind", "path");
    assert!(matches!(result, Err(PlaceholderError::UnresolvedBind { .. })));
}

#[test]
fn build_ctx_action_count_tracks_results() {
    let completed = StrMap::new();
    let manifest = empty_manifest();
    let mut resolver = BuildCtxResolver::new(&completed, &manifest, "/out".to_string(), store());

    assert_eq!(resolver.action_count(), 0);

    resolver.push_action_result("one".to_string());
    assert_eq!(resolver.action_count(), 1);

    resolver.push_action_result("two".to_string());
    assert_eq!(resolver.action_count(), 2);
}

#[test]
fn bind_ctx_resolve_build() {
    let mut build_outputs = StrMap::new();
    build_outputs.insert("bin".to_string(), "/store/obj/app/bin".to_string());
    let build_result = BuildResult { store_path: "/store/obj/app".to_string(), outputs: build_outputs, action_results: vec![] };

    let mut completed_builds = StrMap::new();
    completed_builds.insert("build123".to_string(), build_result);
    let completed_binds = StrMap::new();
    let manifest = empty_manifest();

    let resolver = BindCtxResolver::new(&completed_builds, &completed_binds, &manifest, "/out".to_string(), store());

    assert_eq!(resolver.resolve_build("build123", "bin").unwrap(), "/store/obj/app/bin");
    assert_eq!(resolver.resolve_build("build123", "out").unwrap(), "/store/obj/app");
}

#[test]
fn bind_ctx_resolve_bind() {
    let mut bind_outputs = StrMap::new();
    bind_outputs.insert("link".to_string(), "/home/user/.config/app".to_string());
    let bind_result = BindResult { outputs: bind_outputs, action_results: vec![] };

    let completed_builds = StrMap::new();
    let mut completed_binds = StrMap::new();
    completed_binds.insert("bind456".to_string(), bind_result);
    let manifest = empty_manifest();

    let resolver = BindCtxResolver::new(&completed_builds, &completed_binds, &manifest, "/out".to_string(), store());

    assert_eq!(resolver.resolve_bind("bind456", "link").unwrap(), "/home/user/.config/app");
}

#[test]
fn bind_ctx_resolve_bind_by_prefix() {
    let mut bind_outputs = StrMap::new();
    bind_outputs.insert("path".to_string(), "/some/path".to_string());
    let bind_result = BindResult { outputs: bind_outputs, action_results: vec![] };

    let completed_builds = StrMap::new();
    let mut completed_binds = StrMap::new();
    completed_binds.insert("bind456def789".to_string(), bind_result);
    let manifest = empty_manifest();

    let resolver = BindCtxResolver::new(&completed_builds, &completed_binds, &manifest, "/out".to_string(), store());

    assert_eq!(resolver.resolve_bind("bind456", "path").unwrap(), "/some/path");
}

#[test]
fn bind_ctx_resolve_bind_not_found() {
    let completed_builds = StrMap::new();
    let completed_binds = StrMap::new();
    let manifest = empty_manifest();

    let resolver = BindCtxResolver::new(&completed_builds, &completed_binds, &manifest, "/out".to_string(), store());

    let result = resolver.resolve_bind("nonexistent", "output");
    assert!(matches!(result, Err(PlaceholderError::UnresolvedBind { .. })));
}

#[test]
fn bind_ctx_resolve_bind_output_not_found() {
    let bind_result = BindResult { outputs: StrMap::new(), action_results: vec![] };
    let completed_builds = StrMap::new();
    let mut completed_binds = StrMap::new();
    completed_binds.insert("bind456".to_string(), bind_result);
    let manifest = empty_manifest();

    let resolver = BindCtxResolver::new(&completed_builds, &completed_binds, &manifest, "/out".to_string(), store());

    let result = resolver.resolve_bind("bind456", "nonexistent_output");
    assert!(matches!(result, Err(PlaceholderError::UnresolvedBind { .. })));
}

#[test]
fn bind_ctx_action_tracking() {
    let completed_builds = StrMap::new();
    let completed_binds = StrMap::new();
    let manifest = empty_manifest();

    let mut resolver = BindCtxResolver::new(&completed_builds, &completed_binds, &manifest, "/out".to_string(), store());

    assert_eq!(resolver.action_count(), 0);

    resolver.push_action_result("result1".to_string());
    assert_eq!(resolver.action_count(), 1);
    assert_eq!(resolver.resolve_action(0).unwrap(), "result1");

    resolver.push_action_result("result2".to_string());
    assert_eq!(resolver.action_count(), 2);
    assert_eq!(resolver.resolve_action(1).unwrap(), "result2");
}

#[test]
fn bind_ctx_out_dir() {
    let completed_builds = StrMap::new();
    let completed_binds = StrMap::new();
    let manifest = empty_manifest();

    let resolver = BindCtxResolver::new(&completed_builds, &completed_binds, &manifest, "/my/output/dir".to_string(), store());

    assert_eq!(resolver.resolve_out().unwrap(), "/my/output/dir");
}

#[test]
fn bind_ctx_with_out_dir() {
    let completed_builds = StrMap::new();
    let completed_binds = StrMap::new();
    let manifest = empty_manifest();

    let parent = BindCtxResolver::new(&completed_builds, &completed_binds, &manifest, "/parent/out".to_string(), store());

    let mut child = parent.with_out_dir("/child/out".to_string());

    assert_eq!(child.resolve_out().unwrap(), "/child/out");

    assert_eq!(child.action_count(), 0);
    child.push_action_result("child_action".to_string());
    assert_eq!(child.action_count(), 1);
}
