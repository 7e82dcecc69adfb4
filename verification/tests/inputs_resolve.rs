use syslua_lib::inputs::lock::{LockFile, LockedInput};
use syslua_lib::inputs::resolve::{
    apply_input_lock_to_decl, apply_override, inject_revision_into_url, merge_namespaces, NamespaceConflictError,
    ResolveState, ResolvedEntry,
};
use syslua_lib::inputs::source::{parse, InputSource};
use syslua_lib::inputs::types::{InputDecl, InputOverride, LuaNamespace};
use syslua_lib::strmap::StrMap;

#[test]
fn inject_revision_into_url_git() {
    let url = "git:https://github.com/org/repo.git";
    let result = inject_revision_into_url(url, "abc123");
    assert_eq!(result, "git:https://github.com/org/repo.git#abc123");

    let url_with_rev = "git:https://github.com/org/repo.git#main";
    let result = inject_revision_into_url(url_with_rev, "abc123");
    assert_eq!(result, "git:https://github.com/org/repo.git#abc123");
}

#[test]
fn inject_revision_into_url_path() {
    let url = "path:./local/dir";
    let result = inject_revision_into_url(url, "abc123");
    assert_eq!(result, "path:./local/dir");
}

#[test]
fn apply_input_lock_to_decl_not_locked() {
    let lock = LockFile::new();
    let decl = InputDecl::Url("git:https://github.com/org/utils.git".to_string());

    let result = apply_input_lock_to_decl(decl.clone(), "utils", &lock);
    assert_eq!(result, decl);
}

#[test]
fn apply_input_lock_to_decl_locked() {
    let mut lock = LockFile::new();
    lock.insert("utils".to_string(), LockedInput::new("git", "git:https://github.com/org/utils.git", "locked123"));

    let decl = InputDecl::Url("git:https://github.com/org/utils.git".to_string());
    let result = apply_input_lock_to_decl(decl, "utils", &lock);

    match result {
        InputDecl::Url(url) => {
            assert!(url.ends_with("#locked123"), "expected locked revision, got: {}", url);
        }
        _ => panic!("expected Url variant"),
    }
}

#[test]
fn apply_input_lock_to_decl_preserves_overrides() {
    let mut lock = LockFile::new();
    lock.insert("utils".to_string(), LockedInput::new("git", "git:https://github.com/org/utils.git", "locked123"));

    let mut overrides = StrMap::new();
    overrides.insert("nested".to_string(), InputOverride::Follows("other".to_string()));

    let decl = InputDecl::Extended {
        url: Some("git:https://github.com/org/utils.git".to_string()),
        inputs: overrides.clone(),
    };

    let result = apply_input_lock_to_decl(decl, "utils", &lock);

    match result {
        InputDecl::Extended { url, inputs } => {
            assert!(url.as_ref().unwrap().ends_with("#locked123"), "expected locked revision, got: {:?}", url);
            assert_eq!(inputs, overrides);
        }
        _ => panic!("expected Extended variant"),
    }
}

#[test]
fn apply_input_lock_to_path_input_uses_locked_url() {
    let mut lock = LockFile::new();
    lock.insert("lib".to_string(), LockedInput::new("path", "path:./vendored/lib", "local"));

    let decl = InputDecl::Url("path:./lib".to_string());
    let result = apply_input_lock_to_decl(decl, "lib", &lock);
    assert_eq!(result, InputDecl::Url("path:./vendored/lib".to_string()));
}

#[test]
fn apply_override_url_replaces_declaration() {
    let decl = InputDecl::Url("git:https://example.com/a.git".to_string());
    let result = apply_override(decl, InputOverride::Url("git:https://example.com/b.git".to_string()));
    assert_eq!(result, InputDecl::Url("git:https://example.com/b.git".to_string()));
}

#[test]
fn apply_override_follows_keeps_url_and_marks_target() {
    let decl = InputDecl::Url("git:https://example.com/a.git".to_string());
    let result = apply_override(decl, InputOverride::Follows("my_utils".to_string()));
    match result {
        InputDecl::Extended { url, inputs } => {
            assert_eq!(url.as_deref(), Some("git:https://example.com/a.git"));
            assert_eq!(inputs.len(), 1);
            assert_eq!(inputs.get("__follows__"), Some(&InputOverride::Follows("my_utils".to_string())));
        }
        _ => panic!("expected Extended variant"),
    }
}

#[test]
fn parse_git_and_path_urls() {
    assert_eq!(
        parse("git:https://github.com/org/repo.git#v1.0.0"),
        Ok(InputSource::Git { url: "https://github.com/org/repo.git".to_string(), rev: Some("v1.0.0".to_string()) })
    );
    assert_eq!(
        parse("git:https://github.com/org/repo.git"),
        Ok(InputSource::Git { url: "https://github.com/org/repo.git".to_string(), rev: None })
    );
    assert_eq!(parse("path:../local"), Ok(InputSource::Path { path: "../local".to_string() }));
    assert!(parse("https://example.com").is_err());
}

fn ns(name: &str, provider: &str, url: &str, rev: &str) -> LuaNamespace {
    LuaNamespace::new(name.to_string(), provider, url, rev, format!("/x/{}/lua/{}", provider, name))
}

#[test]
fn namespace_conflict_different_sources() {
    let config: Vec<LuaNamespace> = Vec::new();
    let inputs = vec![
        ("a".to_string(), vec![ns("shared", "a", "path:/a", "local")]),
        ("b".to_string(), vec![ns("shared", "b", "path:/b", "local")]),
    ];
    let result = merge_namespaces(&config, &inputs, &StrMap::new());
    let err = result.unwrap_err();
    assert_eq!(err.namespace, "shared");
    assert_eq!(err.provider1, "a");
    assert_eq!(err.provider2, "b");
    assert!(err.to_string().contains("namespace conflict: 'shared'"));
}

#[test]
fn diamond_namespaces_are_merged() {
    let config = vec![ns("cfg", "<config>", "path:/cfg", "local")];
    let inputs = vec![
        ("a/lib".to_string(), vec![ns("lib", "a/lib", "git:x", "r1")]),
        ("b/lib".to_string(), vec![ns("lib", "b/lib", "git:x", "r1")]),
    ];
    let result = merge_namespaces(&config, &inputs, &StrMap::new()).unwrap();
    let names: Vec<_> = result.iter().map(|n| n.name.as_str()).collect();
    assert_eq!(names, vec!["cfg", "lib"]);
    assert_eq!(result[1].provider_input, "a/lib");
}

#[test]
fn followed_inputs_provide_no_namespaces() {
    let config: Vec<LuaNamespace> = Vec::new();
    let inputs = vec![
        ("a".to_string(), vec![ns("shared", "a", "path:/a", "local")]),
        ("b/utils".to_string(), vec![ns("shared", "b/utils", "path:/other", "local")]),
    ];
    let mut follows = StrMap::new();
    follows.insert("b/utils".to_string(), "a".to_string());
    let result = merge_namespaces(&config, &inputs, &follows).unwrap();
    assert_eq!(result.len(), 1);
    assert_eq!(result[0].provider_input, "a");
}

#[test]
fn namespace_conflict_message() {
    let e = NamespaceConflictError {
        namespace: "ns".to_string(),
        provider1: "p1".to_string(),
        url1: "u1".to_string(),
        rev1: "r1".to_string(),
        provider2: "p2".to_string(),
        url2: "u2".to_string(),
        rev2: "r2".to_string(),
    };
    assert_eq!(
        e.to_string(),
        "namespace conflict: 'ns' provided by:\n  - 'p1' (u1@r1)\n  - 'p2' (u2@r2)\nAdd a follows override to resolve, or rename one of the directories."
    );
}

#[test]
fn finishing_without_stale_entries_keeps_the_loaded_lock() {
    let mut lock = LockFile::new();
    lock.insert("pkgs".to_string(), LockedInput::new("git", "git:https://example.com/pkgs", "abc"));
    lock.insert("pkgs/utils".to_string(), LockedInput::new("git", "git:https://example.com/utils", "def"));
    let mut decls = StrMap::new();
    decls.insert("pkgs".to_string(), InputDecl::Url("git:https://example.com/pkgs".to_string()));
    let mut state = ResolveState::new(&decls, lock.clone());
    let resolved = state.finish(&decls).unwrap();
    assert_eq!(resolved.len(), 0);
    assert!(!state.lock_changed);
    assert_eq!(state.lock_file, lock);
}

#[test]
fn finishing_drops_stale_root_inputs_and_marks_the_change() {
    let mut lock = LockFile::new();
    lock.insert("pkgs".to_string(), LockedInput::new("git", "git:https://example.com/pkgs", "abc"));
    lock.insert("old".to_string(), LockedInput::new("git", "git:https://example.com/old", "123"));
    let mut decls = StrMap::new();
    decls.insert("pkgs".to_string(), InputDecl::Url("git:https://example.com/pkgs".to_string()));
    let mut state = ResolveState::new(&decls, lock);
    state.finish(&decls).unwrap();
    assert!(state.lock_changed);
    assert_eq!(state.lock_file.input_names(), vec!["pkgs".to_string()]);
}

fn resolved(st: &mut ResolveState, path: &str, url: &str) {
    st.resolved_cache.insert(
        path.to_string(),
        ResolvedEntry { path: format!("/store{}", path), rev: "local".to_string(), url: url.to_string() },
    );
}

#[test]
fn shared_dependency_is_kept_under_each_parent() {
    let mut decls = StrMap::new();
    decls.insert("a".to_string(), InputDecl::Url("path:/c".to_string()));
    decls.insert("b".to_string(), InputDecl::Url("path:/b".to_string()));
    let mut st = ResolveState::new(&decls, LockFile::new());
    resolved(&mut st, "a", "path:/c");
    resolved(&mut st, "b", "path:/b");
    st.mark_processed("a");

    let mut deps = StrMap::new();
    deps.insert("c".to_string(), InputDecl::Url("path:/c".to_string()));
    assert!(st.add_transitive_decls("b", &deps, None));
    assert!(st.graph.get("b/c").is_some());
    assert_eq!(st.graph.dependencies("b"), vec!["b/c".to_string()]);
}

#[test]
fn dependency_on_an_ancestor_is_a_cycle_and_skipped() {
    let mut decls = StrMap::new();
    decls.insert("b".to_string(), InputDecl::Url("path:/b".to_string()));
    let mut st = ResolveState::new(&decls, LockFile::new());
    resolved(&mut st, "b", "path:/b");
    let mut deps = StrMap::new();
    deps.insert("c".to_string(), InputDecl::Url("path:/c".to_string()));
    assert!(st.add_transitive_decls("b", &deps, None));
    resolved(&mut st, "b/c", "path:/c");

    let mut back = StrMap::new();
    back.insert("b".to_string(), InputDecl::Url("path:/b".to_string()));
    back.insert("d".to_string(), InputDecl::Url("path:/d".to_string()));
    assert!(st.add_transitive_decls("b/c", &back, None));
    assert!(st.graph.get("b/c/b").is_none());
    assert!(st.graph.get("b/c/d").is_some());
}
