use syslua_lib::bind::def::{bind_create_outputs, check_outputs_of, check_update_outputs, drift_result, plan_bind_registration, CheckReturn};
use syslua_lib::bind::types::BindCheckOutputs;
use syslua_lib::build::def::{build_create_outputs, plan_build_registration, BuildRegistration};
use syslua_lib::outputs::{parse_outputs, ReturnedOutputs};
use syslua_lib::strmap::StrMap;

fn table(entries: Vec<(&str, &str)>) -> ReturnedOutputs {
    ReturnedOutputs::Table(entries.into_iter().map(|(k, v)| Ok((k.to_string(), v.to_string()))).collect())
}

/// Registers a build in a manifest kept as hash -> (id, content), as the
/// registration plan says.
fn register_build(
    manifest: &mut StrMap<(Option<String>, String)>,
    hash: &str,
    id: Option<&str>,
    replace: bool,
    content: &str,
) -> Result<(), String> {
    let mut ids: StrMap<Option<String>> = StrMap::new();
    for k in manifest.key_list() {
        ids.insert(k.clone(), manifest.get(&k).unwrap().0.clone());
    }
    match plan_build_registration(&ids, hash, id, replace)? {
        BuildRegistration::Duplicate => Ok(()),
        BuildRegistration::Insert { replaced } => {
            if let Some(old) = replaced {
                manifest.remove(&old);
            }
            manifest.insert(hash.to_string(), (id.map(|s| s.to_string()), content.to_string()));
            Ok(())
        },
    }
}

/// Registers a bind in a manifest kept as hash -> id.
fn register_bind(manifest: &mut StrMap<Option<String>>, hash: &str, id: Option<&str>) -> Result<(), String> {
    if plan_bind_registration(manifest, hash, id)? {
        manifest.insert(hash.to_string(), id.map(|s| s.to_string()));
    }
    Ok(())
}

#[test]
fn outputs_table_is_read_in_order() {
    let m = parse_outputs(vec![Ok(("b".to_string(), "1".to_string())), Ok(("a".to_string(), "2".to_string()))]).unwrap();
    assert_eq!(m.key_list(), vec!["a".to_string(), "b".to_string()]);
    assert_eq!(m.get("a").unwrap(), "2");
    let err = parse_outputs(vec![Ok(("a".to_string(), "1".to_string())), Err("bad entry".to_string())]).unwrap_err();
    assert_eq!(err, "bad entry");
}

#[test]
fn build_with_empty_outputs_fails() {
    let err = build_create_outputs(table(vec![])).unwrap_err();
    assert!(err.contains("non-empty"), "error should mention 'non-empty': {}", err);
}

#[test]
fn build_with_nil_outputs_fails() {
    let err = build_create_outputs(ReturnedOutputs::Nil).unwrap_err();
    assert!(err.contains("non-empty") || err.contains("nil"), "error should mention non-empty or nil: {}", err);
}

#[test]
fn build_create_must_return_a_table() {
    let err = build_create_outputs(ReturnedOutputs::Other("number".to_string())).unwrap_err();
    assert_eq!(err, "build create must return a table of outputs");
    let m = build_create_outputs(table(vec![("out", "/x")])).unwrap();
    assert_eq!(m.get("out").unwrap(), "/x");
}

#[test]
fn bind_create_outputs_are_optional() {
    assert!(bind_create_outputs(ReturnedOutputs::Nil).unwrap().is_none());
    assert!(bind_create_outputs(table(vec![])).unwrap().is_none());
    let m = bind_create_outputs(table(vec![("link", "/l")])).unwrap().unwrap();
    assert_eq!(m.get("link").unwrap(), "/l");
    let err = bind_create_outputs(ReturnedOutputs::Other("boolean".to_string())).unwrap_err();
    assert_eq!(err, "bind create must return a table of outputs or nil");
}

#[test]
fn update_with_different_output_keys_fails() {
    let create = bind_create_outputs(table(vec![("path", "/some/path")])).unwrap();
    let err = check_update_outputs(table(vec![("different_key", "/other/path")]), &create).unwrap_err();
    assert!(err.contains("update must return same output keys as create"), "unexpected error: {}", err);
    assert_eq!(err, "update must return same output keys as create. create: {\"path\"}, update: {\"different_key\"}");
}

#[test]
fn update_with_same_output_keys_succeeds() {
    let create = bind_create_outputs(table(vec![("path", "/some/path")])).unwrap();
    assert!(check_update_outputs(table(vec![("path", "/updated/path")]), &create).is_ok());
}

#[test]
fn update_with_nil_return_when_create_has_no_outputs() {
    let create = bind_create_outputs(ReturnedOutputs::Nil).unwrap();
    assert!(check_update_outputs(ReturnedOutputs::Nil, &create).is_ok());
}

#[test]
fn update_returns_outputs_but_create_does_not_fails() {
    let create = bind_create_outputs(ReturnedOutputs::Nil).unwrap();
    let err = check_update_outputs(table(vec![("path", "/some/path")]), &create).unwrap_err();
    assert!(err.contains("update returned outputs but create did not"), "unexpected error: {}", err);
    assert_eq!(err, "update returned outputs but create did not. update keys: [\"path\"]");
}

#[test]
fn update_returns_nil_but_create_has_outputs_fails() {
    let create = bind_create_outputs(table(vec![("path", "/some/path")])).unwrap();
    let err = check_update_outputs(ReturnedOutputs::Nil, &create).unwrap_err();
    assert!(err.contains("update returned nil but create returned outputs"), "unexpected error: {}", err);
    assert_eq!(err, "update returned nil but create returned outputs. create keys: [\"path\"]");
}

#[test]
fn update_of_wrong_kind_is_refused() {
    let err = check_update_outputs(ReturnedOutputs::Other("number".to_string()), &None).unwrap_err();
    assert_eq!(err, "update must return a table of outputs or nil, got: \"number\"");
}

#[test]
fn check_without_actions_and_unknown_drift_is_dropped() {
    let r = check_outputs_of(CheckReturn::Table { drifted: Some("maybe".to_string()), message: Ok(None) }, 0).unwrap();
    assert!(r.is_none());
    let r = check_outputs_of(CheckReturn::Table { drifted: Some("$${action:0}".to_string()), message: Ok(None) }, 1).unwrap();
    assert_eq!(r, Some(BindCheckOutputs { drifted: "$${action:0}".to_string(), message: None }));
    let r = check_outputs_of(CheckReturn::Table { drifted: Some("true".to_string()), message: Ok(Some("m".to_string())) }, 0).unwrap();
    assert_eq!(r, Some(BindCheckOutputs { drifted: "true".to_string(), message: Some("m".to_string()) }));
}

#[test]
fn check_must_return_drifted() {
    let err = check_outputs_of(CheckReturn::Table { drifted: None, message: Ok(None) }, 0).unwrap_err();
    assert_eq!(err, "check must return a table with `drifted` field");
    let err = check_outputs_of(CheckReturn::Other, 0).unwrap_err();
    assert_eq!(err, "check must return a table with `drifted` (and optional `message`) fields");
}

#[test]
fn drift_is_the_text_true() {
    assert!(drift_result("true", None).drifted);
    assert!(!drift_result("false", None).drifted);
    assert!(!drift_result("TRUE", Some("x".to_string())).drifted);
    assert_eq!(drift_result("true", Some("x".to_string())).message, Some("x".to_string()));
}

#[test]
fn duplicate_build_id_without_replace_fails() {
    let mut manifest = StrMap::new();
    register_build(&mut manifest, "hash-first", Some("my-build"), false, "echo first").unwrap();
    let err = register_build(&mut manifest, "hash-second", Some("my-build"), false, "echo second").unwrap_err();
    assert!(err.contains("already exists"), "error should mention 'already exists': {}", err);
    assert!(err.contains("replace = true"), "error should suggest replace flag: {}", err);
}

#[test]
fn duplicate_build_id_with_replace_succeeds() {
    let mut manifest = StrMap::new();
    register_build(&mut manifest, "hash-first", Some("my-build"), false, "echo first").unwrap();
    register_build(&mut manifest, "hash-second", Some("my-build"), true, "echo second").unwrap();
    assert_eq!(manifest.len(), 1);
    assert_eq!(manifest.get("hash-second").unwrap().1, "echo second", "second build should replace first");
}

#[test]
fn replace_true_on_first_build_succeeds() {
    let mut manifest = StrMap::new();
    register_build(&mut manifest, "hash-only", Some("my-build"), true, "echo only").unwrap();
    assert_eq!(manifest.len(), 1);
}

#[test]
fn different_build_ids_both_kept() {
    let mut manifest = StrMap::new();
    register_build(&mut manifest, "hash-a", Some("build-a"), false, "a").unwrap();
    register_build(&mut manifest, "hash-b", Some("build-b"), false, "b").unwrap();
    assert_eq!(manifest.len(), 2);
}

#[test]
fn duplicate_build_is_deduplicated() {
    let mut manifest = StrMap::new();
    register_build(&mut manifest, "hash-same", Some("same-pkg"), false, "make").unwrap();
    register_build(&mut manifest, "hash-same", Some("same-pkg"), false, "make").unwrap();
    assert_eq!(manifest.len(), 1);
}

#[test]
fn duplicate_bind_id_with_different_content_fails() {
    let mut manifest = StrMap::new();
    register_bind(&mut manifest, "hash-first", Some("my-bind")).unwrap();
    let err = register_bind(&mut manifest, "hash-second", Some("my-bind")).unwrap_err();
    assert!(err.contains("my-bind"), "error should mention the id: {}", err);
    assert_eq!(err, "duplicate bind id 'my-bind': a bind with this id already exists (hash: hash-first)");
}

#[test]
fn binds_without_id_can_have_different_content() {
    let mut manifest = StrMap::new();
    register_bind(&mut manifest, "hash-first", None).unwrap();
    register_bind(&mut manifest, "hash-second", None).unwrap();
    assert_eq!(manifest.len(), 2);
}

#[test]
fn duplicate_bind_is_deduplicated() {
    let mut manifest = StrMap::new();
    register_bind(&mut manifest, "hash-same", Some("my-bind")).unwrap();
    register_bind(&mut manifest, "hash-same", Some("my-bind")).unwrap();
    assert_eq!(manifest.len(), 1);
}
