use syslua_lib::bind::state::{bind_state_path, BindState};
use syslua_lib::bind::store::{bind_dir_name, bind_dir_path};
use syslua_lib::build::execute::{cache_decision, is_build_complete, verify_build_hash, BuildMarker, CacheDecision};
use syslua_lib::build::store::{build_dir_name, build_dir_path, choose_build_dir, chosen_build_dir, BuildDirChoice};
use syslua_lib::execute::types::ExecuteError;
use syslua_lib::hash::ObjectHash;
use syslua_lib::strmap::StrMap;

#[test]
fn test_bind_dir_name() {
    let hash = ObjectHash("abc123def45678901234".to_string());
    let name = bind_dir_name(&hash);
    assert_eq!(name, "abc123def45678901234");
}

#[test]
fn test_bind_path_includes_bind_dir() {
    let hash = ObjectHash("abc123def45678901234".to_string());
    let path = bind_dir_path(&hash, "/test/store");
    assert_eq!(path, "/test/store/bind/abc123def45678901234");
}

#[test]
fn bind_state_file_is_in_bind_dir() {
    let hash = ObjectHash("abc".to_string());
    assert_eq!(bind_state_path(&hash, "/s"), "/s/bind/abc/state.json");
}

#[test]
fn bind_state_constructors() {
    let empty = BindState::empty();
    assert!(empty.outputs.is_empty());
    let mut outputs = StrMap::new();
    outputs.insert("link".to_string(), "/home/u/.config".to_string());
    let state = BindState::new(outputs.clone());
    assert_eq!(state.outputs, outputs);
}

#[test]
fn test_build_dir_name() {
    let hash = ObjectHash("abc123def45678901234".to_string());
    let name = build_dir_name(&hash);
    assert_eq!(name, "abc123def45678901234");
}

#[test]
fn test_build_path_includes_build_dir() {
    let hash = ObjectHash("abc123def45678901234".to_string());
    let path = build_dir_path(&hash, "/test/store", None);
    assert_eq!(path, BuildDirChoice::Primary("/test/store/build/abc123def45678901234".to_string()));
}

#[test]
fn build_dir_path_falls_back_to_parent_store() {
    let primary = "/p/build/h".to_string();
    let choice = choose_build_dir(primary.clone(), false, Some(("/parent/build/h".to_string(), true)));
    assert_eq!(
        choice,
        BuildDirChoice::LinkFromParent { fallback: "/parent/build/h".to_string(), primary: primary.clone() }
    );
}

#[test]
fn build_dir_path_prefers_primary_store() {
    let primary = "/p/build/h".to_string();
    let choice = choose_build_dir(primary.clone(), true, Some(("/parent/build/h".to_string(), true)));
    assert_eq!(choice, BuildDirChoice::Primary(primary.clone()));
    let choice = choose_build_dir(primary.clone(), false, Some(("/parent/build/h".to_string(), false)));
    assert_eq!(choice, BuildDirChoice::Primary(primary));
}

#[test]
fn is_build_complete_without_marker() {
    assert!(!is_build_complete(&Ok(None)));
    assert!(!is_build_complete(&Err(ExecuteError::ParseMarker("bad".to_string()))));
}

#[test]
fn is_build_complete_with_marker() {
    let marker = BuildMarker { version: 1, status: "complete".to_string(), output_hash: None };
    assert!(is_build_complete(&Ok(Some(marker))));
}

#[test]
fn verify_legacy_marker_without_hash_uses_cache() {
    let marker = BuildMarker { version: 1, status: "complete".to_string(), output_hash: None };
    assert!(verify_build_hash(&marker, None));
    assert!(verify_build_hash(&marker, Some("anything")));
}

#[test]
fn verify_valid_build_cache_hit() {
    let marker = BuildMarker::complete("aa".repeat(32));
    assert!(verify_build_hash(&marker, Some(&"aa".repeat(32))));
    assert_eq!(cache_decision(true, &Ok(Some(marker)), Some(&"aa".repeat(32))), CacheDecision::Reuse);
}

#[test]
fn verify_corrupted_build_triggers_rebuild() {
    let marker = BuildMarker::complete("aa".repeat(32));
    assert!(!verify_build_hash(&marker, Some(&"bb".repeat(32))));
    assert!(!verify_build_hash(&marker, None));
    assert_eq!(cache_decision(true, &Ok(Some(marker)), Some(&"bb".repeat(32))), CacheDecision::RemoveAndBuild);
}

#[test]
fn incomplete_build_triggers_rebuild() {
    assert_eq!(cache_decision(true, &Ok(None), None), CacheDecision::RemoveAndBuild);
    assert_eq!(cache_decision(false, &Ok(None), None), CacheDecision::Build);
}

#[test]
fn a_parent_build_is_used_through_the_link_or_directly() {
    let link = || BuildDirChoice::LinkFromParent { fallback: "/parent/build/h".to_string(), primary: "/store/build/h".to_string() };
    assert_eq!(chosen_build_dir(link(), true), "/store/build/h");
    assert_eq!(chosen_build_dir(link(), false), "/parent/build/h");
    assert_eq!(chosen_build_dir(BuildDirChoice::Primary("/store/build/h".to_string()), false), "/store/build/h");
}
