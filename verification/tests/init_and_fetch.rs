use syslua_lib::init::{
    check_no_existing_files, init_layout, luarc_library, set_workspace_library, update_luarc_text, workspace_library_settable, InitError,
};
use syslua_lib::json::JsonValue;
use syslua_lib::inputs::fetch::{expand_path, resolve_path, FetchError};
use tempfile::TempDir;

#[test]
fn init_layout_paths() {
    let layout = init_layout("/home/u/cfg", "/home/u/.local/share/syslua");
    assert_eq!(layout.init_lua, "/home/u/cfg/init.lua");
    assert_eq!(layout.luarc_json, "/home/u/cfg/.luarc.json");
    assert_eq!(layout.store_dir, "/home/u/.local/share/syslua/store");
    assert_eq!(layout.types_dir, "/home/u/.local/share/syslua/types");
}

#[test]
fn init_fails_if_init_lua_exists() {
    let layout = init_layout("/c", "/d");
    match check_no_existing_files(&layout, true, true) {
        Err(InitError::PathExists { path }) => assert_eq!(path, "/c/init.lua"),
        other => panic!("unexpected {:?}", other),
    }
}

#[test]
fn init_fails_if_luarc_exists() {
    let layout = init_layout("/c", "/d");
    match check_no_existing_files(&layout, false, true) {
        Err(InitError::PathExists { path }) => assert_eq!(path, "/c/.luarc.json"),
        other => panic!("unexpected {:?}", other),
    }
    assert!(check_no_existing_files(&layout, false, false).is_ok());
}

fn text(s: &str) -> JsonValue {
    JsonValue::Str(s.to_string())
}

#[test]
fn luarc_library_keeps_user_entries() {
    let entries = vec![text("/d/types"), text("/home/u/lib"), text("/cache/inputs/old"), JsonValue::Bool(true)];
    let inputs = vec!["/cache/inputs/store/pkgs-1".to_string()];
    let plan = luarc_library(entries, "/d/types", "/cache/inputs", &inputs);
    assert_eq!(
        plan,
        vec![text("/d/types"), text("/cache/inputs/store/pkgs-1"), text("/home/u/lib"), JsonValue::Bool(true)]
    );
}

#[test]
fn workspace_library_is_set_in_place_or_added() {
    let v = JsonValue::Object(vec![
        ("a".to_string(), JsonValue::Null),
        (
            "workspace".to_string(),
            JsonValue::Object(vec![("library".to_string(), JsonValue::Array(vec![])), ("z".to_string(), JsonValue::Null)]),
        ),
    ]);
    assert!(workspace_library_settable(&v));
    let nv = set_workspace_library(v, vec![text("/t")]).unwrap();
    assert_eq!(
        nv,
        JsonValue::Object(vec![
            ("a".to_string(), JsonValue::Null),
            (
                "workspace".to_string(),
                JsonValue::Object(vec![
                    ("library".to_string(), JsonValue::Array(vec![text("/t")])),
                    ("z".to_string(), JsonValue::Null)
                ]),
            ),
        ])
    );

    let added = set_workspace_library(JsonValue::Object(vec![]), vec![]).unwrap();
    assert_eq!(
        added,
        JsonValue::Object(vec![(
            "workspace".to_string(),
            JsonValue::Object(vec![("library".to_string(), JsonValue::Array(vec![]))])
        )])
    );
}

#[test]
fn workspace_library_cannot_be_set_in_other_shapes() {
    let odd = JsonValue::Object(vec![("workspace".to_string(), JsonValue::Bool(false))]);
    assert!(!workspace_library_settable(&odd));
    assert!(set_workspace_library(odd, vec![]).is_none());
    assert!(set_workspace_library(JsonValue::Array(vec![]), vec![]).is_none());
}

#[test]
fn relative_path() {
    let temp_dir = TempDir::new().unwrap();
    let config_dir = temp_dir.path();
    let sub = tempfile::Builder::new().prefix("local-config").rand_bytes(0).tempdir_in(config_dir).unwrap();
    let subdir = sub.path().to_path_buf();

    let result = resolve_path("./local-config", config_dir.to_str().unwrap(), "/unused").unwrap();
    assert_eq!(result, subdir.canonicalize().unwrap().to_str().unwrap());
}

#[test]
fn bare_tilde() {
    let temp_dir = TempDir::new().unwrap();
    let home = temp_dir.path();
    let result = resolve_path("~", "/unused", home.to_str().unwrap()).unwrap();
    assert_eq!(result, home.canonicalize().unwrap().to_str().unwrap());
}

#[test]
fn tilde_expansion() {
    let temp_dir = TempDir::new().unwrap();
    let home = temp_dir.path();
    let dir = tempfile::Builder::new().prefix("dotfiles").rand_bytes(0).tempdir_in(home).unwrap();
    let dotfiles = dir.path().to_path_buf();

    let result = resolve_path("~/dotfiles", "/unused", home.to_str().unwrap()).unwrap();
    assert_eq!(result, dotfiles.canonicalize().unwrap().to_str().unwrap());
}

#[test]
fn absolute_path() {
    let temp_dir = TempDir::new().unwrap();
    let abs_path = temp_dir.path();
    let result = resolve_path(abs_path.to_str().unwrap(), "/unused", "/unused").unwrap();
    assert_eq!(result, abs_path.canonicalize().unwrap().to_str().unwrap());
}

#[test]
fn nonexistent_path_returns_error() {
    let result = resolve_path("/nonexistent/path/12345", "/unused", "/unused");
    assert!(matches!(result, Err(FetchError::PathNotFound(_))));
}

#[test]
fn expand_path_forms() {
    assert_eq!(expand_path("~/x", "/cfg", "/home/u"), "/home/u/x");
    assert_eq!(expand_path("~", "/cfg", "/home/u"), "/home/u");
    assert_eq!(expand_path("/abs", "/cfg", "/home/u"), "/abs");
    assert_eq!(expand_path("rel/dir", "/cfg", "/home/u"), "/cfg/rel/dir");
}

#[test]
fn resolved_path_is_absolute_even_from_relative_dirs() {
    let result = resolve_path(".", ".", "/unused").unwrap();
    assert!(result.starts_with('/'), "not absolute: {}", result);
    assert_ne!(result, ".");
}

#[test]
fn luarc_update_replaces_managed_entries_and_keeps_user_ones() {
    let content = r#"{"runtime": {"version": "Lua 5.4"}, "workspace": {"library": ["/d/types/old", "/user/lib", 3, "/cache/inputs/x"]}}"#;
    let out = update_luarc_text(content, &vec!["/store/a".to_string()], "/d/types", "/cache/inputs").unwrap();
    let v: serde_json::Value = serde_json::from_str(&out).unwrap();
    let lib = v["workspace"]["library"].as_array().unwrap();
    assert_eq!(lib.len(), 4);
    assert_eq!(lib[0].as_str(), Some("/d/types"));
    assert_eq!(lib[1].as_str(), Some("/store/a"));
    assert_eq!(lib[2].as_str(), Some("/user/lib"));
    assert_eq!(lib[3].as_u64(), Some(3));
    assert_eq!(v["runtime"]["version"].as_str(), Some("Lua 5.4"));
    assert!(out.contains('\n'), "written pretty");
}

#[test]
fn luarc_update_creates_workspace_when_absent() {
    let out = update_luarc_text("{}", &vec![], "/d/types", "/c").unwrap();
    let v: serde_json::Value = serde_json::from_str(&out).unwrap();
    let lib = v["workspace"]["library"].as_array().unwrap();
    assert_eq!(lib.len(), 1);
    assert_eq!(lib[0].as_str(), Some("/d/types"));
}

#[test]
fn luarc_update_leaves_other_shapes_alone() {
    assert!(update_luarc_text("not json", &vec![], "/t", "/c").is_none());
    let out = update_luarc_text("[1,2]", &vec![], "/t", "/c").unwrap();
    let v: serde_json::Value = serde_json::from_str(&out).unwrap();
    assert_eq!(v.as_array().unwrap().len(), 2);
    let out = update_luarc_text(r#"{"workspace": 5}"#, &vec![], "/t", "/c").unwrap();
    let v: serde_json::Value = serde_json::from_str(&out).unwrap();
    assert_eq!(v["workspace"].as_u64(), Some(5));
}
