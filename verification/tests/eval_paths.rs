use syslua_lib::eval::{build_package_path, extract_raw_inputs, lua_dir_candidates, prepend_package_path};
use syslua_lib::inputs::types::ResolvedInput;
use syslua_lib::lua::value::{DeclValue, NamedTable, OverrideValue};
use syslua_lib::strmap::StrMap;

fn decls(entries: Vec<(&str, DeclValue)>) -> Result<NamedTable<DeclValue>, String> {
    Ok(NamedTable::Table(entries.into_iter().map(|(k, v)| Ok((k.to_string(), v))).collect()))
}

#[test]
fn config_without_inputs_table_declares_nothing() {
    assert!(extract_raw_inputs(Ok(NamedTable::Nil)).unwrap().is_empty());
    assert!(extract_raw_inputs(Ok(NamedTable::Other)).unwrap().is_empty());
}

#[test]
fn config_override_errors_name_the_input() {
    let bad = DeclValue::Table {
        url: Ok(Some("git:https://example.com/pkgs.git".to_string())),
        inputs: Ok(NamedTable::Table(vec![Ok(("utils".to_string(), OverrideValue::Table { follows: Ok(None), url: Ok(None) }))])),
    };
    let err = extract_raw_inputs(decls(vec![("pkgs", bad)])).unwrap_err();
    assert_eq!(err, "input 'pkgs': override 'utils' must have either 'url' or 'follows' field");

    let bad = DeclValue::Table {
        url: Ok(None),
        inputs: Ok(NamedTable::Table(vec![Ok(("utils".to_string(), OverrideValue::Other))])),
    };
    let err = extract_raw_inputs(decls(vec![("pkgs", bad)])).unwrap_err();
    assert_eq!(err, "input 'pkgs': override 'utils' must be a string URL or a table with 'url' or 'follows'");
}

#[test]
fn config_extended_syntax_with_overrides_is_parsed() {
    let pkgs = DeclValue::Table {
        url: Ok(Some("path:./pkgs".to_string())),
        inputs: Ok(NamedTable::Table(vec![Ok((
            "utils".to_string(),
            OverrideValue::Table { follows: Ok(Some("utils".to_string())), url: Ok(None) },
        ))])),
    };
    let m = extract_raw_inputs(decls(vec![("utils", DeclValue::Text(Ok("path:./utils".to_string()))), ("pkgs", pkgs)])).unwrap();
    assert_eq!(m.len(), 2);
    let p = m.get("pkgs").unwrap();
    assert_eq!(p.url(), Some("path:./pkgs"));
    assert_eq!(p.overrides().unwrap().get("utils").unwrap().follows_path(), Some("utils"));
}

#[test]
fn lua_dirs_are_searched_config_first_then_inputs_depth_first() {
    let nested = ResolvedInput::new("/store/c".to_string(), "r3".to_string());
    let b = ResolvedInput::with_inputs("/store/b".to_string(), "r2".to_string(), vec![("c".to_string(), nested)]);
    let a = ResolvedInput::new("/store/a".to_string(), "r1".to_string());
    let mut roots = StrMap::new();
    roots.insert("b".to_string(), b);
    roots.insert("a".to_string(), a);
    let dirs = lua_dir_candidates("/cfg", &roots);
    assert_eq!(dirs, vec!["/cfg/lua", "/store/a/lua", "/store/b/lua", "/store/c/lua"]);
}

#[test]
fn package_path_lists_two_patterns_per_dir() {
    let path = build_package_path(&vec!["/cfg/lua".to_string(), "C:\\in\\lua".to_string()]);
    assert_eq!(path, "/cfg/lua/?.lua;/cfg/lua/?/init.lua;C:/in/lua/?.lua;C:/in/lua/?/init.lua");
    assert_eq!(build_package_path(&vec![]), "");
}

#[test]
fn package_path_is_prepended_when_not_empty() {
    assert_eq!(prepend_package_path("/a/?.lua", "./?.lua").unwrap(), "/a/?.lua;./?.lua");
    assert!(prepend_package_path("", "./?.lua").is_none());
}
