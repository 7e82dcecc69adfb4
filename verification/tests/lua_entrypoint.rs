use syslua_lib::inputs::resolve::{extract_input_decls_from_file, ResolveError};
use syslua_lib::inputs::types::InputOverride;
use syslua_lib::lua::entrypoint::extract_input_decls;
use syslua_lib::lua::value::{DeclValue, Dialect, NamedTable, OverrideValue, ReturnedValue, parse_decl, parse_override};

fn text(s: &str) -> DeclValue {
    DeclValue::Text(Ok(s.to_string()))
}

fn table(url: Option<&str>, inputs: NamedTable<OverrideValue>) -> DeclValue {
    DeclValue::Table { url: Ok(url.map(|u| u.to_string())), inputs: Ok(inputs) }
}

fn follows(target: &str) -> OverrideValue {
    OverrideValue::Table { follows: Ok(Some(target.to_string())), url: Ok(None) }
}

fn url_table(url: &str) -> OverrideValue {
    OverrideValue::Table { follows: Ok(None), url: Ok(Some(url.to_string())) }
}

fn returned(entries: Vec<(&str, DeclValue)>) -> ReturnedValue {
    ReturnedValue::Table(Ok(NamedTable::Table(entries.into_iter().map(|(k, v)| Ok((k.to_string(), v))).collect())))
}

fn overrides(entries: Vec<(&str, OverrideValue)>) -> NamedTable<OverrideValue> {
    NamedTable::Table(entries.into_iter().map(|(k, v)| Ok((k.to_string(), v))).collect())
}

#[test]
fn test_extract_simple_inputs() {
    let value = returned(vec![
        ("utils", text("git:https://github.com/org/utils.git")),
        ("other", text("path:../local")),
    ]);
    let decls = extract_input_decls(value).unwrap();

    assert_eq!(decls.len(), 2);

    let utils = decls.get("utils").unwrap();
    assert_eq!(utils.url(), Some("git:https://github.com/org/utils.git"));
    assert!(!utils.has_overrides());

    let other = decls.get("other").unwrap();
    assert_eq!(other.url(), Some("path:../local"));
}

#[test]
fn test_extract_extended_inputs() {
    let value = returned(vec![
        ("utils", text("git:https://github.com/org/utils.git")),
        ("pkgs", table(Some("git:https://github.com/org/pkgs.git"), overrides(vec![("utils", follows("utils"))]))),
    ]);
    let decls = extract_input_decls(value).unwrap();

    assert_eq!(decls.len(), 2);

    let pkgs = decls.get("pkgs").unwrap();
    assert_eq!(pkgs.url(), Some("git:https://github.com/org/pkgs.git"));
    assert!(pkgs.has_overrides());

    let ovs = pkgs.overrides().unwrap();
    assert_eq!(ovs.len(), 1);

    let utils_override = ovs.get("utils").unwrap();
    assert!(utils_override.is_follows());
    assert_eq!(utils_override.follows_path(), Some("utils"));
}

#[test]
fn test_extract_url_override() {
    let value = returned(vec![(
        "pkgs",
        table(
            Some("git:https://github.com/org/pkgs.git"),
            overrides(vec![("utils", url_table("git:https://github.com/myorg/utils.git"))]),
        ),
    )]);
    let decls = extract_input_decls(value).unwrap();

    let pkgs = decls.get("pkgs").unwrap();
    let ovs = pkgs.overrides().unwrap();
    let utils_override = ovs.get("utils").unwrap();

    assert!(!utils_override.is_follows());
    assert!(matches!(utils_override, InputOverride::Url(url) if url == "git:https://github.com/myorg/utils.git"));
}

#[test]
fn test_extract_string_url_override() {
    let value = returned(vec![(
        "pkgs",
        table(
            Some("git:https://github.com/org/pkgs.git"),
            overrides(vec![("utils", OverrideValue::Text(Ok("git:https://github.com/myorg/utils.git".to_string())))]),
        ),
    )]);
    let decls = extract_input_decls(value).unwrap();

    let pkgs = decls.get("pkgs").unwrap();
    let ovs = pkgs.overrides().unwrap();
    let utils_override = ovs.get("utils").unwrap();

    assert!(matches!(utils_override, InputOverride::Url(url) if url == "git:https://github.com/myorg/utils.git"));
}

#[test]
fn test_extract_empty_inputs() {
    // A returned table without an `inputs` field.
    let decls = extract_input_decls(ReturnedValue::Table(Ok(NamedTable::Nil))).unwrap();
    assert!(decls.is_empty());
}

#[test]
fn entrypoint_must_return_a_table() {
    let err = extract_input_decls(ReturnedValue::Other).unwrap_err();
    assert_eq!(err, "entrypoint must return a table");
}

#[test]
fn entrypoint_inputs_must_be_a_table() {
    let err = extract_input_decls(ReturnedValue::Table(Ok(NamedTable::Other))).unwrap_err();
    assert_eq!(err, "inputs must be a table");
}

#[test]
fn entrypoint_read_error_is_handed_on() {
    let err = extract_input_decls(ReturnedValue::Table(Err("bad key".to_string()))).unwrap_err();
    assert_eq!(err, "bad key");
}

#[test]
fn declaration_of_wrong_kind_is_refused() {
    let err = extract_input_decls(returned(vec![("x", DeclValue::Other)])).unwrap_err();
    assert_eq!(err, "input 'x' must be a string URL or a table");

    let err = parse_decl(Dialect::Dependency, "x", DeclValue::Other).unwrap_err();
    assert_eq!(err, "input 'x' must be a string or table");
}

#[test]
fn declaration_inputs_field_must_be_a_table() {
    let err = parse_decl(Dialect::Entrypoint, "pkgs", table(Some("u"), NamedTable::Other)).unwrap_err();
    assert_eq!(err, "input 'pkgs': inputs field must be a table");
}

#[test]
fn declaration_table_without_inputs_has_no_overrides() {
    let decl = parse_decl(Dialect::Entrypoint, "pkgs", table(None, NamedTable::Nil)).unwrap();
    assert_eq!(decl.url(), None);
    assert!(!decl.has_overrides());
}

#[test]
fn override_follows_wins_over_url() {
    let value = OverrideValue::Table { follows: Ok(Some("a".to_string())), url: Ok(Some("u".to_string())) };
    let o = parse_override(Dialect::Entrypoint, "pkgs", "x", value).unwrap();
    assert_eq!(o, InputOverride::Follows("a".to_string()));
}

#[test]
fn override_needs_url_or_follows() {
    let value = OverrideValue::Table { follows: Ok(None), url: Ok(None) };
    let err = parse_override(Dialect::Dependency, "pkgs", "x", value).unwrap_err();
    assert_eq!(err, "override 'x' must have either 'url' or 'follows' field");
}

#[test]
fn override_of_wrong_kind_is_refused() {
    let err = parse_override(Dialect::Entrypoint, "pkgs", "x", OverrideValue::Other).unwrap_err();
    assert_eq!(err, "override 'x' must be a string URL or a table with 'url' or 'follows'");
    let err = parse_override(Dialect::Dependency, "pkgs", "x", OverrideValue::Other).unwrap_err();
    assert_eq!(err, "override 'x' must be a string URL or a table");
}

#[test]
fn first_error_in_order_wins() {
    let value = returned(vec![("a", DeclValue::Other), ("b", DeclValue::Text(Err("bad utf8".to_string())))]);
    let err = extract_input_decls(value).unwrap_err();
    assert_eq!(err, "input 'a' must be a string URL or a table");
}

#[test]
fn later_entry_under_a_key_wins() {
    let value = returned(vec![("a", text("first")), ("a", text("second"))]);
    let decls = extract_input_decls(value).unwrap();
    assert_eq!(decls.len(), 1);
    assert_eq!(decls.get("a").unwrap().url(), Some("second"));
}

#[test]
fn input_file_that_returns_no_table_declares_nothing() {
    let decls = extract_input_decls_from_file("/x/init.lua", ReturnedValue::Other).unwrap();
    assert!(decls.is_empty());
}

#[test]
fn input_file_inputs_not_a_table() {
    let err = extract_input_decls_from_file("/x/init.lua", ReturnedValue::Table(Ok(NamedTable::Other))).unwrap_err();
    match err {
        ResolveError::ExtractInputs { name, message } => {
            assert_eq!(name, "/x/init.lua");
            assert_eq!(message, "inputs field is not a table");
        },
        other => panic!("unexpected error {:?}", other),
    }
}

#[test]
fn input_file_declaration_error_names_the_file() {
    let value = returned(vec![("dep", DeclValue::Other)]);
    let err = extract_input_decls_from_file("/x/init.lua", value).unwrap_err();
    match err {
        ResolveError::ExtractInputs { name, message } => {
            assert_eq!(name, "/x/init.lua");
            assert_eq!(message, "input 'dep' must be a string or table");
        },
        other => panic!("unexpected error {:?}", other),
    }
}

#[test]
fn input_file_declarations_are_parsed() {
    let value = returned(vec![
        ("utils", text("git:https://github.com/org/utils.git")),
        ("pkgs", table(Some("git:https://github.com/org/pkgs.git"), overrides(vec![("utils", follows("utils"))]))),
    ]);
    let decls = extract_input_decls_from_file("/x/init.lua", value).unwrap();
    assert_eq!(decls.len(), 2);
    assert_eq!(decls.get("pkgs").unwrap().overrides().unwrap().get("utils").unwrap().follows_path(), Some("utils"));
}
