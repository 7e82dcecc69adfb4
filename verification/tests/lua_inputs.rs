use syslua_lib::execute::dag::DagManifest;
use syslua_lib::hash::ObjectHash;
use syslua_lib::inputs::refs::{contains_bind_ref, InputsRef};
use syslua_lib::lua::inputs::{lua_value_to_build_inputs_ref, lua_value_to_inputs_ref, InputValue};
use syslua_lib::strmap::StrMap;

fn manifest() -> DagManifest {
    let mut builds = StrMap::new();
    builds.insert("build1".to_string(), None);
    let mut bindings = StrMap::new();
    bindings.insert("bind1".to_string(), None);
    DagManifest { builds, bindings }
}

fn text(s: &str) -> InputValue {
    InputValue::Text(Ok(s.to_string()))
}

fn table(entries: Vec<(&str, InputValue)>) -> InputValue {
    InputValue::Table(entries.into_iter().map(|(k, v)| Ok((k.to_string(), v))).collect())
}

#[test]
fn primitives_are_taken_as_they_are() {
    let m = manifest();
    assert_eq!(lua_value_to_inputs_ref(text("hello"), &m).unwrap(), InputsRef::String("hello".to_string()));
    let bits = 42.5f64.to_bits();
    assert_eq!(lua_value_to_inputs_ref(InputValue::Number(bits), &m).unwrap(), InputsRef::Number(bits));
    assert_eq!(lua_value_to_inputs_ref(InputValue::Boolean(true), &m).unwrap(), InputsRef::Boolean(true));
}

#[test]
fn array_keeps_element_order() {
    let m = manifest();
    let value = InputValue::Array(vec![Ok(text("b")), Ok(text("a"))]);
    let r = lua_value_to_inputs_ref(value, &m).unwrap();
    assert_eq!(r, InputsRef::Array(vec![InputsRef::String("b".to_string()), InputsRef::String("a".to_string())]));
}

#[test]
fn table_keys_come_out_sorted() {
    let m = manifest();
    let value = table(vec![("zeta", text("z")), ("alpha", InputValue::Boolean(false))]);
    let r = lua_value_to_inputs_ref(value, &m).unwrap();
    assert_eq!(
        r,
        InputsRef::Table(vec![
            ("alpha".to_string(), InputsRef::Boolean(false)),
            ("zeta".to_string(), InputsRef::String("z".to_string())),
        ])
    );
}

#[test]
fn references_found_in_manifest() {
    let m = manifest();
    let value = table(vec![
        ("b", InputValue::BuildRef(Ok("build1".to_string()))),
        ("d", InputValue::BindRef(Ok("bind1".to_string()))),
    ]);
    let r = lua_value_to_inputs_ref(value, &m).unwrap();
    assert_eq!(
        r,
        InputsRef::Table(vec![
            ("b".to_string(), InputsRef::Build(ObjectHash("build1".to_string()))),
            ("d".to_string(), InputsRef::Bind(ObjectHash("bind1".to_string()))),
        ])
    );
}

#[test]
fn missing_references_are_refused() {
    let m = manifest();
    let err = lua_value_to_inputs_ref(InputValue::BuildRef(Ok("nope".to_string())), &m).unwrap_err();
    assert_eq!(err, "referenced build not found in manifest: nope");
    let err = lua_value_to_inputs_ref(InputValue::BindRef(Ok("nope".to_string())), &m).unwrap_err();
    assert_eq!(err, "referenced bind not found in manifest: nope");
}

#[test]
fn build_inputs_cannot_reference_binds() {
    let m = manifest();
    let value = InputValue::Array(vec![Ok(InputValue::BindRef(Ok("bind1".to_string())))]);
    let err = lua_value_to_build_inputs_ref(value, &m).unwrap_err();
    assert_eq!(
        err,
        "build inputs cannot reference binds: binds are side-effectful and cannot be inputs to immutable builds"
    );
    let ok = lua_value_to_build_inputs_ref(InputValue::BuildRef(Ok("build1".to_string())), &m).unwrap();
    assert_eq!(ok, InputsRef::Build(ObjectHash("build1".to_string())));
}

#[test]
fn nil_and_other_kinds_are_refused() {
    let m = manifest();
    assert_eq!(lua_value_to_inputs_ref(InputValue::Nil, &m).unwrap_err(), "nil values not allowed in inputs");
    let err = lua_value_to_inputs_ref(InputValue::Unsupported("function".to_string()), &m).unwrap_err();
    assert_eq!(err, "unsupported input type: \"function\"");
}

#[test]
fn nested_error_is_found_depth_first() {
    let m = manifest();
    let value = table(vec![
        ("a", InputValue::Array(vec![Ok(text("x")), Ok(InputValue::Nil)])),
        ("b", InputValue::BuildRef(Ok("nope".to_string()))),
    ]);
    let err = lua_value_to_inputs_ref(value, &m).unwrap_err();
    assert_eq!(err, "nil values not allowed in inputs");
}

#[test]
fn read_errors_are_handed_on() {
    let m = manifest();
    let value = InputValue::Array(vec![Ok(text("x")), Err("bad element".to_string())]);
    assert_eq!(lua_value_to_inputs_ref(value, &m).unwrap_err(), "bad element");
}

#[test]
fn static_build_inputs_keep_their_keys() {
    let m = manifest();
    let value = table(vec![("url", text("https://example.com/src.tar.gz")), ("sha256", text("abc123"))]);
    let inputs = lua_value_to_build_inputs_ref(value, &m).unwrap();
    match inputs {
        InputsRef::Table(map) => {
            assert!(map.iter().any(|(k, _)| k == "url"));
            assert!(map.iter().any(|(k, _)| k == "sha256"));
        },
        _ => panic!("expected Table inputs"),
    }
}

#[test]
fn build_with_bind_input_fails() {
    let m = manifest();
    let value = table(vec![("bind_dep", InputValue::BindRef(Ok("bind1".to_string())))]);
    let err = lua_value_to_build_inputs_ref(value, &m).unwrap_err();
    assert!(
        err.contains("cannot reference binds") || err.contains("side-effectful"),
        "error should explain bind ref constraint: {}",
        err
    );
}

#[test]
fn build_with_nested_bind_input_fails() {
    let m = manifest();
    let value = table(vec![(
        "nested",
        table(vec![("deep", table(vec![("bind_dep", InputValue::BindRef(Ok("bind1".to_string())))]))]),
    )]);
    let err = lua_value_to_build_inputs_ref(value, &m).unwrap_err();
    assert!(
        err.contains("cannot reference binds") || err.contains("side-effectful"),
        "error should explain bind ref constraint for nested refs: {}",
        err
    );
}

#[test]
fn converted_build_inputs_hold_no_bind_reference() {
    let m = manifest();
    let value = table(vec![
        ("deps", InputValue::Array(vec![Ok(InputValue::BuildRef(Ok("build1".to_string())))])),
        ("name", text("x")),
    ]);
    let r = lua_value_to_build_inputs_ref(value, &m).unwrap();
    assert!(!contains_bind_ref(&r));
}
