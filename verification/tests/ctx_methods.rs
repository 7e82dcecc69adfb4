use syslua_lib::lua::ctx_methods::{is_builtin_method, CtxKind, CtxMethods};

/// A registered method, standing for the Lua function.
type Method = &'static str;

#[test]
fn register_build_ctx_method_adds_to_registry() {
    let mut methods: CtxMethods<Method> = CtxMethods::new();
    methods.register(CtxKind::Build, "my_custom_method".to_string(), "custom").unwrap();
    assert_eq!(*methods.lookup(CtxKind::Build, "my_custom_method").unwrap(), "custom");
}

#[test]
fn register_bind_ctx_method_adds_to_registry() {
    let mut methods: CtxMethods<Method> = CtxMethods::new();
    methods.register(CtxKind::Bind, "my_bind_method".to_string(), "custom").unwrap();
    assert!(methods.lookup(CtxKind::Bind, "my_bind_method").is_ok());
}

#[test]
fn build_and_bind_registries_are_separate() {
    let mut methods: CtxMethods<Method> = CtxMethods::new();
    methods.register(CtxKind::Build, "build_only".to_string(), "build").unwrap();
    methods.register(CtxKind::Bind, "bind_only".to_string(), "bind").unwrap();

    assert!(methods.lookup(CtxKind::Build, "build_only").is_ok());
    assert!(methods.lookup(CtxKind::Build, "bind_only").is_err());

    assert!(methods.lookup(CtxKind::Bind, "bind_only").is_ok());
    assert!(methods.lookup(CtxKind::Bind, "build_only").is_err());
}

#[test]
fn cannot_override_builtin_exec_in_build() {
    let mut methods: CtxMethods<Method> = CtxMethods::new();
    let err = methods.register(CtxKind::Build, "exec".to_string(), "hacked").unwrap_err();
    assert!(err.contains("cannot override built-in build ctx method 'exec'"));
}

#[test]
fn cannot_override_builtin_exec_in_bind() {
    let mut methods: CtxMethods<Method> = CtxMethods::new();
    let err = methods.register(CtxKind::Bind, "exec".to_string(), "hacked").unwrap_err();
    assert!(err.contains("cannot override built-in bind ctx method 'exec'"));
}

#[test]
fn cannot_override_builtin_fetch_url_in_build() {
    let mut methods: CtxMethods<Method> = CtxMethods::new();
    let err = methods.register(CtxKind::Build, "fetch_url".to_string(), "hacked").unwrap_err();
    assert!(err.contains("cannot override built-in build ctx method 'fetch_url'"));
}

#[test]
fn can_register_fetch_url_in_bind() {
    let mut methods: CtxMethods<Method> = CtxMethods::new();
    methods.register(CtxKind::Bind, "fetch_url".to_string(), "custom fetch").unwrap();
    assert!(methods.lookup(CtxKind::Bind, "fetch_url").is_ok());
}

#[test]
fn cannot_override_builtin_out_in_build() {
    let mut methods: CtxMethods<Method> = CtxMethods::new();
    let err = methods.register(CtxKind::Build, "out".to_string(), "hacked").unwrap_err();
    assert!(err.contains("cannot override built-in build ctx method 'out'"));
}

#[test]
fn cannot_override_builtin_out_in_bind() {
    let mut methods: CtxMethods<Method> = CtxMethods::new();
    let err = methods.register(CtxKind::Bind, "out".to_string(), "hacked").unwrap_err();
    assert!(err.contains("cannot override built-in bind ctx method 'out'"));
}

#[test]
fn bind_ctx_does_not_have_fetch_url() {
    let methods: CtxMethods<Method> = CtxMethods::new();
    assert!(!is_builtin_method(CtxKind::Bind, "fetch_url"));
    let err = methods.lookup(CtxKind::Bind, "fetch_url").unwrap_err();
    assert!(
        err.contains("unknown bind ctx method 'fetch_url'"),
        "error should mention fetch_url is not available: {}",
        err
    );
    assert_eq!(err, "unknown bind ctx method 'fetch_url'. Use sys.register_bind_ctx_method to add custom methods.");
}

#[test]
fn registering_again_replaces_and_reports_it() {
    let mut methods: CtxMethods<Method> = CtxMethods::new();
    assert!(!methods.register(CtxKind::Build, "m".to_string(), "first").unwrap());
    assert!(methods.register(CtxKind::Build, "m".to_string(), "second").unwrap());
    assert_eq!(*methods.lookup(CtxKind::Build, "m").unwrap(), "second");
}
