use syslua_lib::inputs::types::{InputDecl, InputOverride, LockNode, ResolvedInput};
use syslua_lib::strmap::StrMap;

#[test]
fn url_variant_returns_url() {
    let decl = InputDecl::Url("git:https://example.com/repo.git".to_string());
    assert_eq!(decl.url(), Some("git:https://example.com/repo.git"));
    assert!(decl.overrides().is_none());
    assert!(!decl.has_overrides());
}

#[test]
fn extended_with_url_returns_url() {
    let decl = InputDecl::Extended {
        url: Some("git:https://example.com/repo.git".to_string()),
        inputs: StrMap::new(),
    };
    assert_eq!(decl.url(), Some("git:https://example.com/repo.git"));
    assert!(decl.overrides().is_none());
    assert!(!decl.has_overrides());
}

#[test]
fn extended_with_overrides() {
    let mut inputs = StrMap::new();
    inputs.insert("utils".to_string(), InputOverride::Follows("my_utils".to_string()));

    let decl = InputDecl::Extended {
        url: Some("git:https://example.com/repo.git".to_string()),
        inputs,
    };

    assert!(decl.has_overrides());
    let overrides = decl.overrides().unwrap();
    assert_eq!(overrides.len(), 1);
    assert!(matches!(
        overrides.get("utils"),
        Some(InputOverride::Follows(path)) if path == "my_utils"
    ));
}

#[test]
fn extended_without_url() {
    let mut inputs = StrMap::new();
    inputs.insert("utils".to_string(), InputOverride::Follows("my_utils".to_string()));

    let decl = InputDecl::Extended { url: None, inputs };

    assert!(decl.url().is_none());
    assert!(decl.has_overrides());
}

#[test]
fn follows_variant() {
    let override_ = InputOverride::Follows("other/utils".to_string());
    assert!(override_.is_follows());
    assert_eq!(override_.follows_path(), Some("other/utils"));
}

#[test]
fn url_variant() {
    let override_ = InputOverride::Url("git:https://example.com".to_string());
    assert!(!override_.is_follows());
    assert!(override_.follows_path().is_none());
}

#[test]
fn new_without_inputs() {
    let input = ResolvedInput::new("/path/to/input".to_string(), "abc123".to_string());
    assert_eq!(input.path, "/path/to/input");
    assert_eq!(input.rev, "abc123");
    assert!(input.inputs.is_empty());
}

#[test]
fn with_transitive_inputs() {
    let transitive = vec![(
        "utils".to_string(),
        ResolvedInput::new("/path/to/utils".to_string(), "def456".to_string()),
    )];

    let input = ResolvedInput::with_inputs("/path/to/input".to_string(), "abc123".to_string(), transitive);

    assert_eq!(input.input_count(), 1);
    assert!(input.get_input("utils").is_some());
}

#[test]
fn root_node() {
    let mut inputs = StrMap::new();
    inputs.insert("pkgs".to_string(), "pkgs-abc123".to_string());

    let node = LockNode::root(inputs);
    assert!(node.is_root());
    assert!(node.type_.is_none());
    assert!(node.url.is_none());
    assert_eq!(node.inputs.len(), 1);
}

#[test]
fn input_node() {
    let node = LockNode::input("git", "git:https://example.com", "abc123", Some(1234567890), StrMap::new());

    assert!(!node.is_root());
    assert_eq!(node.type_.as_deref(), Some("git"));
    assert_eq!(node.url.as_deref(), Some("git:https://example.com"));
    assert_eq!(node.rev.as_deref(), Some("abc123"));
    assert_eq!(node.last_modified, Some(1234567890));
}
