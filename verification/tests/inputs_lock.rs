use syslua_lib::inputs::lock::{LockFile, LockFileV1, LockedInput, LOCK_VERSION, ROOT_NODE_LABEL};

#[test]
fn new_creates_input() {
    let input = LockedInput::new("git", "git:https://example.com/repo.git", "abc123");
    assert_eq!(input.type_, "git");
    assert_eq!(input.url, "git:https://example.com/repo.git");
    assert_eq!(input.rev, "abc123");
    assert!(input.last_modified.is_none());
}

#[test]
fn with_last_modified() {
    let input = LockedInput::new("git", "git:https://example.com", "abc").with_last_modified(12345);
    assert_eq!(input.last_modified, Some(12345));
}

#[test]
fn new_creates_root_node() {
    let lock = LockFileV1::new();
    assert_eq!(lock.version, LOCK_VERSION);
    assert_eq!(lock.root, ROOT_NODE_LABEL);
    assert!(lock.root_node().is_some());
    assert!(lock.root_node().unwrap().is_root());
}

#[test]
fn add_root_input() {
    let mut lock = LockFileV1::new();
    lock.add_root_input("pkgs", "git:https://example.com/pkgs", "abc123", "git", Some(12345));

    assert!(lock.get_root_input("pkgs").is_some());
    let node = lock.get_root_input("pkgs").unwrap();
    assert_eq!(node.url.as_deref(), Some("git:https://example.com/pkgs"));
    assert_eq!(node.rev.as_deref(), Some("abc123"));
}

#[test]
fn add_transitive_input() {
    let mut lock = LockFileV1::new();
    lock.add_root_input("pkgs", "git:https://example.com/pkgs", "abc123", "git", None);

    let pkgs_label = lock.get_root_input_label("pkgs").unwrap().to_string();
    lock.add_transitive_input(&pkgs_label, "utils", "git:https://example.com/utils", "def456", "git", None);

    let pkgs_node = lock.get_node(&pkgs_label).unwrap();
    assert!(pkgs_node.inputs.contains_key("utils"));

    let utils_label = pkgs_node.inputs.get("utils").unwrap();
    let utils_node = lock.get_node(utils_label).unwrap();
    assert_eq!(utils_node.url.as_deref(), Some("git:https://example.com/utils"));
}

#[test]
fn root_input_names() {
    let mut lock = LockFileV1::new();
    lock.add_root_input("pkgs", "git:a", "abc", "git", None);
    lock.add_root_input("utils", "git:b", "def", "git", None);

    let names = lock.root_input_names();
    assert_eq!(names.len(), 2);
    assert!(names.contains(&"pkgs".to_string()));
    assert!(names.contains(&"utils".to_string()));
}

#[test]
fn remove_root_input() {
    let mut lock = LockFileV1::new();
    lock.add_root_input("pkgs", "git:a", "abc", "git", None);

    assert!(lock.remove_root_input("pkgs"));
    assert!(lock.get_root_input("pkgs").is_none());
    assert!(!lock.remove_root_input("pkgs"));
}

#[test]
fn remove_root_input_cleans_up_orphaned_transitive_deps() {
    let mut lock = LockFileV1::new();

    lock.add_root_input("pkgs", "git:https://example.com/pkgs", "abc123", "git", None);
    let pkgs_label = lock.get_root_input_label("pkgs").unwrap().to_string();
    lock.add_transitive_input(&pkgs_label, "utils", "git:https://example.com/utils", "def456", "git", None);

    let utils_label = lock.get_node(&pkgs_label).unwrap().inputs.get("utils").unwrap().clone();
    assert!(lock.get_node(&utils_label).is_some());

    assert!(lock.remove_root_input("pkgs"));

    assert!(lock.get_node(&pkgs_label).is_none());
    assert!(lock.get_node(&utils_label).is_none());
    assert_eq!(lock.nodes.len(), 1);
    assert!(lock.nodes.contains_key(ROOT_NODE_LABEL));
}

#[test]
fn remove_root_input_preserves_shared_deps() {
    let mut lock = LockFileV1::new();

    lock.add_root_input("pkgs_a", "git:https://example.com/pkgs_a", "aaa", "git", None);
    let pkgs_a_label = lock.get_root_input_label("pkgs_a").unwrap().to_string();
    lock.add_transitive_input(&pkgs_a_label, "utils", "git:https://example.com/utils", "def456", "git", None);

    lock.add_root_input("pkgs_b", "git:https://example.com/pkgs_b", "bbb", "git", None);
    let pkgs_b_label = lock.get_root_input_label("pkgs_b").unwrap().to_string();
    lock.add_transitive_input(&pkgs_b_label, "utils", "git:https://example.com/utils", "def456", "git", None);

    let utils_label = lock.get_node(&pkgs_a_label).unwrap().inputs.get("utils").unwrap().clone();

    assert!(lock.remove_root_input("pkgs_a"));

    assert!(lock.get_node(&pkgs_a_label).is_none());
    assert!(lock.get_node(&utils_label).is_some());
    assert!(lock.get_root_input("pkgs_b").is_some());
}

#[test]
fn remove_orphaned_nodes_handles_deep_chains() {
    let mut lock = LockFileV1::new();

    // root -> pkgs -> lib_a -> lib_b -> lib_c
    lock.add_root_input("pkgs", "git:https://example.com/pkgs", "abc", "git", None);
    let pkgs_label = lock.get_root_input_label("pkgs").unwrap().to_string();

    lock.add_transitive_input(&pkgs_label, "lib_a", "git:https://example.com/lib_a", "aaa", "git", None);
    let lib_a_label = lock.get_node(&pkgs_label).unwrap().inputs.get("lib_a").unwrap().clone();

    lock.add_transitive_input(&lib_a_label, "lib_b", "git:https://example.com/lib_b", "bbb", "git", None);
    let lib_b_label = lock.get_node(&lib_a_label).unwrap().inputs.get("lib_b").unwrap().clone();

    lock.add_transitive_input(&lib_b_label, "lib_c", "git:https://example.com/lib_c", "ccc", "git", None);
    let lib_c_label = lock.get_node(&lib_b_label).unwrap().inputs.get("lib_c").unwrap().clone();

    assert_eq!(lock.nodes.len(), 5);

    assert!(lock.remove_root_input("pkgs"));

    assert_eq!(lock.nodes.len(), 1);
    assert!(lock.nodes.contains_key(ROOT_NODE_LABEL));
    assert!(lock.get_node(&pkgs_label).is_none());
    assert!(lock.get_node(&lib_a_label).is_none());
    assert!(lock.get_node(&lib_b_label).is_none());
    assert!(lock.get_node(&lib_c_label).is_none());
}

#[test]
fn new_creates_empty() {
    let lock = LockFile::new();
    assert!(lock.input_names().is_empty());
}

#[test]
fn insert_and_get() {
    let mut lock = LockFile::new();
    lock.insert("pkgs".to_string(), LockedInput::new("git", "git:https://example.com", "abc123"));

    let input = lock.get("pkgs").unwrap();
    assert_eq!(input.type_, "git");
    assert_eq!(input.rev, "abc123");
}
