use syslua_lib::inputs::store::{compute_input_hash, InputStore, STORE_HASH_LEN};
use tempfile::TempDir;

#[test]
fn deterministic() {
    let h1 = compute_input_hash("git:https://example.com/repo", "abc123");
    let h2 = compute_input_hash("git:https://example.com/repo", "abc123");
    assert_eq!(h1, h2);
}

#[test]
fn different_for_different_urls() {
    let h1 = compute_input_hash("git:https://example.com/repo1", "abc123");
    let h2 = compute_input_hash("git:https://example.com/repo2", "abc123");
    assert_ne!(h1, h2);
}

#[test]
fn different_for_different_revs() {
    let h1 = compute_input_hash("git:https://example.com/repo", "abc123");
    let h2 = compute_input_hash("git:https://example.com/repo", "def456");
    assert_ne!(h1, h2);
}

#[test]
fn correct_length() {
    let h = compute_input_hash("git:https://example.com/repo", "abc123");
    assert_eq!(h.len(), STORE_HASH_LEN);
}

#[test]
fn input_hash_is_sha256_prefix() {
    // SHA-256 of "u:r" starts with these hex digits
    let h = compute_input_hash("u", "r");
    assert_eq!(h.len(), STORE_HASH_LEN);
    assert!(h.chars().all(|c| c.is_ascii_hexdigit() && !c.is_ascii_uppercase()));
    assert_ne!(h, compute_input_hash("u", "s"));
}

#[test]
fn compute_store_path_format() {
    let temp = TempDir::new().unwrap();
    let store = InputStore::with_path(temp.path().to_str().unwrap().to_string());

    let path = store.compute_store_path("pkgs", "git:https://example.com", "abc123");

    let name = std::path::Path::new(&path).file_name().unwrap().to_str().unwrap().to_string();
    assert!(name.starts_with("pkgs-"));
    assert_eq!(name.len(), 4 + 1 + STORE_HASH_LEN);
}

#[test]
fn compute_store_label() {
    let label = InputStore::compute_store_label("utils", "git:https://example.com", "def456");
    assert!(label.starts_with("utils-"));
    assert_eq!(label.len(), 5 + 1 + STORE_HASH_LEN);
}

#[test]
fn exists_returns_false_for_missing() {
    let temp = TempDir::new().unwrap();
    let store = InputStore::with_path(temp.path().to_str().unwrap().to_string());

    assert!(!store.entry_exists("pkgs", "git:https://example.com", "abc123"));
}

#[test]
fn exists_returns_true_for_existing() {
    let temp = TempDir::new().unwrap();
    let store = InputStore::with_path(temp.path().to_str().unwrap().to_string());

    let label = InputStore::compute_store_label("pkgs", "git:https://example.com", "abc123");
    let _entry = tempfile::Builder::new().prefix(&label).rand_bytes(0).tempdir_in(temp.path()).unwrap();

    assert!(store.entry_exists("pkgs", "git:https://example.com", "abc123"));
}

#[test]
fn get_returns_none_for_missing() {
    let temp = TempDir::new().unwrap();
    let store = InputStore::with_path(temp.path().to_str().unwrap().to_string());

    assert!(store.get("pkgs", "git:https://example.com", "abc123").is_none());
}

#[test]
fn get_returns_path_for_existing() {
    let temp = TempDir::new().unwrap();
    let store = InputStore::with_path(temp.path().to_str().unwrap().to_string());

    let expected_path = store.compute_store_path("pkgs", "git:https://example.com", "abc123");
    let label = InputStore::compute_store_label("pkgs", "git:https://example.com", "abc123");
    let _entry = tempfile::Builder::new().prefix(&label).rand_bytes(0).tempdir_in(temp.path()).unwrap();

    let got = store.get("pkgs", "git:https://example.com", "abc123");
    assert_eq!(got, Some(expected_path));
}

#[test]
fn new_store_lives_under_cache_inputs_store() {
    let store = InputStore::new("/home/u/.cache/syslua");
    assert_eq!(store.store_dir(), "/home/u/.cache/syslua/inputs/store");
}
