use syslua_lib::sys_path::{basename, dirname, extname, is_absolute, join, normalize, relative, resolve, split};

fn segs(v: &[&str]) -> Vec<Option<String>> {
    v.iter().map(|s| Some(s.to_string())).collect()
}

#[test]
fn join_single_segment() {
    assert_eq!(join(&segs(&["foo"])), "foo");
}

#[test]
fn join_multiple_segments() {
    let result = join(&segs(&["foo", "bar", "baz"]));
    assert!(result == "foo/bar/baz" || result == r"foo\bar\baz", "Unexpected path: {}", result);
}

#[test]
fn join_skips_non_strings_and_restarts_at_absolute_segments() {
    let v = vec![Some("foo".to_string()), None, Some("/abs".to_string()), Some("x".to_string())];
    assert_eq!(join(&v), "/abs/x");
}

#[test]
fn dirname_returns_parent() {
    assert_eq!(dirname("/foo/bar/baz.txt"), "/foo/bar");
    assert_eq!(dirname("/"), "");
    assert_eq!(dirname(""), "");
}

#[test]
fn basename_returns_filename() {
    assert_eq!(basename("/foo/bar/baz.txt"), "baz.txt");
    assert_eq!(basename("/foo/.."), "");
}

#[test]
fn extname_returns_extension_with_dot() {
    assert_eq!(extname("/foo/bar/baz.txt"), ".txt");
    assert_eq!(extname("archive.tar.gz"), ".gz");
}

#[test]
fn extname_returns_empty_for_no_extension() {
    assert_eq!(extname("/foo/bar/baz"), "");
    assert_eq!(extname("/foo/.bashrc"), "");
}

#[test]
fn is_absolute_detects_absolute_paths() {
    assert!(is_absolute("/foo/bar"));
    assert!(!is_absolute("foo/bar"));
    assert!(!is_absolute(""));
}

#[test]
fn normalize_resolves_dots() {
    assert_eq!(normalize("/foo/bar/../baz/./qux"), "/foo/baz/qux");
    assert_eq!(normalize("../a"), "a");
    assert_eq!(normalize("/.."), "/");
}

#[test]
fn resolve_joins_onto_the_current_directory() {
    assert_eq!(resolve("/home/u", &segs(&["a", "../b"])), "/home/u/b");
    assert_eq!(resolve("/home/u", &segs(&["/etc", "x"])), "/etc/x");
}

#[test]
fn relative_computes_relative_path() {
    assert_eq!(relative("/foo/bar", "/foo/baz/qux"), "../baz/qux");
}

#[test]
fn relative_same_path_returns_dot() {
    assert_eq!(relative("/foo/bar", "/foo/bar"), ".");
}

#[test]
fn split_returns_components() {
    let result = split("/foo/bar/baz");
    assert_eq!(result[0], "/");
    assert_eq!(result[1], "foo");
    assert_eq!(result[2], "bar");
    assert_eq!(result[3], "baz");
}
