//! Local path inputs: expanding `~` and relative paths, and checking that the
//! directory exists.
use vstd::prelude::*;
use crate::text::{has_prefix, starts_with, path_join, join_path, char_len, char_substring, compare_str_eq};

verus! {

/// Errors of fetching inputs.
#[derive(Debug)]
pub enum FetchError {
    /// The cache directory could not be created.
    CreateCacheDir { path: String, message: String },
    /// A repository could not be cloned.
    Clone { url: String, message: String },
    /// An existing repository could not be opened.
    Open { path: String, message: String },
    /// Fetching from the remote failed.
    Fetch { url: String, message: String },
    /// The revision does not exist in the repository.
    RevisionNotFound { rev: String },
    /// A revision could not be checked out.
    Checkout { rev: String, message: String },
    /// HEAD could not be resolved.
    ResolveHead(String),
    /// The path does not exist.
    PathNotFound(String),
    /// The path could not be canonicalized.
    CanonicalizePath { path: String, message: String },
}

/// Why a path could not be canonicalized.
#[derive(Debug)]
pub enum CanonicalizeFailure {
    /// Nothing exists at the path.
    NotFound,
    /// Another I/O error, with its message.
    Other(String),
}

/// Calls `std::path::Path::canonicalize`. Whether it succeeds, and the path
/// it gives, depend on the file system; what is stated is what its
/// documentation promises of every success: the absolute form of the path,
/// which on Unix (whose paths this crate handles) starts at the root `/`. A
/// missing path is told apart from other errors.
#[verifier::external_body]
fn canonicalize(path: &str) -> (r: Result<String, CanonicalizeFailure>)
    ensures
        r matches Ok(c) ==> c@.len() > 0 && c@[0] == '/',
{
    match std::path::Path::new(path).canonicalize() {
        Ok(p) => Ok(p.to_string_lossy().into_owned()),
        Err(e) if e.kind() == std::io::ErrorKind::NotFound => Err(CanonicalizeFailure::NotFound),
        Err(e) => Err(CanonicalizeFailure::Other(e.to_string())),
    }
}

/// A path input with `~` expanded: `~/rest` and `~` are taken under the home
/// directory, absolute paths are kept, and relative ones are taken under the
/// configuration directory.
pub open spec fn expanded_path(path_str: Seq<char>, config_dir: Seq<char>, home: Seq<char>) -> Seq<char> {
    if has_prefix(path_str, "~/"@) {
        path_join(home, path_str.skip(2))
    } else if path_str == "~"@ {
        home
    } else if has_prefix(path_str, "/"@) {
        path_str
    } else {
        path_join(config_dir, path_str)
    }
}

/// Expands a path input (see `expanded_path`).
pub fn expand_path(path_str: &str, config_dir: &str, home: &str) -> (r: String)
    ensures
        r@ == expanded_path(path_str@, config_dir@, home@),
{
    let tilde_slash = "~/";
    let tilde = "~";
    let slash = "/";
    proof {
        reveal_strlit("~/");
        reveal_strlit("~");
        reveal_strlit("/");
    }
    if starts_with(path_str, tilde_slash) {
        let n = char_len(path_str);
        let rest = char_substring(path_str, 2, n);
        proof {
            assert(rest@ =~= path_str@.skip(2));
        }
        join_path(home, rest.as_str())
    } else if compare_str_eq(path_str, tilde) {
        home.to_owned()
    } else if starts_with(path_str, slash) {
        path_str.to_owned()
    } else {
        join_path(config_dir, path_str)
    }
}

/// Resolves a path input to the canonical path of an existing directory:
/// the expanded path (see `expanded_path`, with `home` the user's home
/// directory), canonicalized, which is absolute. A missing path is
/// `PathNotFound`; which paths exist, and where links lead, the file system
/// decides.
pub fn resolve_path(path_str: &str, config_dir: &str, home: &str) -> (r: Result<String, FetchError>)
    ensures
        match r {
            Err(FetchError::PathNotFound(p)) => p@ == expanded_path(path_str@, config_dir@, home@),
            Err(FetchError::CanonicalizePath { path, .. }) => path@ == expanded_path(path_str@, config_dir@, home@),
            Err(_) => false,
            Ok(c) => c@.len() > 0 && c@[0] == '/',
        },
{
    let expanded = expand_path(path_str, config_dir, home);
    match canonicalize(expanded.as_str()) {
        Ok(c) => Ok(c),
        Err(CanonicalizeFailure::NotFound) => Err(FetchError::PathNotFound(expanded)),
        Err(CanonicalizeFailure::Other(message)) => Err(FetchError::CanonicalizePath { path: expanded, message }),
    }
}

} // verus!
