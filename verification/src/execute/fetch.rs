//! Downloads: where they are kept, when a kept file can be used again, and
//! the checks on what was downloaded.
use vstd::prelude::*;
use vstd::utf8::encode_utf8;
use vstd::string::StrSliceExecFns;
use crate::digest::{sha256, sha256_digest, hex_encode};
use crate::text::{path_join, join_path, last_index_of, find_last_char, find_first_char, char_len, char_substring, concat_str, hex_lower, lemma_hex_lower_len, lemma_hex_lower_chars, compare_str_eq};
use crate::inputs::source::before_char;
use super::types::ExecuteError;

verus! {

/// Whether a character is alphabetic or numeric in the sense of Unicode.
pub uninterp spec fn char_is_alphanumeric(c: char) -> bool;

/// Calls `char::is_alphanumeric`. Trusted: the answer is a function of the
/// character, and on ASCII it holds exactly of letters and digits.
#[verifier::external_body]
fn is_alphanumeric(c: char) -> (b: bool)
    ensures
        b == char_is_alphanumeric(c),
        (c as u32) < 128 ==> (b <==> ('a' <= c <= 'z' || 'A' <= c <= 'Z' || '0' <= c <= '9')),
{
    c.is_alphanumeric()
}

/// A character kept in file names: alphanumeric, `-`, `_` or `.`; others become `_`.
pub open spec fn sanitized_char(c: char) -> char {
    if char_is_alphanumeric(c) || c == '-' || c == '_' || c == '.' {
        c
    } else {
        '_'
    }
}

/// The last path segment of a URL, without its query string.
pub open spec fn url_last_name(url: Seq<char>) -> Seq<char> {
    let i = last_index_of(url, '/');
    let seg = if i < 0 { url } else { url.skip(i + 1) };
    before_char(seg, '?')
}

/// The file name of a download: the URL's last path segment without its query,
/// with unusual characters replaced by `_`; when that is empty, `.` or `..`,
/// `download_` and the first 16 hex digits of the URL's SHA-256.
pub open spec fn url_file_name(url: Seq<char>) -> Seq<char> {
    let s = url_last_name(url).map_values(|c: char| sanitized_char(c));
    if s.len() > 0 && s != "."@ && s != ".."@ {
        s
    } else {
        "download_"@ + hex_lower(sha256_digest(encode_utf8(url))).take(16)
    }
}

/// Turns a URL into a safe file name (see `url_file_name`).
pub fn url_to_filename(url: &str) -> (r: String)
    ensures
        r@ == url_file_name(url@),
        forall|i: int| 0 <= i < r@.len() ==> r@[i] != '/',
{
    proof {
        crate::text::lemma_last_index_of(url@, '/');
    }
    let n = char_len(url);
    let seg = match find_last_char(url, '/') {
        Some(i) => char_substring(url, i + 1, n),
        None => url.to_owned(),
    };
    proof {
        crate::text::lemma_first_index_of(seg@, '?');
    }
    let name = match find_first_char(seg.as_str(), '?') {
        Some(q) => char_substring(seg.as_str(), 0, q),
        None => seg.clone(),
    };
    let ghost want = url_last_name(url@);
    proof {
        assert(name@ =~= want);
    }
    let m = char_len(name.as_str());
    let mut out = String::new();
    let mut k: usize = 0;
    while k < m
        invariant
            k <= m,
            m == name@.len(),
            out@ == name@.take(k as int).map_values(|c: char| sanitized_char(c)),
            forall|i: int| 0 <= i < out@.len() ==> out@[i] != '/',
        decreases m - k,
    {
        let c = name.as_str().get_char(k);
        let keep = is_alphanumeric(c) || c == '-' || c == '_' || c == '.';
        let piece = if keep { char_text(c) } else { char_text('_') };
        out = concat_str(out.as_str(), piece.as_str());
        proof {
            assert(name@.take(k + 1).map_values(|c: char| sanitized_char(c)) =~= name@.take(k as int).map_values(|c: char| sanitized_char(c)).push(sanitized_char(c)));
        }
        k = k + 1;
    }
    proof {
        assert(name@.take(m as int) =~= name@);
    }
    let dot = ".";
    let dots = "..";
    if m > 0 && !compare_str_eq(out.as_str(), dot) && !compare_str_eq(out.as_str(), dots) {
        return out;
    }
    let digest = sha256(url.as_bytes());
    let hexed = hex_encode(digest.as_slice());
    proof {
        lemma_hex_lower_len(digest@);
    }
    let short = char_substring(hexed.as_str(), 0, 16);
    let prefix = "download_";
    proof {
        reveal_strlit("download_");
        lemma_hex_lower_chars(digest@);
    }
    let r = concat_str(prefix, short.as_str());
    proof {
        assert forall|i: int| 0 <= i < r@.len() implies r@[i] != '/' by {
            if i >= 9 {
                assert(r@[i] == hexed@[i - 9]);
                assert((hexed@[i - 9] as u32) >= 48);
            }
        }
    }
    r
}

/// Where a download is kept: `{out}/downloads/{file name}`.
pub open spec fn download_path(out_dir: Seq<char>, url: Seq<char>) -> Seq<char> {
    path_join(path_join(out_dir, "downloads"@), url_file_name(url))
}

/// The directory of downloads and the path of a download (see `download_path`).
pub fn download_location(out_dir: &str, url: &str) -> (r: (String, String))
    ensures
        r.0@ == path_join(out_dir@, "downloads"@),
        r.1@ == download_path(out_dir@, url@),
{
    let d = "downloads";
    proof {
        reveal_strlit("downloads");
    }
    let dir = join_path(out_dir, d);
    let name = url_to_filename(url);
    let path = join_path(dir.as_str(), name.as_str());
    (dir, path)
}

/// A kept file is used again when it could be hashed and its hash is the expected one.
pub fn cached_file_usable(actual_hash: Option<&str>, expected_sha256: &str) -> (b: bool)
    ensures
        b == (actual_hash matches Some(h) && h@ == expected_sha256@),
{
    match actual_hash {
        Some(h) => compare_str_eq(h, expected_sha256),
        None => false,
    }
}

/// The lowercase hex SHA-256 of some bytes.
pub fn sha256_hex(bytes: &[u8]) -> (r: String)
    ensures
        r@ == hex_lower(sha256_digest(bytes@)),
{
    let digest = sha256(bytes);
    hex_encode(digest.as_slice())
}

/// Checks downloaded bytes against the expected SHA-256: a different hash is
/// a mismatch naming the URL, the expected and the actual hash.
pub fn verify_download(url: &str, expected_sha256: &str, bytes: &[u8]) -> (r: Result<(), ExecuteError>)
    ensures
        hex_lower(sha256_digest(bytes@)) == expected_sha256@ ==> r is Ok,
        hex_lower(sha256_digest(bytes@)) != expected_sha256@ ==> (r matches Err(
            ExecuteError::HashMismatch { url: u, expected: e, actual: a },
        ) && u@ == url@ && e@ == expected_sha256@ && a@ == hex_lower(sha256_digest(bytes@))),
{
    let actual = sha256_hex(bytes);
    if compare_str_eq(actual.as_str(), expected_sha256) {
        Ok(())
    } else {
        Err(ExecuteError::HashMismatch { url: url.to_string(), expected: expected_sha256.to_string(), actual })
    }
}

/// The failure of a download answered with an unsuccessful HTTP status
/// (given as its text, such as `404 Not Found`).
pub fn http_status_failure(url: &str, status: &str) -> (r: ExecuteError)
    ensures
        r matches ExecuteError::FetchFailed { url: u, message: m } && u@ == url@ && m@ == "HTTP "@ + status@,
{
    let p = "HTTP ";
    proof {
        reveal_strlit("HTTP ");
    }
    ExecuteError::FetchFailed { url: url.to_string(), message: concat_str(p, status) }
}

/// `String::push` appends one character, as its documentation says.
pub assume_specification[ std::string::String::push ](s: &mut std::string::String, ch: char)
    ensures
        final(s)@ == old(s)@.push(ch),
;

/// A one-character string.
fn char_text(c: char) -> (r: String)
    ensures
        r@ == seq![c],
{
    let mut s = String::new();
    s.push(c);
    s
}

} // verus!
