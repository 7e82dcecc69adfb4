//! Input URLs: `git:<url>[#<rev>]` for a git repository, optionally pinned to a
//! revision, and `path:<path>` for a local directory.
use vstd::prelude::*;
use crate::text::{has_prefix, starts_with, first_index_of, find_first_char, char_len, char_substring};

verus! {

/// Where an input comes from.
#[derive(Debug, Clone, PartialEq, Eq)]
pub enum InputSource {
    /// A git repository and an optional revision (tag, branch or commit).
    Git { url: String, rev: Option<String> },
    /// A local directory.
    Path { path: String },
}

/// Errors of URL parsing.
#[derive(Debug, Clone, PartialEq, Eq)]
pub enum ParseError {
    /// The URL has neither the `git:` nor the `path:` prefix.
    UnknownScheme(String),
}

/// The text before the first `c`, or all of it.
pub open spec fn before_char(s: Seq<char>, c: char) -> Seq<char> {
    if first_index_of(s, c) < 0 {
        s
    } else {
        s.take(first_index_of(s, c))
    }
}

/// The parse of an input URL.
pub open spec fn spec_parse(url: Seq<char>) -> Result<(bool, Seq<char>, Option<Seq<char>>), ()> {
    if has_prefix(url, "git:"@) {
        let rest = url.skip(4);
        let i = first_index_of(rest, '#');
        if i < 0 {
            Ok((true, rest, None))
        } else {
            Ok((true, rest.take(i), Some(rest.skip(i + 1))))
        }
    } else if has_prefix(url, "path:"@) {
        Ok((false, url.skip(5), None))
    } else {
        Err(())
    }
}

/// Whether a source is what `spec_parse` gives for a URL.
pub open spec fn parses_to(url: Seq<char>, s: InputSource) -> bool {
    match s {
        InputSource::Git { url: u, rev } => spec_parse(url) == Ok::<(bool, Seq<char>, Option<Seq<char>>), ()>((
            true,
            u@,
            match rev {
                Some(r) => Some(r@),
                None => None,
            },
        )),
        InputSource::Path { path } => spec_parse(url) == Ok::<(bool, Seq<char>, Option<Seq<char>>), ()>((false, path@, None)),
    }
}

/// Parses an input URL.
pub fn parse(url: &str) -> (r: Result<InputSource, ParseError>)
    ensures
        match r {
            Ok(s) => parses_to(url@, s),
            Err(ParseError::UnknownScheme(u)) => spec_parse(url@) is Err && u@ == url@,
        },
{
    let git = "git:";
    let path = "path:";
    proof {
        reveal_strlit("git:");
        reveal_strlit("path:");
        crate::text::lemma_first_index_of(url@.skip(4), '#');
    }
    let n = char_len(url);
    if starts_with(url, git) {
        let rest = char_substring(url, 4, n);
        proof {
            assert(rest@ =~= url@.skip(4));
            crate::text::lemma_first_index_of(rest@, '#');
        }
        let m = char_len(rest.as_str());
        match find_first_char(rest.as_str(), '#') {
            Some(i) => {
                let u = char_substring(rest.as_str(), 0, i);
                let v = char_substring(rest.as_str(), i + 1, m);
                proof {
                    assert(u@ =~= rest@.take(i as int));
                    assert(v@ =~= rest@.skip(i + 1));
                }
                Ok(InputSource::Git { url: u, rev: Some(v) })
            },
            None => Ok(InputSource::Git { url: rest, rev: None }),
        }
    } else if starts_with(url, path) {
        let rest = char_substring(url, 5, n);
        proof {
            assert(rest@ =~= url@.skip(5));
        }
        Ok(InputSource::Path { path: rest })
    } else {
        Err(ParseError::UnknownScheme(url.to_owned()))
    }
}

/// The type name of a source: `git` or `path`.
pub fn source_type(s: &InputSource) -> (r: &'static str)
    ensures
        r@ == (match s {
            InputSource::Git { .. } => "git"@,
            InputSource::Path { .. } => "path"@,
        }),
{
    match s {
        InputSource::Git { .. } => "git",
        InputSource::Path { .. } => "path",
    }
}

} // verus!
