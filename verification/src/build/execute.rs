//! Build completion markers and the decision to reuse a stored build.
//!
//! A successful build writes `.syslua-complete` into its directory, recording
//! the SHA-256 of its outputs. A stored build is reused only when the marker
//! is there and, if it records a hash, the outputs still hash to it.
use vstd::prelude::*;
use crate::execute::types::ExecuteError;

verus! {

/// Name of the completion marker file.
pub const BUILD_COMPLETE_MARKER: &'static str = ".syslua-complete";

/// Current marker format version.
pub const BUILD_MARKER_VERSION: u32 = 1;

/// The content of a completion marker.
#[derive(Debug, Clone, PartialEq)]
pub struct BuildMarker {
    /// Marker format version.
    pub version: u32,
    /// Build status (`complete` for successful builds).
    pub status: String,
    /// SHA-256 of the build outputs, in lowercase hex; absent in older markers.
    pub output_hash: Option<String>,
}

impl BuildMarker {
    /// The marker written after a successful build.
    pub fn complete(output_hash: String) -> (m: Self)
        ensures
            m.version == BUILD_MARKER_VERSION,
            m.status@ == "complete"@,
            m.output_hash == Some(output_hash),
    {
        let s = "complete";
        proof {
            reveal_strlit("complete");
        }
        BuildMarker { version: BUILD_MARKER_VERSION, status: s.to_owned(), output_hash: Some(output_hash) }
    }
}

/// Whether a build is complete, given the outcome of reading its marker:
/// only a marker that was read and parsed counts.
pub fn is_build_complete(marker: &Result<Option<BuildMarker>, ExecuteError>) -> (b: bool)
    ensures
        b == (marker matches Ok(Some(_))),
{
    match marker {
        Ok(Some(_)) => true,
        _ => false,
    }
}

/// Whether a stored build may be reused, given its marker and the hash its
/// outputs have now (`None` when hashing failed). A marker without a hash is
/// trusted; otherwise the hashes must agree.
pub fn verify_build_hash(marker: &BuildMarker, current_hash: Option<&str>) -> (b: bool)
    ensures
        b == (match marker.output_hash {
            None => true,
            Some(stored) => current_hash matches Some(c) && c@ == stored@,
        }),
{
    match &marker.output_hash {
        None => true,
        Some(stored) => match current_hash {
            Some(c) => crate::strmap::compare_str(c, stored.as_str()) == 0,
            None => false,
        },
    }
}

/// What to do with a build directory before realizing a build.
#[derive(Debug, Clone, Copy, PartialEq, Eq)]
pub enum CacheDecision {
    /// Reuse the stored outputs.
    Reuse,
    /// Remove the directory, then build.
    RemoveAndBuild,
    /// Build into a fresh directory.
    Build,
}

/// Decides whether a stored build is reused: with no directory, build; with a
/// readable marker whose hash checks out, reuse; otherwise (no marker, an
/// unreadable one, or a hash mismatch) remove the directory and build again.
pub fn cache_decision(dir_exists: bool, marker: &Result<Option<BuildMarker>, ExecuteError>, current_hash: Option<&str>) -> (d: CacheDecision)
    ensures
        d == (if !dir_exists {
            CacheDecision::Build
        } else {
            match marker {
                Ok(Some(m)) => if (match m.output_hash {
                    None => true,
                    Some(stored) => current_hash matches Some(c) && c@ == stored@,
                }) {
                    CacheDecision::Reuse
                } else {
                    CacheDecision::RemoveAndBuild
                },
                _ => CacheDecision::RemoveAndBuild,
            }
        }),
{
    if !dir_exists {
        return CacheDecision::Build;
    }
    match marker {
        Ok(Some(m)) => {
            if verify_build_hash(m, current_hash) {
                CacheDecision::Reuse
            } else {
                CacheDecision::RemoveAndBuild
            }
        },
        _ => CacheDecision::RemoveAndBuild,
    }
}

} // verus!
