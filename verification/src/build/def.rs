//! The decisions made while a build is defined: what its `create` function
//! returned, and whether it joins the manifest.
use vstd::prelude::*;
use crate::strmap::StrMap;
use crate::outputs::{ReturnedOutputs, parse_outputs, outputs_error};
use crate::lua::value::entry_values;
use crate::bind::def::{first_other_with_id, find_other_with_id};
use crate::text::concat_str;

verus! {

/// The outputs of a build, from what its `create` returned: a build must
/// return a table with at least one output.
pub fn build_create_outputs(returned: ReturnedOutputs) -> (r: Result<StrMap<String>, String>)
    ensures
        match returned {
            ReturnedOutputs::Table(ps) => match outputs_error(ps@) {
                Some(e) => r matches Err(x) && x@ == e,
                None => if entry_values(ps@).len() == 0 {
                    r matches Err(x) && x@ == "build create must return a non-empty outputs table"@
                } else {
                    r matches Ok(m) && m.wf() && m@ == entry_values(ps@)
                },
            },
            ReturnedOutputs::Nil => r matches Err(x) && x@ == "build create must return a non-empty outputs table, got nil"@,
            ReturnedOutputs::Other(_) => r matches Err(x) && x@ == "build create must return a table of outputs"@,
        },
{
    match returned {
        ReturnedOutputs::Table(ps) => {
            let m = parse_outputs(ps)?;
            if m.is_empty() {
                Err("build create must return a non-empty outputs table".to_string())
            } else {
                Ok(m)
            }
        },
        ReturnedOutputs::Nil => Err("build create must return a non-empty outputs table, got nil".to_string()),
        ReturnedOutputs::Other(_) => Err("build create must return a table of outputs".to_string()),
    }
}

/// How a newly defined build joins the manifest.
#[derive(Debug, PartialEq, Eq)]
pub enum BuildRegistration {
    /// A build with the same hash is there already: nothing changes.
    Duplicate,
    /// The build is added, after removing the build that had its id, if any.
    Insert { replaced: Option<String> },
}

/// The message of a build id already taken, where replacing was not asked for.
pub open spec fn build_id_taken_message(id: Seq<char>, existing: Seq<char>) -> Seq<char> {
    "build with id '"@ + id + "' already exists (hash: "@ + existing
        + "). Use `replace = true` to override, or use a different id. This error prevents accidental collisions."@
}

/// Whether a build defined with `hash`, `id` and `replace` joins the
/// manifest, given the ids of the builds already there (by hash): a build
/// with the same hash makes it a duplicate; a build with its id is replaced
/// where `replace` is asked for, else it is an error.
pub fn plan_build_registration(ids: &StrMap<Option<String>>, hash: &str, id: Option<&str>, replace: bool) -> (r: Result<BuildRegistration, String>)
    requires
        ids.wf(),
    ensures
        ids@.dom().contains(hash@) ==> r == Ok::<BuildRegistration, String>(BuildRegistration::Duplicate),
        !ids@.dom().contains(hash@) ==> match id {
            None => r == Ok::<BuildRegistration, String>(BuildRegistration::Insert { replaced: None }),
            Some(b) => match first_other_with_id(ids.keys(), ids@, b@, hash@) {
                None => r == Ok::<BuildRegistration, String>(BuildRegistration::Insert { replaced: None }),
                Some(h) => if replace {
                    r matches Ok(BuildRegistration::Insert { replaced: Some(x) }) && x@ == h
                } else {
                    r matches Err(e) && e@ == build_id_taken_message(b@, h)
                },
            },
        },
{
    if ids.contains_key(hash) {
        return Ok(BuildRegistration::Duplicate);
    }
    match id {
        None => Ok(BuildRegistration::Insert { replaced: None }),
        Some(b) => match find_other_with_id(ids, b, hash) {
            None => Ok(BuildRegistration::Insert { replaced: None }),
            Some(h) => {
                if replace {
                    Ok(BuildRegistration::Insert { replaced: Some(h) })
                } else {
                    let s = concat_str("build with id '", b);
                    let s = concat_str(s.as_str(), "' already exists (hash: ");
                    let s = concat_str(s.as_str(), h.as_str());
                    Err(concat_str(
                        s.as_str(),
                        "). Use `replace = true` to override, or use a different id. This error prevents accidental collisions.",
                    ))
                }
            },
        },
    }
}

} // verus!
