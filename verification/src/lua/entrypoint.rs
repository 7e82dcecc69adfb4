//! The inputs an entrypoint declares.
//!
//! An entrypoint returns a table whose `inputs` field maps names to
//! declarations, each either a URL string or a table with a `url` and the
//! `inputs` that override its transitive inputs:
//!
//! ```lua
//! return {
//!   inputs = {
//!     utils = "git:https://github.com/org/utils.git",
//!     pkgs = {
//!       url = "git:https://github.com/org/pkgs.git",
//!       inputs = { utils = { follows = "utils" } },
//!     },
//!   },
//! }
//! ```
use vstd::prelude::*;
use crate::strmap::StrMap;
use crate::inputs::types::InputDecl;
use crate::lua::value::{ReturnedValue, NamedTable, Dialect, parse_decls, decls_error, decls_built};

verus! {

/// The input declarations of an entrypoint, from what it returned: none
/// where it has no `inputs`, an error where it returned no table or its
/// `inputs` is no table, else its declarations parsed.
pub fn extract_input_decls(returned: ReturnedValue) -> (r: Result<StrMap<InputDecl>, String>)
    ensures
        match returned {
            ReturnedValue::Other => r matches Err(e) && e@ == "entrypoint must return a table"@,
            ReturnedValue::Table(Err(e)) => r matches Err(x) && x@ == e@,
            ReturnedValue::Table(Ok(NamedTable::Nil)) => r matches Ok(m) && m.wf() && m@ == Map::<Seq<char>, InputDecl>::empty(),
            ReturnedValue::Table(Ok(NamedTable::Table(ps))) => match r {
                Ok(m) => decls_error(Dialect::Entrypoint, ps@) is None && m.wf() && decls_built(ps@, m@),
                Err(e) => decls_error(Dialect::Entrypoint, ps@) == Some(e@),
            },
            ReturnedValue::Table(Ok(NamedTable::Other)) => r matches Err(e) && e@ == "inputs must be a table"@,
        },
{
    match returned {
        ReturnedValue::Other => Err("entrypoint must return a table".to_string()),
        ReturnedValue::Table(inputs) => match inputs {
            Err(e) => Err(e),
            Ok(field) => match field {
                NamedTable::Nil => Ok(StrMap::new()),
                NamedTable::Table(ps) => parse_decls(Dialect::Entrypoint, ps),
                NamedTable::Other => Err("inputs must be a table".to_string()),
            },
        },
    }
}

} // verus!
