//! The values input declarations are read from, and their parsers.
//!
//! A Lua file states its inputs as a table. What the parsers read of it is
//! held here as plain values: a string, a table with the fields they look up,
//! or any other value. Where reading a string out of Lua failed, the value
//! holds the message of that failure, and the parser hands it on.
use vstd::prelude::*;
use crate::strmap::StrMap;
use crate::inputs::types::{InputDecl, InputOverride};
use crate::text::concat_str;

verus! {

/// The value given for one override of a transitive input.
pub enum OverrideValue {
    /// A string (`Err`: the message of a string that could not be read).
    Text(Result<String, String>),
    /// A table, with what reading its `follows` and `url` fields as optional
    /// strings gave.
    Table { follows: Result<Option<String>, String>, url: Result<Option<String>, String> },
    /// Any other value.
    Other,
}

/// A field that should hold a table of named entries.
pub enum NamedTable<T> {
    /// The field is absent.
    Nil,
    /// A table: its entries in the order they were walked (`Err`: the message
    /// of an entry whose key or value could not be read).
    Table(Vec<Result<(String, T), String>>),
    /// Any other value.
    Other,
}

/// The value given for one input declaration.
pub enum DeclValue {
    /// A string URL (`Err`: the message of a string that could not be read).
    Text(Result<String, String>),
    /// A table, with what reading its `url` and `inputs` fields gave.
    Table { url: Result<Option<String>, String>, inputs: Result<NamedTable<OverrideValue>, String> },
    /// Any other value.
    Other,
}

/// What a Lua file returned.
pub enum ReturnedValue {
    /// A table, with what reading its `inputs` field gave.
    Table(Result<NamedTable<DeclValue>, String>),
    /// Any other value.
    Other,
}

/// The file the declarations come from; the parsers word some of their
/// errors differently.
#[derive(Clone, Copy, PartialEq, Eq, Structural)]
pub enum Dialect {
    /// An entrypoint read for its declarations alone.
    Entrypoint,
    /// An input's own `init.lua`.
    Dependency,
    /// The configuration being evaluated: an error in an override names the
    /// input it belongs to.
    Config,
}

/// The entries by key; a later entry under a key replaces an earlier one.
pub open spec fn entry_values<T>(ps: Seq<Result<(String, T), String>>) -> Map<Seq<char>, T>
    decreases ps.len(),
{
    if ps.len() == 0 {
        Map::empty()
    } else {
        match ps.last() {
            Ok(p) => entry_values(ps.drop_last()).insert(p.0@, p.1),
            Err(_) => entry_values(ps.drop_last()),
        }
    }
}

/// A message about an override of the input `parent`, which the
/// configuration's parser prefixes with that input.
pub open spec fn in_input_message(d: Dialect, parent: Seq<char>, msg: Seq<char>) -> Seq<char> {
    match d {
        Dialect::Config => "input '"@ + parent + "': "@ + msg,
        _ => msg,
    }
}

pub open spec fn override_fields_message(d: Dialect, parent: Seq<char>, name: Seq<char>) -> Seq<char> {
    in_input_message(d, parent, "override '"@ + name + "' must have either 'url' or 'follows' field"@)
}

pub open spec fn override_kind_message(d: Dialect, parent: Seq<char>, name: Seq<char>) -> Seq<char> {
    match d {
        Dialect::Dependency => "override '"@ + name + "' must be a string URL or a table"@,
        _ => in_input_message(d, parent, "override '"@ + name + "' must be a string URL or a table with 'url' or 'follows'"@),
    }
}

pub open spec fn inputs_field_message(name: Seq<char>) -> Seq<char> {
    "input '"@ + name + "': inputs field must be a table"@
}

pub open spec fn decl_kind_message(d: Dialect, name: Seq<char>) -> Seq<char> {
    match d {
        Dialect::Dependency => "input '"@ + name + "' must be a string or table"@,
        _ => "input '"@ + name + "' must be a string URL or a table"@,
    }
}

/// The error of parsing an override, if it has one. A table is read for
/// `follows` first; `url` is read only where `follows` is absent.
pub open spec fn override_error(d: Dialect, parent: Seq<char>, name: Seq<char>, v: OverrideValue) -> Option<Seq<char>> {
    match v {
        OverrideValue::Text(t) => match t {
            Ok(_) => None,
            Err(e) => Some(e@),
        },
        OverrideValue::Table { follows, url } => match follows {
            Err(e) => Some(e@),
            Ok(Some(_)) => None,
            Ok(None) => match url {
                Err(e) => Some(e@),
                Ok(Some(_)) => None,
                Ok(None) => Some(override_fields_message(d, parent, name)),
            },
        },
        OverrideValue::Other => Some(override_kind_message(d, parent, name)),
    }
}

/// The override parsed from a value without error: a string is a URL, a
/// table's `follows` wins over its `url`.
pub open spec fn override_built(v: OverrideValue, o: InputOverride) -> bool {
    match v {
        OverrideValue::Text(Ok(s)) => o == InputOverride::Url(s),
        OverrideValue::Table { follows: Ok(Some(f)), .. } => o == InputOverride::Follows(f),
        OverrideValue::Table { follows: Ok(None), url: Ok(Some(u)) } => o == InputOverride::Url(u),
        _ => false,
    }
}

/// The first error met walking a table of overrides of the input `parent` in order.
pub open spec fn overrides_error(d: Dialect, parent: Seq<char>, ps: Seq<Result<(String, OverrideValue), String>>) -> Option<Seq<char>>
    decreases ps.len(),
{
    if ps.len() == 0 {
        None
    } else {
        match overrides_error(d, parent, ps.drop_last()) {
            Some(e) => Some(e),
            None => match ps.last() {
                Ok(p) => override_error(d, parent, p.0@, p.1),
                Err(e) => Some(e@),
            },
        }
    }
}

/// The overrides parsed from a table: one for each key, from its last entry.
pub open spec fn overrides_built(ps: Seq<Result<(String, OverrideValue), String>>, m: Map<Seq<char>, InputOverride>) -> bool {
    &&& m.dom() == entry_values(ps).dom()
    &&& forall|k: Seq<char>| #[trigger] m.dom().contains(k) ==> override_built(entry_values(ps)[k], m[k])
}

/// The error of an `inputs` field of a declaration, if it has one.
pub open spec fn inputs_error(d: Dialect, name: Seq<char>, f: NamedTable<OverrideValue>) -> Option<Seq<char>> {
    match f {
        NamedTable::Nil => None,
        NamedTable::Table(ps) => overrides_error(d, name, ps@),
        NamedTable::Other => Some(inputs_field_message(name)),
    }
}

/// The error of parsing a declaration, if it has one. A table is read for
/// `url` first, then for `inputs`.
pub open spec fn decl_error(d: Dialect, name: Seq<char>, v: DeclValue) -> Option<Seq<char>> {
    match v {
        DeclValue::Text(t) => match t {
            Ok(_) => None,
            Err(e) => Some(e@),
        },
        DeclValue::Table { url, inputs } => match url {
            Err(e) => Some(e@),
            Ok(_) => match inputs {
                Err(e) => Some(e@),
                Ok(f) => inputs_error(d, name, f),
            },
        },
        DeclValue::Other => Some(decl_kind_message(d, name)),
    }
}

/// The declaration parsed from a value without error: a string is a plain
/// URL; a table gives its URL and its overrides (none where `inputs` is absent).
pub open spec fn decl_built(v: DeclValue, r: InputDecl) -> bool {
    match v {
        DeclValue::Text(Ok(s)) => r == InputDecl::Url(s),
        DeclValue::Table { url: Ok(u), inputs: Ok(f) } => match r {
            InputDecl::Extended { url: ru, inputs: m } => {
                &&& ru == u
                &&& m.wf()
                &&& match f {
                    NamedTable::Nil => m@ == Map::<Seq<char>, InputOverride>::empty(),
                    NamedTable::Table(ps) => overrides_built(ps@, m@),
                    NamedTable::Other => false,
                }
            },
            InputDecl::Url(_) => false,
        },
        _ => false,
    }
}

/// The first error met walking a table of declarations in order.
pub open spec fn decls_error(d: Dialect, ps: Seq<Result<(String, DeclValue), String>>) -> Option<Seq<char>>
    decreases ps.len(),
{
    if ps.len() == 0 {
        None
    } else {
        match decls_error(d, ps.drop_last()) {
            Some(e) => Some(e),
            None => match ps.last() {
                Ok(p) => decl_error(d, p.0@, p.1),
                Err(e) => Some(e@),
            },
        }
    }
}

/// The declarations parsed from a table: one for each key, from its last entry.
pub open spec fn decls_built(ps: Seq<Result<(String, DeclValue), String>>, m: Map<Seq<char>, InputDecl>) -> bool {
    &&& m.dom() == entry_values(ps).dom()
    &&& forall|k: Seq<char>| #[trigger] m.dom().contains(k) ==> decl_built(entry_values(ps)[k], m[k])
}

proof fn lemma_overrides_error_prefix(d: Dialect, parent: Seq<char>, ps: Seq<Result<(String, OverrideValue), String>>, j: int)
    requires
        0 <= j <= ps.len(),
        overrides_error(d, parent, ps.take(j)) is Some,
    ensures
        overrides_error(d, parent, ps) == overrides_error(d, parent, ps.take(j)),
    decreases ps.len() - j,
{
    if j < ps.len() {
        assert(ps.take(j + 1).drop_last() =~= ps.take(j));
        lemma_overrides_error_prefix(d, parent, ps, j + 1);
    } else {
        assert(ps.take(j) =~= ps);
    }
}

proof fn lemma_decls_error_prefix(d: Dialect, ps: Seq<Result<(String, DeclValue), String>>, j: int)
    requires
        0 <= j <= ps.len(),
        decls_error(d, ps.take(j)) is Some,
    ensures
        decls_error(d, ps) == decls_error(d, ps.take(j)),
    decreases ps.len() - j,
{
    if j < ps.len() {
        assert(ps.take(j + 1).drop_last() =~= ps.take(j));
        lemma_decls_error_prefix(d, ps, j + 1);
    } else {
        assert(ps.take(j) =~= ps);
    }
}

/// `pre`, then `name`, then `post`.
fn framed(pre: &str, name: &str, post: &str) -> (r: String)
    ensures
        r@ == pre@ + name@ + post@,
{
    let s = concat_str(pre, name);
    concat_str(s.as_str(), post)
}

/// A message about an override of the input `parent` (see `in_input_message`).
fn in_input(dialect: Dialect, parent: &str, msg: String) -> (r: String)
    ensures
        r@ == in_input_message(dialect, parent@, msg@),
{
    match dialect {
        Dialect::Config => {
            let head = framed("input '", parent, "': ");
            concat_str(head.as_str(), msg.as_str())
        },
        _ => msg,
    }
}

/// Parses the value given for the override `name` of the input `parent`.
pub fn parse_override(dialect: Dialect, parent: &str, name: &str, value: OverrideValue) -> (r: Result<InputOverride, String>)
    ensures
        match r {
            Ok(o) => override_error(dialect, parent@, name@, value) is None && override_built(value, o),
            Err(e) => override_error(dialect, parent@, name@, value) == Some(e@),
        },
{
    match value {
        OverrideValue::Text(t) => match t {
            Ok(s) => Ok(InputOverride::Url(s)),
            Err(e) => Err(e),
        },
        OverrideValue::Table { follows, url } => match follows {
            Err(e) => Err(e),
            Ok(Some(f)) => Ok(InputOverride::Follows(f)),
            Ok(None) => match url {
                Err(e) => Err(e),
                Ok(Some(u)) => Ok(InputOverride::Url(u)),
                Ok(None) => Err(in_input(dialect, parent, framed("override '", name, "' must have either 'url' or 'follows' field"))),
            },
        },
        OverrideValue::Other => match dialect {
            Dialect::Dependency => Err(framed("override '", name, "' must be a string URL or a table")),
            _ => Err(in_input(dialect, parent, framed("override '", name, "' must be a string URL or a table with 'url' or 'follows'"))),
        },
    }
}
/// Parses a table of overrides of the input `parent`, walking its entries
/// in order and stopping at the first error.
pub fn parse_overrides(dialect: Dialect, parent: &str, pairs: Vec<Result<(String, OverrideValue), String>>) -> (r: Result<StrMap<InputOverride>, String>)
    ensures
        match r {
            Ok(m) => overrides_error(dialect, parent@, pairs@) is None && m.wf() && overrides_built(pairs@, m@),
            Err(e) => overrides_error(dialect, parent@, pairs@) == Some(e@),
        },
{
    let ghost ps = pairs@;
    let total = pairs.len();
    let mut rest = pairs;
    let mut m: StrMap<InputOverride> = StrMap::new();
    let mut i: usize = 0;
    proof {
        assert(ps.take(0) =~= Seq::<Result<(String, OverrideValue), String>>::empty());
        assert(rest@ =~= ps.skip(0));
    }
    while rest.len() > 0
        invariant
            ps == pairs@,
            total == ps.len(),
            i <= ps.len(),
            rest@ == ps.skip(i as int),
            m.wf(),
            overrides_error(dialect, parent@, ps.take(i as int)) is None,
            overrides_built(ps.take(i as int), m@),
        decreases rest@.len(),
    {
        let item = rest.remove(0);
        proof {
            assert(ps.take(i + 1).drop_last() =~= ps.take(i as int));
            assert(ps.take(i + 1).last() == item);
            assert(rest@ =~= ps.skip(i + 1));
        }
        match item {
            Err(e) => {
                proof {
                    lemma_overrides_error_prefix(dialect, parent@, ps, i + 1);
                }
                return Err(e);
            },
            Ok(p) => {
                let (k, v) = p;
                match parse_override(dialect, parent, k.as_str(), v) {
                    Err(e) => {
                        proof {
                            lemma_overrides_error_prefix(dialect, parent@, ps, i + 1);
                        }
                        return Err(e);
                    },
                    Ok(o) => {
                        let ghost before = m@;
                        m.insert(k, o);
                        proof {
                            let ev = entry_values(ps.take(i + 1));
                            assert(ev == entry_values(ps.take(i as int)).insert(k@, v));
                            assert(m@.dom() =~= ev.dom());
                            assert forall|x: Seq<char>| #[trigger] m@.dom().contains(x) implies override_built(ev[x], m@[x]) by {
                                if x != k@ {
                                    assert(before.dom().contains(x));
                                }
                            }
                        }
                    },
                }
            },
        }
        i = i + 1;
    }
    proof {
        assert(ps.take(i as int) =~= ps);
    }
    Ok(m)
}

/// Parses the value given for one input declaration.
pub fn parse_decl(dialect: Dialect, name: &str, value: DeclValue) -> (r: Result<InputDecl, String>)
    ensures
        match r {
            Ok(x) => decl_error(dialect, name@, value) is None && decl_built(value, x),
            Err(e) => decl_error(dialect, name@, value) == Some(e@),
        },
{
    match value {
        DeclValue::Text(t) => match t {
            Ok(s) => Ok(InputDecl::Url(s)),
            Err(e) => Err(e),
        },
        DeclValue::Table { url, inputs } => {
            let url = match url {
                Ok(u) => u,
                Err(e) => return Err(e),
            };
            let field = match inputs {
                Ok(f) => f,
                Err(e) => return Err(e),
            };
            let overrides = match field {
                NamedTable::Nil => StrMap::new(),
                NamedTable::Table(ps) => match parse_overrides(dialect, name, ps) {
                    Ok(m) => m,
                    Err(e) => return Err(e),
                },
                NamedTable::Other => return Err(framed("input '", name, "': inputs field must be a table")),
            };
            Ok(InputDecl::Extended { url, inputs: overrides })
        },
        DeclValue::Other => match dialect {
            Dialect::Dependency => Err(framed("input '", name, "' must be a string or table")),
            _ => Err(framed("input '", name, "' must be a string URL or a table")),
        },
    }
}

/// Parses a table of input declarations, walking its entries in order and
/// stopping at the first error.
pub fn parse_decls(dialect: Dialect, pairs: Vec<Result<(String, DeclValue), String>>) -> (r: Result<StrMap<InputDecl>, String>)
    ensures
        match r {
            Ok(m) => decls_error(dialect, pairs@) is None && m.wf() && decls_built(pairs@, m@),
            Err(e) => decls_error(dialect, pairs@) == Some(e@),
        },
{
    let ghost ps = pairs@;
    let total = pairs.len();
    let mut rest = pairs;
    let mut m: StrMap<InputDecl> = StrMap::new();
    let mut i: usize = 0;
    proof {
        assert(ps.take(0) =~= Seq::<Result<(String, DeclValue), String>>::empty());
        assert(rest@ =~= ps.skip(0));
    }
    while rest.len() > 0
        invariant
            ps == pairs@,
            total == ps.len(),
            i <= ps.len(),
            rest@ == ps.skip(i as int),
            m.wf(),
            decls_error(dialect, ps.take(i as int)) is None,
            decls_built(ps.take(i as int), m@),
        decreases rest@.len(),
    {
        let item = rest.remove(0);
        proof {
            assert(ps.take(i + 1).drop_last() =~= ps.take(i as int));
            assert(ps.take(i + 1).last() == item);
            assert(rest@ =~= ps.skip(i + 1));
        }
        match item {
            Err(e) => {
                proof {
                    lemma_decls_error_prefix(dialect, ps, i + 1);
                }
                return Err(e);
            },
            Ok(p) => {
                let (k, v) = p;
                match parse_decl(dialect, k.as_str(), v) {
                    Err(e) => {
                        proof {
                            lemma_decls_error_prefix(dialect, ps, i + 1);
                        }
                        return Err(e);
                    },
                    Ok(d) => {
                        let ghost before = m@;
                        m.insert(k, d);
                        proof {
                            let ev = entry_values(ps.take(i + 1));
                            assert(ev == entry_values(ps.take(i as int)).insert(k@, v));
                            assert(m@.dom() =~= ev.dom());
                            assert forall|x: Seq<char>| #[trigger] m@.dom().contains(x) implies decl_built(ev[x], m@[x]) by {
                                if x != k@ {
                                    assert(before.dom().contains(x));
                                }
                            }
                        }
                    },
                }
            },
        }
        i = i + 1;
    }
    proof {
        assert(ps.take(i as int) =~= ps);
    }
    Ok(m)
}
} // verus!
