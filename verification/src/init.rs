//! Scaffolding of a configuration directory, and the `.luarc.json` library
//! list that points the Lua language server at the types and the inputs.
use vstd::prelude::*;
use crate::text::{has_prefix, starts_with, path_join, join_path};
use crate::json::{JsonValue, field_index, field_set, find_field, set_field, json_parse, json_pretty, json_parse_of, json_pretty_of, lemma_field_index, lemma_field_index_same_names, lemma_field_set_transfer};

verus! {

/// Errors of initialization.
#[derive(Debug)]
pub enum InitError {
    /// `init.lua` or `.luarc.json` exists already.
    PathExists { path: String },
    /// A directory could not be created.
    CreateDir { path: String, message: String },
    /// A file could not be written.
    WriteFile { path: String, message: String },
    /// The configuration directory could not be canonicalized.
    Canonicalize { path: String, message: String },
}

/// Options of initialization.
#[derive(Debug, Clone)]
pub struct InitOptions {
    /// The configuration directory to create.
    pub config_path: String,
    /// Whether the system store is used (else the user's).
    pub system: bool,
}

/// The paths an initialization created.
#[derive(Debug, Clone, PartialEq)]
pub struct InitResult {
    /// The configuration directory, canonicalized.
    pub config_dir: String,
    /// Its `init.lua`.
    pub init_lua: String,
    /// Its `.luarc.json`.
    pub luarc_json: String,
    /// The type definitions directory.
    pub types_dir: String,
    /// The store directory.
    pub store_dir: String,
}

/// The layout of an initialization: the config files under the (canonical)
/// configuration directory, and `store` and `types` under the base directory
/// (the root directory for the system store, else the data directory).
pub fn init_layout(config_dir: &str, base_dir: &str) -> (r: InitResult)
    ensures
        r.config_dir@ == config_dir@,
        r.init_lua@ == path_join(config_dir@, "init.lua"@),
        r.luarc_json@ == path_join(config_dir@, ".luarc.json"@),
        r.store_dir@ == path_join(base_dir@, "store"@),
        r.types_dir@ == path_join(base_dir@, "types"@),
{
    let init = "init.lua";
    let luarc = ".luarc.json";
    let store = "store";
    let types = "types";
    proof {
        reveal_strlit("init.lua");
        reveal_strlit(".luarc.json");
        reveal_strlit("store");
        reveal_strlit("types");
    }
    InitResult {
        config_dir: config_dir.to_owned(),
        init_lua: join_path(config_dir, init),
        luarc_json: join_path(config_dir, luarc),
        types_dir: join_path(base_dir, types),
        store_dir: join_path(base_dir, store),
    }
}

/// Refuses to initialize over existing configuration files: `init.lua` is
/// checked first, then `.luarc.json`.
pub fn check_no_existing_files(layout: &InitResult, init_lua_exists: bool, luarc_exists: bool) -> (r: Result<(), InitError>)
    ensures
        r is Ok <==> !init_lua_exists && !luarc_exists,
        init_lua_exists ==> (r matches Err(InitError::PathExists { path }) && path@ == layout.init_lua@),
        !init_lua_exists && luarc_exists ==> (r matches Err(InitError::PathExists { path }) && path@ == layout.luarc_json@),
{
    if init_lua_exists {
        return Err(InitError::PathExists { path: layout.init_lua.clone() });
    }
    if luarc_exists {
        return Err(InitError::PathExists { path: layout.luarc_json.clone() });
    }
    Ok(())
}

/// Whether an entry of `workspace.library` is one of ours: a string under the
/// types directory or the inputs cache. Other entries, strings or not, belong
/// to the user.
pub open spec fn is_managed(e: JsonValue, types_prefix: Seq<char>, cache_prefix: Seq<char>) -> bool {
    e matches JsonValue::Str(p) && (has_prefix(p@, types_prefix) || has_prefix(p@, cache_prefix))
}

/// The user's entries of a library list, in order.
pub open spec fn user_entries(entries: Seq<JsonValue>, types_prefix: Seq<char>, cache_prefix: Seq<char>) -> Seq<JsonValue>
    decreases entries.len(),
{
    if entries.len() == 0 {
        Seq::empty()
    } else {
        let rest = user_entries(entries.drop_last(), types_prefix, cache_prefix);
        if is_managed(entries.last(), types_prefix, cache_prefix) {
            rest
        } else {
            rest.push(entries.last())
        }
    }
}

/// `lib` is the new library list: the types directory, then each input path,
/// then the user's old entries in their order (ours are dropped, so that
/// inputs no longer used disappear).
pub open spec fn is_planned_library(
    lib: Seq<JsonValue>,
    old: Seq<JsonValue>,
    types_prefix: Seq<char>,
    cache_prefix: Seq<char>,
    input_paths: Seq<String>,
) -> bool {
    let n = input_paths.len();
    &&& lib.len() == 1 + n + user_entries(old, types_prefix, cache_prefix).len()
    &&& lib[0] matches JsonValue::Str(t) && t@ == types_prefix
    &&& forall|i: int| 0 <= i < n ==> #[trigger] lib[1 + i] == JsonValue::Str(input_paths[i])
    &&& lib.subrange(1 + n as int, lib.len() as int) == user_entries(old, types_prefix, cache_prefix)
}

/// The fields of the object under `workspace`; none where that field is
/// absent or not an object.
pub open spec fn workspace_fields(ps: Seq<(String, JsonValue)>) -> Seq<(String, JsonValue)> {
    let i = field_index(ps, "workspace"@);
    if i >= 0 {
        match ps[i].1 {
            JsonValue::Object(ws) => ws@,
            _ => Seq::empty(),
        }
    } else {
        Seq::empty()
    }
}

/// The entries of `workspace.library`; none where the value is not an object,
/// or a level is absent or of another kind.
pub open spec fn old_library(v: JsonValue) -> Seq<JsonValue> {
    match v {
        JsonValue::Object(ps) => {
            let ws = workspace_fields(ps@);
            let j = field_index(ws, "library"@);
            if j >= 0 {
                match ws[j].1 {
                    JsonValue::Array(a) => a@,
                    _ => Seq::empty(),
                }
            } else {
                Seq::empty()
            }
        },
        _ => Seq::empty(),
    }
}

/// Whether `workspace.library` can be set: the value is an object whose
/// `workspace` is absent or an object.
pub open spec fn library_settable(v: JsonValue) -> bool {
    match v {
        JsonValue::Object(ps) => {
            let i = field_index(ps@, "workspace"@);
            i < 0 || ps@[i].1 is Object
        },
        _ => false,
    }
}

/// `nv` is `v` with `workspace.library` set to an array of `lib`: the
/// `workspace` object gets the field (in place of an old one, or added at its
/// end), and is added at the end of `v` where it is absent; nothing else
/// changes.
pub open spec fn library_set(v: JsonValue, lib: Seq<JsonValue>, nv: JsonValue) -> bool {
    match v {
        JsonValue::Object(ps) => nv matches JsonValue::Object(qs) && field_set(
            ps@,
            "workspace"@,
            qs@,
            |w: JsonValue|
                w matches JsonValue::Object(ws) && field_set(
                    workspace_fields(ps@),
                    "library"@,
                    ws@,
                    |l: JsonValue| l matches JsonValue::Array(a) && a@ == lib,
                ),
        ),
        _ => false,
    }
}

/// Whether `workspace.library` can be set in a value (see `library_settable`).
pub fn workspace_library_settable(v: &JsonValue) -> (b: bool)
    ensures
        b == library_settable(*v),
{
    match v {
        JsonValue::Object(ps) => {
            let w = "workspace";
            proof {
                reveal_strlit("workspace");
                lemma_field_index(ps@, w@);
            }
            match find_field(ps, w) {
                None => true,
                Some(i) => match &ps[i].1 {
                    JsonValue::Object(_) => true,
                    _ => false,
                },
            }
        },
        _ => false,
    }
}

/// Takes the entries of `workspace.library` out of a value; the value left
/// sets its library as the first one would.
fn take_workspace_library(v: JsonValue) -> (r: (JsonValue, Vec<JsonValue>))
    ensures
        r.1@ == old_library(v),
        library_settable(r.0) == library_settable(v),
        forall|lib: Seq<JsonValue>, nv: JsonValue| #[trigger] library_set(r.0, lib, nv) ==> library_set(v, lib, nv),
{
    let ghost v0 = v;
    let w = "workspace";
    let l = "library";
    proof {
        reveal_strlit("workspace");
        reveal_strlit("library");
    }
    match v {
        JsonValue::Object(mut ps) => {
            let ghost ps0 = ps@;
            proof {
                lemma_field_index(ps0, w@);
            }
            match find_field(&ps, w) {
                None => (JsonValue::Object(ps), Vec::new()),
                Some(i) => {
                    let (key, val) = ps.remove(i);
                    match val {
                        JsonValue::Object(mut ws) => {
                            let ghost ws0 = ws@;
                            proof {
                                lemma_field_index(ws0, l@);
                            }
                            match find_field(&ws, l) {
                                None => {
                                    ps.insert(i, (key, JsonValue::Object(ws)));
                                    proof {
                                        assert(ps@ =~= ps0);
                                    }
                                    (JsonValue::Object(ps), Vec::new())
                                },
                                Some(j) => {
                                    let (lk, lv) = ws.remove(j);
                                    match lv {
                                        JsonValue::Array(a) => {
                                            ws.insert(j, (lk, JsonValue::Null));
                                            let ghost ws2 = ws@;
                                            ps.insert(i, (key, JsonValue::Object(ws)));
                                            let ghost ps2 = ps@;
                                            proof {
                                                assert(ws2 =~= ws0.update(j as int, (ws0[j as int].0, JsonValue::Null)));
                                                assert(ps2 =~= ps0.update(i as int, (ps0[i as int].0, ps2[i as int].1)));
                                                assert forall|m: int| 0 <= m < ps0.len() implies #[trigger] ps0[m].0 == ps2[m].0 by {}
                                                lemma_field_index_same_names(ps0, ps2, w@);
                                                assert forall|m: int| 0 <= m < ws0.len() implies #[trigger] ws0[m].0 == ws2[m].0 by {}
                                                lemma_field_index_same_names(ws0, ws2, l@);
                                                assert(workspace_fields(ps2) == ws2);
                                                assert(workspace_fields(ps0) == ws0);
                                                assert forall|lib: Seq<JsonValue>, nv: JsonValue| #[trigger] library_set(JsonValue::Object(ps), lib, nv)
                                                    implies library_set(v0, lib, nv) by {
                                                    let qs = nv->Object_0@;
                                                    let x = qs[i as int].1->Object_0@;
                                                    let okl = |t: JsonValue| t matches JsonValue::Array(b) && b@ == lib;
                                                    assert(field_set(ws2, l@, x, okl));
                                                    assert forall|m: int| 0 <= m < ws0.len() && m != field_index(ws0, l@) implies #[trigger] ws0[m] == ws2[m] by {}
                                                    lemma_field_set_transfer(ws0, ws2, l@, x, okl);
                                                }
                                            }
                                            (JsonValue::Object(ps), a)
                                        },
                                        other => {
                                            ws.insert(j, (lk, other));
                                            let ghost ws2 = ws@;
                                            ps.insert(i, (key, JsonValue::Object(ws)));
                                            let ghost ps2 = ps@;
                                            proof {
                                                assert(ws2 =~= ws0);
                                                assert(ps2 =~= ps0.update(i as int, (ps0[i as int].0, ps2[i as int].1)));
                                                assert forall|m: int| 0 <= m < ps0.len() implies #[trigger] ps0[m].0 == ps2[m].0 by {}
                                                lemma_field_index_same_names(ps0, ps2, w@);
                                                assert(workspace_fields(ps2) == workspace_fields(ps0));
                                                assert forall|lib: Seq<JsonValue>, nv: JsonValue| #[trigger] library_set(JsonValue::Object(ps), lib, nv)
                                                    implies library_set(v0, lib, nv) by {
                                                    let qs = nv->Object_0@;
                                                    let okw = |x: JsonValue|
                                                        x matches JsonValue::Object(y) && field_set(
                                                            workspace_fields(ps0),
                                                            l@,
                                                            y@,
                                                            |t: JsonValue| t matches JsonValue::Array(b) && b@ == lib,
                                                        );
                                                    assert forall|m: int| 0 <= m < ps0.len() && m != field_index(ps0, w@) implies #[trigger] ps0[m] == ps2[m] by {}
                                                    lemma_field_set_transfer(ps0, ps2, w@, qs, okw);
                                                }
                                            }
                                            (JsonValue::Object(ps), Vec::new())
                                        },
                                    }
                                },
                            }
                        },
                        other => {
                            ps.insert(i, (key, other));
                            proof {
                                assert(ps@ =~= ps0);
                            }
                            (JsonValue::Object(ps), Vec::new())
                        },
                    }
                },
            }
        },
        other => (other, Vec::new()),
    }
}

/// Sets `workspace.library` of a value to an array of `library` (see
/// `library_set`), adding `workspace` where it is absent; none where the value
/// is not an object or its `workspace` is not an object.
pub fn set_workspace_library(v: JsonValue, library: Vec<JsonValue>) -> (r: Option<JsonValue>)
    ensures
        (r is Some) == library_settable(v),
        r matches Some(nv) ==> library_set(v, library@, nv),
{
    let ghost lib = library@;
    let w = "workspace";
    let l = "library";
    proof {
        reveal_strlit("workspace");
        reveal_strlit("library");
    }
    match v {
        JsonValue::Object(mut ps) => {
            let ghost ps0 = ps@;
            proof {
                lemma_field_index(ps0, w@);
            }
            match find_field(&ps, w) {
                None => {
                    let mut ws: Vec<(String, JsonValue)> = Vec::new();
                    let ghost ws0 = ws@;
                    set_field(&mut ws, l, JsonValue::Array(library));
                    let ghost ws1 = ws@;
                    set_field(&mut ps, w, JsonValue::Object(ws));
                    proof {
                        assert(ws0 =~= Seq::<(String, JsonValue)>::empty());
                        assert(workspace_fields(ps0) == ws0);
                    }
                    Some(JsonValue::Object(ps))
                },
                Some(i) => {
                    let (key, val) = ps.remove(i);
                    match val {
                        JsonValue::Object(mut ws) => {
                            let ghost ws0 = ws@;
                            set_field(&mut ws, l, JsonValue::Array(library));
                            ps.insert(i, (key, JsonValue::Object(ws)));
                            proof {
                                assert(workspace_fields(ps0) == ws0);
                                assert(ps@ =~= ps0.update(i as int, (ps0[i as int].0, ps@[i as int].1)));
                            }
                            Some(JsonValue::Object(ps))
                        },
                        _ => None,
                    }
                },
            }
        },
        _ => None,
    }
}

/// Plans the new `workspace.library` from the old entries (see
/// `is_planned_library`).
pub fn luarc_library(old: Vec<JsonValue>, types_prefix: &str, cache_prefix: &str, input_paths: &Vec<String>) -> (r: Vec<JsonValue>)
    ensures
        is_planned_library(r@, old@, types_prefix@, cache_prefix@, input_paths@),
{
    let ghost old0 = old@;
    let mut r: Vec<JsonValue> = Vec::new();
    r.push(JsonValue::Str(types_prefix.to_owned()));
    let mut i: usize = 0;
    while i < input_paths.len()
        invariant
            i <= input_paths@.len(),
            r@.len() == 1 + i,
            r@[0] matches JsonValue::Str(t) && t@ == types_prefix@,
            forall|k: int| 0 <= k < i ==> #[trigger] r@[1 + k] == JsonValue::Str(input_paths@[k]),
        decreases input_paths@.len() - i,
    {
        r.push(JsonValue::Str(input_paths[i].clone()));
        i = i + 1;
    }
    let base = r.len();
    let _count = old.len();
    let mut rest = old;
    let mut taken: usize = 0;
    while rest.len() > 0
        invariant
            base == 1 + input_paths@.len(),
            r@.len() >= base,
            r@[0] matches JsonValue::Str(t) && t@ == types_prefix@,
            forall|k: int| 0 <= k < input_paths@.len() ==> #[trigger] r@[1 + k] == JsonValue::Str(input_paths@[k]),
            taken <= old0.len(),
            old0.len() <= usize::MAX,
            rest@ == old0.skip(taken as int),
            r@.subrange(base as int, r@.len() as int) == user_entries(old0.take(taken as int), types_prefix@, cache_prefix@),
        decreases rest@.len(),
    {
        let e = rest.remove(0);
        proof {
            assert(old0.take(taken + 1).drop_last() =~= old0.take(taken as int));
            assert(old0.take(taken + 1).last() == e);
            assert(rest@ =~= old0.skip(taken + 1));
        }
        let managed = match &e {
            JsonValue::Str(p) => starts_with(p.as_str(), types_prefix) || starts_with(p.as_str(), cache_prefix),
            _ => false,
        };
        let ghost r0 = r@;
        if !managed {
            r.push(e);
            proof {
                assert(r@.subrange(base as int, r@.len() as int) =~= r0.subrange(base as int, r0.len() as int).push(
                    old0.take(taken + 1).last(),
                ));
            }
        }
        taken = taken + 1;
    }
    proof {
        assert(old0.take(taken as int) =~= old0);
    }
    r
}

/// The text of an optional string.
pub open spec fn text_of(t: Option<String>) -> Option<Seq<char>> {
    match t {
        Some(s) => Some(s@),
        None => None,
    }
}

/// The new text of `.luarc.json`: none where it is not JSON (or cannot be
/// written back); where `workspace.library` can be set, the JSON with it set
/// to the planned list (see `is_planned_library`); else the same JSON,
/// rewritten pretty.
pub fn update_luarc_text(content: &str, input_paths: &Vec<String>, types_prefix: &str, cache_prefix: &str) -> (r: Option<String>)
    ensures
        match json_parse_of(content@) {
            None => r is None,
            Some(v) => if library_settable(v) {
                exists|lib: Seq<JsonValue>, nv: JsonValue|
                    #[trigger] library_set(v, lib, nv) && is_planned_library(lib, old_library(v), types_prefix@, cache_prefix@, input_paths@)
                    && text_of(r) == json_pretty_of(nv)
            } else {
                text_of(r) == json_pretty_of(v)
            },
        },
{
    let v = match json_parse(content) {
        None => return None,
        Some(v) => v,
    };
    if !workspace_library_settable(&v) {
        return json_pretty(&v);
    }
    let ghost v0 = v;
    let (v2, old) = take_workspace_library(v);
    let library = luarc_library(old, types_prefix, cache_prefix, input_paths);
    let ghost lib = library@;
    match set_workspace_library(v2, library) {
        Some(nv) => {
            let r = json_pretty(&nv);
            proof {
                assert(library_set(v0, lib, nv));
                assert(text_of(r) == json_pretty_of(nv));
            }
            r
        },
        None => None,
    }
}

} // verus!
