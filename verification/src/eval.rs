//! Evaluation of a configuration: the inputs it declares, and the Lua search
//! path made of the `lua/` directories of the configuration and its inputs.
use vstd::prelude::*;
use crate::strmap::StrMap;
use crate::text::{path_join, join_path, replaced, replace_all, concat_str};
use crate::inputs::types::{InputDecl, ResolvedInput};
use crate::lua::value::{NamedTable, DeclValue, Dialect, parse_decls, decls_error, decls_built};

verus! {

/// The inputs a configuration declares, from what reading its `inputs` field
/// gave: none where the field is absent or no table, else the declarations
/// parsed (an override's error names the input it belongs to).
pub fn extract_raw_inputs(inputs: Result<NamedTable<DeclValue>, String>) -> (r: Result<StrMap<InputDecl>, String>)
    ensures
        match inputs {
            Err(e) => r matches Err(x) && x@ == e@,
            Ok(NamedTable::Table(ps)) => match r {
                Ok(m) => decls_error(Dialect::Config, ps@) is None && m.wf() && decls_built(ps@, m@),
                Err(e) => decls_error(Dialect::Config, ps@) == Some(e@),
            },
            Ok(_) => r matches Ok(m) && m.wf() && m@ == Map::<Seq<char>, InputDecl>::empty(),
        },
{
    match inputs {
        Err(e) => Err(e),
        Ok(field) => match field {
            NamedTable::Table(ps) => parse_decls(Dialect::Config, ps),
            _ => Ok(StrMap::new()),
        },
    }
}

/// The `lua/` directory of a directory.
pub open spec fn lua_dir(dir: Seq<char>) -> Seq<char> {
    path_join(dir, "lua"@)
}

/// The `lua/` directories of resolved inputs, each input's before those of
/// its own inputs, in order.
pub open spec fn input_lua_dirs(inputs: Seq<(String, ResolvedInput)>) -> Seq<Seq<char>>
    decreases inputs,
{
    if inputs.len() == 0 {
        Seq::empty()
    } else {
        input_lua_dirs(inputs.drop_last()) + seq![lua_dir(inputs.last().1.path@)] + input_lua_dirs(inputs.last().1.inputs@)
    }
}

/// The `lua/` directories of the root inputs (by name) and their inputs.
pub open spec fn root_lua_dirs(roots: Seq<(Seq<char>, ResolvedInput)>) -> Seq<Seq<char>>
    decreases roots.len(),
{
    if roots.len() == 0 {
        Seq::empty()
    } else {
        root_lua_dirs(roots.drop_last()) + seq![lua_dir(roots.last().1.path@)] + input_lua_dirs(roots.last().1.inputs@)
    }
}

/// Adds the `lua/` directories of resolved inputs (see `input_lua_dirs`).
fn collect_lua_dirs(inputs: &Vec<(String, ResolvedInput)>, out: &mut Vec<String>)
    ensures
        final(out)@.map_values(|s: String| s@) == old(out)@.map_values(|s: String| s@) + input_lua_dirs(inputs@),
    decreases inputs,
{
    let ghost start = out@.map_values(|s: String| s@);
    let mut i: usize = 0;
    proof {
        assert(inputs@.take(0) =~= Seq::<(String, ResolvedInput)>::empty());
        assert(start + input_lua_dirs(inputs@.take(0)) =~= start);
    }
    while i < inputs.len()
        invariant
            i <= inputs@.len(),
            out@.map_values(|s: String| s@) == start + input_lua_dirs(inputs@.take(i as int)),
        decreases inputs@.len() - i,
    {
        let ghost before = out@.map_values(|s: String| s@);
        proof {
            assert(inputs@.take(i + 1).drop_last() =~= inputs@.take(i as int));
            assert(decreases_to!(*inputs => inputs@));
            assert(decreases_to!(inputs@ => inputs@[i as int]));
            assert(decreases_to!(inputs@[i as int] => inputs@[i as int].1));
            assert(decreases_to!(inputs@[i as int].1 => inputs@[i as int].1.inputs));
        }
        let entry = &inputs[i].1;
        out.push(join_path(entry.path.as_str(), "lua"));
        proof {
            assert(out@.map_values(|s: String| s@) =~= before.push(lua_dir(entry.path@)));
        }
        let ghost mid = out@.map_values(|s: String| s@);
        collect_lua_dirs(&entry.inputs, out);
        proof {
            assert(start + input_lua_dirs(inputs@.take(i + 1)) =~= mid + input_lua_dirs(entry.inputs@));
        }
        i = i + 1;
    }
    proof {
        assert(inputs@.take(i as int) =~= inputs@);
    }
}

/// The directories that may hold Lua modules, in search order: the
/// configuration's `lua/`, then those of its inputs (see `root_lua_dirs`).
/// Those that are directories make the search path.
pub fn lua_dir_candidates(config_dir: &str, inputs: &StrMap<ResolvedInput>) -> (r: Vec<String>)
    requires
        inputs.wf(),
    ensures
        r@.map_values(|s: String| s@) == seq![lua_dir(config_dir@)] + root_lua_dirs(inputs.pairs()),
{
    let mut out: Vec<String> = Vec::new();
    out.push(join_path(config_dir, "lua"));
    let ghost head = seq![lua_dir(config_dir@)];
    let n = inputs.len();
    let mut i: usize = 0;
    proof {
        assert(out@.map_values(|s: String| s@) =~= head);
        assert(inputs.pairs().take(0) =~= Seq::<(Seq<char>, ResolvedInput)>::empty());
        assert(head + root_lua_dirs(inputs.pairs().take(0)) =~= head);
        inputs.lemma_view();
    }
    while i < n
        invariant
            inputs.wf(),
            n == inputs.keys().len(),
            n == inputs.pairs().len(),
            i <= n,
            out@.map_values(|s: String| s@) == head + root_lua_dirs(inputs.pairs().take(i as int)),
        decreases n - i,
    {
        let ghost before = out@.map_values(|s: String| s@);
        let (_, entry) = inputs.entry_at(i);
        proof {
            assert(inputs.pairs().take(i + 1).drop_last() =~= inputs.pairs().take(i as int));
        }
        out.push(join_path(entry.path.as_str(), "lua"));
        proof {
            assert(out@.map_values(|s: String| s@) =~= before.push(lua_dir(entry.path@)));
        }
        let ghost mid = out@.map_values(|s: String| s@);
        collect_lua_dirs(&entry.inputs, &mut out);
        proof {
            assert(head + root_lua_dirs(inputs.pairs().take(i + 1)) =~= mid + input_lua_dirs(entry.inputs@));
        }
        i = i + 1;
    }
    proof {
        assert(inputs.pairs().take(n as int) =~= inputs.pairs());
    }
    out
}

/// A directory with `\` written as `/`.
pub open spec fn forward_slashed(dir: Seq<char>) -> Seq<char> {
    replaced(dir, "\\"@, "/"@)
}

/// The search patterns of Lua directories: `{dir}/?.lua` and
/// `{dir}/?/init.lua` for each, in order.
pub open spec fn dir_patterns(dirs: Seq<Seq<char>>) -> Seq<Seq<char>>
    decreases dirs.len(),
{
    if dirs.len() == 0 {
        Seq::empty()
    } else {
        dir_patterns(dirs.drop_last()) + seq![
            forward_slashed(dirs.last()) + "/?.lua"@,
            forward_slashed(dirs.last()) + "/?/init.lua"@,
        ]
    }
}

/// Strings joined with `;` between them.
pub open spec fn semicolon_joined(ss: Seq<Seq<char>>) -> Seq<char>
    decreases ss.len(),
{
    if ss.len() == 0 {
        Seq::empty()
    } else if ss.len() == 1 {
        ss[0]
    } else {
        semicolon_joined(ss.drop_last()) + ";"@ + ss.last()
    }
}

/// The Lua search path made of the given `lua/` directories (those that
/// exist, in search order).
pub fn build_package_path(dirs: &Vec<String>) -> (r: String)
    ensures
        r@ == semicolon_joined(dir_patterns(dirs@.map_values(|s: String| s@))),
{
    let ghost ds = dirs@.map_values(|s: String| s@);
    let mut out = String::new();
    let mut i: usize = 0;
    let sep = ";";
    proof {
        reveal_strlit(";");
        assert(ds.take(0) =~= Seq::<Seq<char>>::empty());
        assert(out@ =~= semicolon_joined(dir_patterns(ds.take(0))));
    }
    while i < dirs.len()
        invariant
            i <= dirs@.len(),
            ds == dirs@.map_values(|s: String| s@),
            sep@ == ";"@,
            out@ == semicolon_joined(dir_patterns(ds.take(i as int))),
            dir_patterns(ds.take(i as int)).len() == 2 * i,
        decreases dirs@.len() - i,
    {
        proof {
            assert(ds.take(i + 1).drop_last() =~= ds.take(i as int));
            assert(ds.take(i + 1).last() == dirs@[i as int]@);
        }
        proof {
            reveal_strlit("\\");
        }
        let d = replace_all(dirs[i].as_str(), "\\", "/");
        let a = concat_str(d.as_str(), "/?.lua");
        let b = concat_str(d.as_str(), "/?/init.lua");
        let ghost ps = dir_patterns(ds.take(i as int));
        let ghost qs = dir_patterns(ds.take(i + 1));
        proof {
            assert(qs == ps + seq![a@, b@]);
            assert(qs.drop_last() =~= ps.push(a@));
            assert(ps.push(a@).drop_last() =~= ps);
        }
        if i > 0 {
            out.append(sep);
        }
        out.append(a.as_str());
        out.append(sep);
        out.append(b.as_str());
        proof {
            assert(semicolon_joined(qs) == semicolon_joined(ps.push(a@)) + ";"@ + b@);
            if i == 0 {
                assert(ps.len() == 0);
                assert(ps.push(a@).len() == 1);
                assert(semicolon_joined(ps.push(a@)) == ps.push(a@)[0]);
            } else {
                assert(semicolon_joined(ps.push(a@)) == semicolon_joined(ps) + ";"@ + a@);
            }
            assert(out@ =~= semicolon_joined(qs));
        }
        i = i + 1;
    }
    proof {
        assert(ds.take(i as int) =~= ds);
    }
    out
}

/// The search path with new directories put in front of the current ones;
/// `None` (the path is left as it is) where there are no new directories.
pub fn prepend_package_path(new_paths: &str, current: &str) -> (r: Option<String>)
    ensures
        match r {
            None => new_paths@.len() == 0,
            Some(p) => new_paths@.len() > 0 && p@ == new_paths@ + ";"@ + current@,
        },
{
    if new_paths.unicode_len() == 0 {
        return None;
    }
    let s = concat_str(new_paths, ";");
    Some(concat_str(s.as_str(), current))
}

} // verus!
