//! Command actions: the shell that runs them, the isolated environment they
//! run in, and what their exit makes of them.
use vstd::prelude::*;
use crate::strmap::StrMap;
use crate::text::{path_join, join_path};
use super::types::ExecuteError;

verus! {

/// The shell and its command flag: the override with `-c` when one is given,
/// else `/bin/sh -c`. A user's `$SHELL` is never used, so that profile files
/// cannot change the environment of a build.
pub fn get_shell(override_shell: Option<&str>) -> (r: (String, String))
    ensures
        r.1@ == "-c"@,
        r.0@ == (match override_shell {
            Some(s) => s@,
            None => "/bin/sh"@,
        }),
{
    let flag = "-c";
    proof {
        reveal_strlit("-c");
    }
    match override_shell {
        Some(shell) => (shell.to_owned(), flag.to_owned()),
        None => {
            let sh = "/bin/sh";
            proof {
                reveal_strlit("/bin/sh");
            }
            (sh.to_owned(), flag.to_owned())
        },
    }
}

/// The environment of a command: nothing of the caller's environment, `PATH`
/// set to a directory that does not exist (so that undeclared tools fail),
/// `HOME` to one that does not exist either, the temporary directories to
/// `{out}/tmp`, `out` to the output directory, the C locale, a fixed
/// `SOURCE_DATE_EPOCH` (1980-01-01, for reproducible timestamps); then the
/// user's variables, which win.
pub open spec fn isolated_env(out_dir: Seq<char>, user: Map<Seq<char>, String>) -> Map<Seq<char>, Seq<char>> {
    let tmp = path_join(out_dir, "tmp"@);
    map![
        "PATH"@ => "/path-not-set"@,
        "HOME"@ => "/homeless-shelter"@,
        "TMPDIR"@ => tmp,
        "TMP"@ => tmp,
        "TEMP"@ => tmp,
        "TEMPDIR"@ => tmp,
        "out"@ => out_dir,
        "LANG"@ => "C"@,
        "LC_ALL"@ => "C"@,
        "SOURCE_DATE_EPOCH"@ => "315532800"@
    ].union_prefer_right(user.map_values(|v: String| v@))
}

/// The view of a map of strings.
pub open spec fn string_map_view(m: Map<Seq<char>, String>) -> Map<Seq<char>, Seq<char>> {
    m.map_values(|v: String| v@)
}

/// Inserts a variable given as literals.
fn set_var(env: &mut StrMap<String>, key: &str, value: &str)
    requires
        old(env).wf(),
    ensures
        final(env).wf(),
        string_map_view(final(env)@) == string_map_view(old(env)@).insert(key@, value@),
{
    env.insert(key.to_string(), value.to_string());
    proof {
        assert(string_map_view(env@) =~= string_map_view(old(env)@).insert(key@, value@));
    }
}

/// The environment a command runs in (see `isolated_env`), and the temporary
/// directory it names, which the caller creates.
pub fn command_environment(out_dir: &str, user_env: Option<&StrMap<String>>) -> (r: (StrMap<String>, String))
    requires
        user_env matches Some(u) ==> u.wf(),
    ensures
        r.0.wf(),
        string_map_view(r.0@) == isolated_env(out_dir@, match user_env {
            Some(u) => u@,
            None => Map::empty(),
        }),
        r.1@ == path_join(out_dir@, "tmp"@),
{
    let tmp_name = "tmp";
    proof {
        reveal_strlit("tmp");
        reveal_strlit("PATH");
        reveal_strlit("/path-not-set");
        reveal_strlit("HOME");
        reveal_strlit("/homeless-shelter");
        reveal_strlit("TMPDIR");
        reveal_strlit("TMP");
        reveal_strlit("TEMP");
        reveal_strlit("TEMPDIR");
        reveal_strlit("out");
        reveal_strlit("LANG");
        reveal_strlit("C");
        reveal_strlit("LC_ALL");
        reveal_strlit("SOURCE_DATE_EPOCH");
        reveal_strlit("315532800");
    }
    let tmp = join_path(out_dir, tmp_name);
    let mut env: StrMap<String> = StrMap::new();
    proof {
        assert(string_map_view(env@) =~= Map::<Seq<char>, Seq<char>>::empty());
    }
    set_var(&mut env, "PATH", "/path-not-set");
    set_var(&mut env, "HOME", "/homeless-shelter");
    set_var(&mut env, "TMPDIR", tmp.as_str());
    set_var(&mut env, "TMP", tmp.as_str());
    set_var(&mut env, "TEMP", tmp.as_str());
    set_var(&mut env, "TEMPDIR", tmp.as_str());
    set_var(&mut env, "out", out_dir);
    set_var(&mut env, "LANG", "C");
    set_var(&mut env, "LC_ALL", "C");
    set_var(&mut env, "SOURCE_DATE_EPOCH", "315532800");
    let ghost base = string_map_view(env@);
    proof {
        assert(base =~= isolated_env(out_dir@, Map::empty()));
    }
    match user_env {
        Some(u) => {
            proof {
                u.lemma_view();
            }
            let n = u.len();
            let mut i: usize = 0;
            while i < n
                invariant
                    u.wf(),
                    env.wf(),
                    n == u.keys().len(),
                    i <= n,
                    forall|k: Seq<char>| u@.dom().contains(k) <==> u.keys().contains(k),
                    string_map_view(env@) == base.union_prefer_right(
                        string_map_view(u@).restrict(u.keys().take(i as int).to_set()),
                    ),
                decreases n - i,
            {
                let (k, v) = u.entry_at(i);
                let ghost before = string_map_view(env@);
                env.insert(k.clone(), v.clone());
                proof {
                    assert(u.keys()[i as int] == k@);
                    assert(u.keys().contains(k@));
                    assert(u@.dom().contains(k@));
                    assert(string_map_view(env@) =~= before.insert(k@, v@));
                    let t0 = u.keys().take(i as int);
                    let t1 = u.keys().take(i + 1);
                    assert(t1.to_set() =~= t0.to_set().insert(k@)) by {
                        assert forall|x: Seq<char>| t1.to_set().contains(x) <==> t0.to_set().insert(k@).contains(x) by {
                            if t1.contains(x) {
                                let j = choose|j: int| 0 <= j < t1.len() && t1[j] == x;
                                if j < i {
                                    assert(t0[j] == x);
                                }
                            }
                            if t0.contains(x) {
                                let j = choose|j: int| 0 <= j < t0.len() && t0[j] == x;
                                assert(t1[j] == x);
                            }
                            assert(t1[i as int] == k@);
                        }
                    }
                    assert(string_map_view(env@) =~= base.union_prefer_right(
                        string_map_view(u@).restrict(u.keys().take(i + 1).to_set()),
                    ));
                }
                i = i + 1;
            }
            proof {
                assert(u.keys().take(n as int) =~= u.keys());
                assert(string_map_view(u@).restrict(u.keys().to_set()) =~= string_map_view(u@));
                assert(string_map_view(env@) =~= isolated_env(out_dir@, u@));
            }
        },
        None => {
            proof {
                assert(string_map_view(env@) =~= isolated_env(out_dir@, Map::empty()));
            }
        },
    }
    (env, tmp)
}

/// The text `str::trim` leaves of a string.
pub uninterp spec fn trimmed(s: Seq<char>) -> Seq<char>;

/// Calls `str::trim`. Trusted: the result is the string without its leading
/// and trailing Unicode white space (named, not computed here).
#[verifier::external_body]
fn trim_text(s: &str) -> (r: String)
    ensures
        r@ == trimmed(s@),
{
    s.trim().to_string()
}

/// What a finished command gives: its trimmed standard output when it
/// succeeded; otherwise a failure naming the command and its exit code.
pub fn command_outcome(cmd: &str, success: bool, code: Option<i32>, stdout: &str) -> (r: Result<String, ExecuteError>)
    ensures
        success ==> (r matches Ok(out) && out@ == trimmed(stdout@)),
        !success ==> (r matches Err(ExecuteError::CmdFailed { cmd: c, code: k }) && c@ == cmd@ && k == code),
{
    if success {
        Ok(trim_text(stdout))
    } else {
        Err(ExecuteError::CmdFailed { cmd: cmd.to_string(), code })
    }
}

} // verus!
