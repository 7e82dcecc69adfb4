//! The decisions made while a bind is defined: what its `create`, `update`
//! and `check` functions returned, and whether it joins the manifest.
use vstd::prelude::*;
use crate::strmap::{StrMap, strictly_sorted};
use crate::outputs::{ReturnedOutputs, parse_outputs, outputs_error};
use crate::lua::value::entry_values;
use crate::bind::types::{BindCheckResult, BindCheckOutputs};
use crate::text::{concat_str, compare_str_eq};

verus! {

/// The text `{:?}` gives for a string.
pub uninterp spec fn str_debug_text(s: Seq<char>) -> Seq<char>;

/// Formats a string with `{:?}` (the `Debug` of `str`: quoted, with special
/// characters escaped). Trusted: the text depends on the string alone; what
/// it is, Rust's escaping rules say.
#[verifier::external_body]
fn debug_str(s: &str) -> (r: String)
    ensures
        r@ == str_debug_text(s@),
{
    format!("{:?}", s)
}

/// The items of a collection of strings as `{:?}` lists them: each
/// formatted, separated by `, `.
pub open spec fn debug_items(ks: Seq<Seq<char>>) -> Seq<char>
    decreases ks.len(),
{
    if ks.len() == 0 {
        Seq::empty()
    } else if ks.len() == 1 {
        str_debug_text(ks[0])
    } else {
        debug_items(ks.drop_last()) + ", "@ + str_debug_text(ks.last())
    }
}

/// Lists strings as `{:?}` lists their items.
fn format_items(ks: &Vec<String>) -> (r: String)
    ensures
        r@ == debug_items(ks@.map_values(|s: String| s@)),
{
    let ghost all = ks@.map_values(|s: String| s@);
    let mut out = String::new();
    let mut i: usize = 0;
    proof {
        assert(all.take(0) =~= Seq::<Seq<char>>::empty());
    }
    while i < ks.len()
        invariant
            i <= ks@.len(),
            all == ks@.map_values(|s: String| s@),
            out@ == debug_items(all.take(i as int)),
        decreases ks@.len() - i,
    {
        proof {
            assert(all.take(i + 1).drop_last() =~= all.take(i as int));
        }
        let d = debug_str(ks[i].as_str());
        if i > 0 {
            out.append(", ");
        }
        out.append(d.as_str());
        proof {
            if i == 0 {
                assert(all.take(1).len() == 1);
            }
            assert(out@ =~= debug_items(all.take(i + 1)));
        }
        i = i + 1;
    }
    proof {
        assert(all.take(i as int) =~= all);
    }
    out
}

/// The outputs of a bind, from what its `create` returned: a table's entries
/// (none, where it is empty) or none for `nil`; another value is an error.
pub fn bind_create_outputs(returned: ReturnedOutputs) -> (r: Result<Option<StrMap<String>>, String>)
    ensures
        match returned {
            ReturnedOutputs::Table(ps) => match r {
                Ok(None) => outputs_error(ps@) is None && entry_values(ps@).len() == 0,
                Ok(Some(m)) => outputs_error(ps@) is None && m.wf() && m@ == entry_values(ps@) && m@.len() > 0,
                Err(e) => outputs_error(ps@) == Some(e@),
            },
            ReturnedOutputs::Nil => r matches Ok(None),
            ReturnedOutputs::Other(_) => r matches Err(e) && e@ == "bind create must return a table of outputs or nil"@,
        },
{
    match returned {
        ReturnedOutputs::Table(ps) => {
            let m = parse_outputs(ps)?;
            if m.is_empty() {
                Ok(None)
            } else {
                Ok(Some(m))
            }
        },
        ReturnedOutputs::Nil => Ok(None),
        ReturnedOutputs::Other(_) => Err("bind create must return a table of outputs or nil".to_string()),
    }
}

/// The error of an `update` that returned other output names than `create`.
pub open spec fn different_keys_message(create: Seq<Seq<char>>, update: Seq<Seq<char>>) -> Seq<char> {
    "update must return same output keys as create. create: {"@ + debug_items(create) + "}, update: {"@
        + debug_items(update) + "}"@
}

/// The error of an `update` that returned outputs where `create` did not.
pub open spec fn outputs_without_create_message(update: Seq<Seq<char>>) -> Seq<char> {
    "update returned outputs but create did not. update keys: ["@ + debug_items(update) + "]"@
}

/// The error of an `update` that returned nothing where `create` returned outputs.
pub open spec fn nil_update_message(create: Seq<Seq<char>>) -> Seq<char> {
    "update returned nil but create returned outputs. create keys: ["@ + debug_items(create) + "]"@
}

/// Checks what a bind's `update` returned against the outputs of its
/// `create`: both must name the same outputs (or none). Output names are
/// listed in ascending order in the errors.
pub fn check_update_outputs(returned: ReturnedOutputs, create: &Option<StrMap<String>>) -> (r: Result<(), String>)
    requires
        create matches Some(c) ==> c.wf(),
    ensures
        match returned {
            ReturnedOutputs::Table(ps) => match outputs_error(ps@) {
                Some(e) => r matches Err(x) && x@ == e,
                None => match *create {
                    Some(c) => if c@.dom() == entry_values(ps@).dom() {
                        r is Ok
                    } else {
                        r matches Err(x) && exists|ks: Seq<Seq<char>>| #![auto] strictly_sorted(ks) && ks.to_set() == entry_values(ps@).dom()
                            && x@ == different_keys_message(c.keys(), ks)
                    },
                    None => if entry_values(ps@).len() == 0 {
                        r is Ok
                    } else {
                        r matches Err(x) && exists|ks: Seq<Seq<char>>| #![auto] strictly_sorted(ks) && ks.to_set() == entry_values(ps@).dom()
                            && x@ == outputs_without_create_message(ks)
                    },
                },
            },
            ReturnedOutputs::Nil => match *create {
                Some(c) => if c@.len() == 0 {
                    r is Ok
                } else {
                    r matches Err(x) && x@ == nil_update_message(c.keys())
                },
                None => r is Ok,
            },
            ReturnedOutputs::Other(t) => r matches Err(x) && x@ == "update must return a table of outputs or nil, got: "@ + str_debug_text(t@),
        },
{
    match returned {
        ReturnedOutputs::Table(ps) => {
            let u = parse_outputs(ps)?;
            proof {
                u.lemma_view();
                assert(u.keys().to_set() =~= u@.dom());
            }
            match create {
                Some(c) => {
                    if same_names(c, &u) {
                        Ok(())
                    } else {
                        let ck = c.key_list();
                        let uk = u.key_list();
                        let s = concat_str("update must return same output keys as create. create: {", format_items(&ck).as_str());
                        let s = concat_str(s.as_str(), "}, update: {");
                        let s = concat_str(s.as_str(), format_items(&uk).as_str());
                        Err(concat_str(s.as_str(), "}"))
                    }
                },
                None => {
                    if u.is_empty() {
                        Ok(())
                    } else {
                        let uk = u.key_list();
                        let s = concat_str("update returned outputs but create did not. update keys: [", format_items(&uk).as_str());
                        Err(concat_str(s.as_str(), "]"))
                    }
                },
            }
        },
        ReturnedOutputs::Nil => match create {
            Some(c) => {
                if c.is_empty() {
                    Ok(())
                } else {
                    let ck = c.key_list();
                    let s = concat_str("update returned nil but create returned outputs. create keys: [", format_items(&ck).as_str());
                    Err(concat_str(s.as_str(), "]"))
                }
            },
            None => Ok(()),
        },
        ReturnedOutputs::Other(t) => {
            let d = debug_str(t.as_str());
            Err(concat_str("update must return a table of outputs or nil, got: ", d.as_str()))
        },
    }
}

/// Whether two maps have the same names.
fn same_names(a: &StrMap<String>, b: &StrMap<String>) -> (r: bool)
    requires
        a.wf(),
        b.wf(),
    ensures
        r == (a@.dom() == b@.dom()),
{
    proof {
        a.lemma_view();
        b.lemma_view();
    }
    if a.len() != b.len() {
        return false;
    }
    let n = a.len();
    let mut i: usize = 0;
    while i < n
        invariant
            a.wf(),
            b.wf(),
            n == a.keys().len(),
            n == a@.dom().len(),
            n == b@.dom().len(),
            i <= n,
            forall|j: int| 0 <= j < i ==> b@.dom().contains(#[trigger] a.keys()[j]),
        decreases n - i,
    {
        let (k, _) = a.entry_at(i);
        if !b.contains_key(k.as_str()) {
            proof {
                a.lemma_view();
                assert(a.keys().contains(k@));
                assert(a@.dom().contains(k@));
            }
            return false;
        }
        i = i + 1;
    }
    proof {
        a.lemma_view();
        assert(a@.dom().subset_of(b@.dom())) by {
            assert forall|k: Seq<char>| a@.dom().contains(k) implies b@.dom().contains(k) by {
                assert(a.keys().contains(k));
                let j = choose|j: int| 0 <= j < a.keys().len() && a.keys()[j] == k;
            }
        }
        vstd::set_lib::lemma_subset_equality(a@.dom(), b@.dom());
    }
    true
}

/// What a bind's `check` returned.
pub enum CheckReturn {
    /// A table, with its `drifted` field read as a string (`None`: absent or
    /// not a string) and what reading its `message` field gave.
    Table { drifted: Option<String>, message: Result<Option<String>, String> },
    /// Any other value.
    Other,
}

/// The check of a bind, from what its `check` returned and how many actions
/// it recorded: none where it recorded no action and `drifted` is neither
/// `"true"` nor `"false"`.
pub fn check_outputs_of(returned: CheckReturn, action_count: usize) -> (r: Result<Option<BindCheckOutputs>, String>)
    ensures
        match returned {
            CheckReturn::Other => r matches Err(e) && e@ == "check must return a table with `drifted` (and optional `message`) fields"@,
            CheckReturn::Table { drifted, message } => match drifted {
                None => r matches Err(e) && e@ == "check must return a table with `drifted` field"@,
                Some(d) => match message {
                    Err(e) => r matches Err(x) && x@ == e@,
                    Ok(m) => if action_count == 0 && d@ != "true"@ && d@ != "false"@ {
                        r matches Ok(None)
                    } else {
                        r matches Ok(Some(o)) && o.drifted == d && o.message == m
                    },
                },
            },
        },
{
    match returned {
        CheckReturn::Other => Err("check must return a table with `drifted` (and optional `message`) fields".to_string()),
        CheckReturn::Table { drifted, message } => {
            let d = match drifted {
                None => return Err("check must return a table with `drifted` field".to_string()),
                Some(d) => d,
            };
            let m = match message {
                Err(e) => return Err(e),
                Ok(m) => m,
            };
            if action_count == 0 && !compare_str_eq(d.as_str(), "true") && !compare_str_eq(d.as_str(), "false") {
                Ok(None)
            } else {
                Ok(Some(BindCheckOutputs { drifted: d, message: m }))
            }
        },
    }
}

/// The outcome of a check, from its resolved `drifted` text: drifted exactly
/// when the text is `"true"`.
pub fn drift_result(drifted: &str, message: Option<String>) -> (r: BindCheckResult)
    ensures
        r.drifted == (drifted@ == "true"@),
        r.message == message,
{
    BindCheckResult { drifted: compare_str_eq(drifted, "true"), message }
}

/// The first hash, in ascending order and other than `hash`, registered
/// under the id `id`.
pub open spec fn first_other_with_id(keys: Seq<Seq<char>>, ids: Map<Seq<char>, Option<String>>, id: Seq<char>, hash: Seq<char>) -> Option<Seq<char>>
    decreases keys.len(),
{
    if keys.len() == 0 {
        None
    } else if keys[0] != hash && (ids[keys[0]] matches Some(x) && x@ == id) {
        Some(keys[0])
    } else {
        first_other_with_id(keys.drop_first(), ids, id, hash)
    }
}

/// Finds the first hash, other than `hash`, registered under `id`.
pub fn find_other_with_id(ids: &StrMap<Option<String>>, id: &str, hash: &str) -> (r: Option<String>)
    requires
        ids.wf(),
    ensures
        match r {
            Some(h) => first_other_with_id(ids.keys(), ids@, id@, hash@) == Some(h@),
            None => first_other_with_id(ids.keys(), ids@, id@, hash@) is None,
        },
{
    proof {
        ids.lemma_view();
    }
    let n = ids.len();
    let mut i: usize = 0;
    proof {
        assert(ids.keys().skip(0) =~= ids.keys());
    }
    while i < n
        invariant
            ids.wf(),
            n == ids.keys().len(),
            i <= n,
            first_other_with_id(ids.keys(), ids@, id@, hash@) == first_other_with_id(ids.keys().skip(i as int), ids@, id@, hash@),
        decreases n - i,
    {
        let (k, v) = ids.entry_at(i);
        let ghost rest = ids.keys().skip(i as int);
        proof {
            assert(rest[0] == k@);
            assert(rest.drop_first() =~= ids.keys().skip(i + 1));
        }
        let hit = match v {
            Some(x) => !compare_str_eq(k.as_str(), hash) && compare_str_eq(x.as_str(), id),
            None => false,
        };
        if hit {
            return Some(k.clone());
        }
        i = i + 1;
    }
    None
}

/// Where no other hash is registered under an id, no entry other than
/// `hash` has that id: a bind (or build) accepted without a clash is the only
/// one with its id.
pub proof fn lemma_no_other_with_id(ids: StrMap<Option<String>>, id: Seq<char>, hash: Seq<char>)
    requires
        ids.wf(),
        first_other_with_id(ids.keys(), ids@, id, hash) is None,
    ensures
        forall|k: Seq<char>| #[trigger] ids@.dom().contains(k) && k != hash ==> !(ids@[k] matches Some(x) && x@ == id),
{
    ids.lemma_view();
    lemma_first_other_none(ids.keys(), ids@, id, hash);
    assert forall|k: Seq<char>| #[trigger] ids@.dom().contains(k) && k != hash implies !(ids@[k] matches Some(x) && x@ == id) by {
        assert(ids.keys().contains(k));
        let j = choose|j: int| 0 <= j < ids.keys().len() && ids.keys()[j] == k;
    }
}

proof fn lemma_first_other_none(keys: Seq<Seq<char>>, ids: Map<Seq<char>, Option<String>>, id: Seq<char>, hash: Seq<char>)
    requires
        first_other_with_id(keys, ids, id, hash) is None,
    ensures
        forall|j: int| 0 <= j < keys.len() && keys[j] != hash ==> !(#[trigger] ids[keys[j]] matches Some(x) && x@ == id),
    decreases keys.len(),
{
    if keys.len() > 0 {
        lemma_first_other_none(keys.drop_first(), ids, id, hash);
        assert forall|j: int| 0 <= j < keys.len() && keys[j] != hash implies !(#[trigger] ids[keys[j]] matches Some(x) && x@ == id) by {
            if j > 0 {
                assert(keys[j] == keys.drop_first()[j - 1]);
            }
        }
    }
}

/// The message of a bind id already taken by another bind.
pub open spec fn duplicate_bind_id_message(id: Seq<char>, existing: Seq<char>) -> Seq<char> {
    "duplicate bind id '"@ + id + "': a bind with this id already exists (hash: "@ + existing + ")"@
}

/// Whether a bind defined with `hash` and `id` joins the manifest, given
/// the ids of the binds already there (by hash): an error where another
/// bind has its id; else it is added unless one with its hash is there.
pub fn plan_bind_registration(ids: &StrMap<Option<String>>, hash: &str, id: Option<&str>) -> (r: Result<bool, String>)
    requires
        ids.wf(),
    ensures
        match id {
            Some(b) => match first_other_with_id(ids.keys(), ids@, b@, hash@) {
                Some(h) => r matches Err(e) && e@ == duplicate_bind_id_message(b@, h),
                None => r == Ok::<bool, String>(!ids@.dom().contains(hash@)),
            },
            None => r == Ok::<bool, String>(!ids@.dom().contains(hash@)),
        },
{
    if let Some(b) = id {
        if let Some(h) = find_other_with_id(ids, b, hash) {
            let s = concat_str("duplicate bind id '", b);
            let s = concat_str(s.as_str(), "': a bind with this id already exists (hash: ");
            let s = concat_str(s.as_str(), h.as_str());
            return Err(concat_str(s.as_str(), ")"));
        }
    }
    Ok(!ids.contains_key(hash))
}

} // verus!
