//! Input values given in Lua, turned into the inputs of builds and binds.
//!
//! Strings, numbers and booleans are taken as they are. A table marked as a
//! build or bind reference names its target by hash, and the target must be
//! in the manifest; the inputs of a build may not reference a bind at all. A
//! table whose first element is present is an array; any other table maps its
//! string keys to values. `nil` and values of other kinds are refused.
use vstd::prelude::*;
use crate::strmap::{StrMap, strictly_sorted, pair_keys, pairs_map, entries_pairs, lemma_sorted_distinct, lemma_pairs_map_index};
use crate::hash::ObjectHash;
use crate::inputs::refs::{InputsRef, has_bind_ref, list_has_bind_ref, table_has_bind_ref};
use crate::execute::dag::DagManifest;
use crate::lua::value::entry_values;
use crate::text::concat_str;

verus! {

/// An input value as the conversion reads it.
pub enum InputValue {
    /// A string (`Err`: the message of a string that could not be read).
    Text(Result<String, String>),
    /// A number, as the bits of its IEEE 754 double (an integer already
    /// turned into one).
    Number(u64),
    /// A boolean.
    Boolean(bool),
    /// A table marked as a build reference, with what reading its `hash` gave.
    BuildRef(Result<String, String>),
    /// A table marked as a bind reference, with what reading its `hash` gave.
    BindRef(Result<String, String>),
    /// A table whose first element is present: its elements in order
    /// (`Err`: the message of an element that could not be read).
    Array(Vec<Result<InputValue, String>>),
    /// Any other table: its entries in the order they were walked (`Err`: the
    /// message of an entry whose key or value could not be read).
    Table(Vec<Result<(String, InputValue), String>>),
    /// `nil`.
    Nil,
    /// A value of another kind, by its Lua type name.
    Unsupported(String),
}

pub open spec fn bind_in_build_message() -> Seq<char> {
    "build inputs cannot reference binds: binds are side-effectful and cannot be inputs to immutable builds"@
}

/// The first error met converting a value, depth first and in order; `None`
/// where it converts.
pub open spec fn value_error(v: InputValue, m: DagManifest, builds_only: bool) -> Option<Seq<char>>
    decreases v,
{
    match v {
        InputValue::Text(t) => match t {
            Ok(_) => None,
            Err(e) => Some(e@),
        },
        InputValue::Number(_) => None,
        InputValue::Boolean(_) => None,
        InputValue::BuildRef(h) => match h {
            Err(e) => Some(e@),
            Ok(h) => if m.builds@.dom().contains(h@) {
                None
            } else {
                Some("referenced build not found in manifest: "@ + h@)
            },
        },
        InputValue::BindRef(h) => if builds_only {
            Some(bind_in_build_message())
        } else {
            match h {
                Err(e) => Some(e@),
                Ok(h) => if m.bindings@.dom().contains(h@) {
                    None
                } else {
                    Some("referenced bind not found in manifest: "@ + h@)
                },
            }
        },
        InputValue::Array(es) => elements_error(es@, m, builds_only),
        InputValue::Table(ps) => fields_error(ps@, m, builds_only),
        InputValue::Nil => Some("nil values not allowed in inputs"@),
        InputValue::Unsupported(t) => Some("unsupported input type: \""@ + t@ + "\""@),
    }
}

/// The first error met converting the elements of an array, in order.
pub open spec fn elements_error(es: Seq<Result<InputValue, String>>, m: DagManifest, builds_only: bool) -> Option<Seq<char>>
    decreases es,
{
    if es.len() == 0 {
        None
    } else {
        match elements_error(es.drop_last(), m, builds_only) {
            Some(e) => Some(e),
            None => match es.last() {
                Ok(v) => value_error(v, m, builds_only),
                Err(e) => Some(e@),
            },
        }
    }
}

/// The first error met converting the entries of a table, in order.
pub open spec fn fields_error(ps: Seq<Result<(String, InputValue), String>>, m: DagManifest, builds_only: bool) -> Option<Seq<char>>
    decreases ps,
{
    if ps.len() == 0 {
        None
    } else {
        match fields_error(ps.drop_last(), m, builds_only) {
            Some(e) => Some(e),
            None => match ps.last() {
                Ok(p) => value_error(p.1, m, builds_only),
                Err(e) => Some(e@),
            },
        }
    }
}

/// Entry `i` is read and no later entry has its key.
pub open spec fn last_with_key<T>(ps: Seq<Result<(String, T), String>>, i: int) -> bool {
    &&& 0 <= i < ps.len()
    &&& ps[i] is Ok
    &&& forall|j: int| i < j < ps.len() && #[trigger] ps[j] is Ok ==> ps[j]->Ok_0.0@ != ps[i]->Ok_0.0@
}

/// The inputs converted from a value without error: the same string, number
/// or boolean; the referenced hash; the elements converted in order; the
/// table's keys in ascending order, each with its last entry converted.
pub open spec fn value_built(v: InputValue, r: InputsRef) -> bool
    decreases v,
{
    match v {
        InputValue::Text(t) => match t {
            Ok(s) => r == InputsRef::String(s),
            Err(_) => false,
        },
        InputValue::Number(n) => r == InputsRef::Number(n),
        InputValue::Boolean(b) => r == InputsRef::Boolean(b),
        InputValue::BuildRef(h) => match h {
            Ok(h) => r == InputsRef::Build(ObjectHash(h)),
            Err(_) => false,
        },
        InputValue::BindRef(h) => match h {
            Ok(h) => r == InputsRef::Bind(ObjectHash(h)),
            Err(_) => false,
        },
        InputValue::Array(es) => match r {
            InputsRef::Array(rs) => {
                &&& rs@.len() == es@.len()
                &&& forall|i: int| 0 <= i < es@.len() ==> match #[trigger] es@[i] {
                    Ok(e) => value_built(e, rs@[i]),
                    Err(_) => false,
                }
            },
            _ => false,
        },
        InputValue::Table(ps) => match r {
            InputsRef::Table(rs) => {
                &&& strictly_sorted(pair_keys(entries_pairs(rs@)))
                &&& pairs_map(entries_pairs(rs@)).dom() == entry_values(ps@).dom()
                &&& forall|i: int| #[trigger] last_with_key(ps@, i) ==> match ps@[i] {
                    Ok(p) => value_built(p.1, pairs_map(entries_pairs(rs@))[p.0@]),
                    Err(_) => false,
                }
            },
            _ => false,
        },
        _ => false,
    }
}

proof fn lemma_elements_error_prefix(es: Seq<Result<InputValue, String>>, m: DagManifest, b: bool, j: int)
    requires
        0 <= j <= es.len(),
        elements_error(es.take(j), m, b) is Some,
    ensures
        elements_error(es, m, b) == elements_error(es.take(j), m, b),
    decreases es.len() - j,
{
    if j < es.len() {
        assert(es.take(j + 1).drop_last() =~= es.take(j));
        lemma_elements_error_prefix(es, m, b, j + 1);
    } else {
        assert(es.take(j) =~= es);
    }
}

proof fn lemma_fields_error_prefix(ps: Seq<Result<(String, InputValue), String>>, m: DagManifest, b: bool, j: int)
    requires
        0 <= j <= ps.len(),
        fields_error(ps.take(j), m, b) is Some,
    ensures
        fields_error(ps, m, b) == fields_error(ps.take(j), m, b),
    decreases ps.len() - j,
{
    if j < ps.len() {
        assert(ps.take(j + 1).drop_last() =~= ps.take(j));
        lemma_fields_error_prefix(ps, m, b, j + 1);
    } else {
        assert(ps.take(j) =~= ps);
    }
}

/// Converts an input value, refusing bind references where `builds_only`.
fn convert_value(value: InputValue, manifest: &DagManifest, builds_only: bool) -> (r: Result<InputsRef, String>)
    requires
        manifest.builds.wf(),
        manifest.bindings.wf(),
    ensures
        match r {
            Ok(x) => value_error(value, *manifest, builds_only) is None && value_built(value, x),
            Err(e) => value_error(value, *manifest, builds_only) == Some(e@),
        },
    decreases value,
{
    let ghost orig = value;
    match value {
        InputValue::Text(t) => match t {
            Ok(s) => Ok(InputsRef::String(s)),
            Err(e) => Err(e),
        },
        InputValue::Number(n) => Ok(InputsRef::Number(n)),
        InputValue::Boolean(b) => Ok(InputsRef::Boolean(b)),
        InputValue::BuildRef(h) => match h {
            Err(e) => Err(e),
            Ok(h) => if manifest.builds.contains_key(h.as_str()) {
                Ok(InputsRef::Build(ObjectHash(h)))
            } else {
                Err(concat_str("referenced build not found in manifest: ", h.as_str()))
            },
        },
        InputValue::BindRef(h) => if builds_only {
            Err("build inputs cannot reference binds: binds are side-effectful and cannot be inputs to immutable builds".to_string())
        } else {
            match h {
                Err(e) => Err(e),
                Ok(h) => if manifest.bindings.contains_key(h.as_str()) {
                    Ok(InputsRef::Bind(ObjectHash(h)))
                } else {
                    Err(concat_str("referenced bind not found in manifest: ", h.as_str()))
                },
            }
        },
        InputValue::Array(es) => {
            let ghost es0 = es;
            let ghost ps = es@;
            let total = es.len();
            let mut rest = es;
            let mut rs: Vec<InputsRef> = Vec::new();
            let mut i: usize = 0;
            proof {
                assert(ps.take(0) =~= Seq::<Result<InputValue, String>>::empty());
                assert(rest@ =~= ps.skip(0));
            }
            while rest.len() > 0
                invariant
                    orig == value,
                    orig == InputValue::Array(es0),
                    ps == es0@,
                    total == ps.len(),
                    i <= ps.len(),
                    rest@ == ps.skip(i as int),
                    manifest.builds.wf(),
                    manifest.bindings.wf(),
                    elements_error(ps.take(i as int), *manifest, builds_only) is None,
                    rs@.len() == i,
                    forall|j: int| 0 <= j < i ==> match #[trigger] ps[j] {
                        Ok(e) => value_built(e, rs@[j]),
                        Err(_) => false,
                    },
                decreases rest@.len(),
            {
                let item = rest.remove(0);
                proof {
                    assert(ps.take(i + 1).drop_last() =~= ps.take(i as int));
                    assert(ps.take(i + 1).last() == item);
                    assert(rest@ =~= ps.skip(i + 1));
                }
                match item {
                    Err(e) => {
                        proof {
                            lemma_elements_error_prefix(ps, *manifest, builds_only, i + 1);
                        }
                        return Err(e);
                    },
                    Ok(e) => {
                        proof {
                            assert(decreases_to!(orig => orig->Array_0));
                            assert(decreases_to!(es0 => es0@));
                            assert(decreases_to!(es0@ => es0@[i as int]));
                            assert(decreases_to!(es0@[i as int] => es0@[i as int]->Ok_0));
                        }
                        match convert_value(e, manifest, builds_only) {
                            Err(x) => {
                                proof {
                                    lemma_elements_error_prefix(ps, *manifest, builds_only, i + 1);
                                }
                                return Err(x);
                            },
                            Ok(r) => {
                                rs.push(r);
                            },
                        }
                    },
                }
                i = i + 1;
            }
            proof {
                assert(ps.take(i as int) =~= ps);
            }
            Ok(InputsRef::Array(rs))
        },
        InputValue::Table(pv) => {
            let ghost pv0 = pv;
            let ghost ps = pv@;
            let total = pv.len();
            let mut rest = pv;
            let mut m: StrMap<InputsRef> = StrMap::new();
            let mut i: usize = 0;
            proof {
                assert(ps.take(0) =~= Seq::<Result<(String, InputValue), String>>::empty());
                assert(rest@ =~= ps.skip(0));
            }
            while rest.len() > 0
                invariant
                    orig == value,
                    orig == InputValue::Table(pv0),
                    ps == pv0@,
                    total == ps.len(),
                    i <= ps.len(),
                    rest@ == ps.skip(i as int),
                    manifest.builds.wf(),
                    manifest.bindings.wf(),
                    m.wf(),
                    fields_error(ps.take(i as int), *manifest, builds_only) is None,
                    m@.dom() == entry_values(ps.take(i as int)).dom(),
                    forall|j: int| #[trigger] last_with_key(ps.take(i as int), j) ==> match ps[j] {
                        Ok(p) => value_built(p.1, m@[p.0@]),
                        Err(_) => false,
                    },
                decreases rest@.len(),
            {
                let item = rest.remove(0);
                proof {
                    assert(ps.take(i + 1).drop_last() =~= ps.take(i as int));
                    assert(ps.take(i + 1).last() == item);
                    assert(rest@ =~= ps.skip(i + 1));
                }
                match item {
                    Err(e) => {
                        proof {
                            lemma_fields_error_prefix(ps, *manifest, builds_only, i + 1);
                        }
                        return Err(e);
                    },
                    Ok(p) => {
                        let (k, v) = p;
                        proof {
                            assert(decreases_to!(orig => orig->Table_0));
                            assert(decreases_to!(pv0 => pv0@));
                            assert(decreases_to!(pv0@ => pv0@[i as int]));
                            assert(decreases_to!(pv0@[i as int] => pv0@[i as int]->Ok_0));
                            assert(decreases_to!(pv0@[i as int]->Ok_0 => pv0@[i as int]->Ok_0.1));
                        }
                        match convert_value(v, manifest, builds_only) {
                            Err(x) => {
                                proof {
                                    lemma_fields_error_prefix(ps, *manifest, builds_only, i + 1);
                                }
                                return Err(x);
                            },
                            Ok(r) => {
                                let ghost before = m@;
                                let ghost key = k@;
                                m.insert(k, r);
                                proof {
                                    let pre = ps.take(i as int);
                                    let post = ps.take(i + 1);
                                    assert(entry_values(post) == entry_values(pre).insert(key, v));
                                    assert(m@.dom() =~= entry_values(post).dom());
                                    assert forall|j: int| #[trigger] last_with_key(post, j) implies match ps[j] {
                                        Ok(q) => value_built(q.1, m@[q.0@]),
                                        Err(_) => false,
                                    } by {
                                        if j < i {
                                            assert(post[i as int] is Ok);
                                            assert(ps[j]->Ok_0.0@ != key);
                                            assert forall|x: int| j < x < pre.len() && #[trigger] pre[x] is Ok implies pre[x]->Ok_0.0@ != pre[j]->Ok_0.0@ by {
                                                assert(post[x] == pre[x]);
                                            }
                                            assert(last_with_key(pre, j));
                                        }
                                    }
                                }
                            },
                        }
                    },
                }
                i = i + 1;
            }
            proof {
                assert(ps.take(i as int) =~= ps);
            }
            let rs = m.into_entries();
            Ok(InputsRef::Table(rs))
        },
        InputValue::Nil => Err("nil values not allowed in inputs".to_string()),
        InputValue::Unsupported(t) => {
            let s = concat_str("unsupported input type: \"", t.as_str());
            Err(concat_str(s.as_str(), "\""))
        },
    }
}

proof fn lemma_elements_ok(es: Seq<Result<InputValue, String>>, m: DagManifest, b: bool)
    requires
        elements_error(es, m, b) is None,
    ensures
        forall|i: int| 0 <= i < es.len() ==> (#[trigger] es[i]) is Ok && value_error(es[i]->Ok_0, m, b) is None,
    decreases es.len(),
{
    if es.len() > 0 {
        lemma_elements_ok(es.drop_last(), m, b);
        assert forall|i: int| 0 <= i < es.len() implies (#[trigger] es[i]) is Ok && value_error(es[i]->Ok_0, m, b) is None by {
            if i < es.len() - 1 {
                assert(es[i] == es.drop_last()[i]);
            }
        }
    }
}

proof fn lemma_fields_ok(ps: Seq<Result<(String, InputValue), String>>, m: DagManifest, b: bool)
    requires
        fields_error(ps, m, b) is None,
    ensures
        forall|i: int| 0 <= i < ps.len() ==> (#[trigger] ps[i]) is Ok && value_error(ps[i]->Ok_0.1, m, b) is None,
    decreases ps.len(),
{
    if ps.len() > 0 {
        lemma_fields_ok(ps.drop_last(), m, b);
        assert forall|i: int| 0 <= i < ps.len() implies (#[trigger] ps[i]) is Ok && value_error(ps[i]->Ok_0.1, m, b) is None by {
            if i < ps.len() - 1 {
                assert(ps[i] == ps.drop_last()[i]);
            }
        }
    }
}

/// Every key of a table's entries has an entry that is the last under it.
proof fn lemma_last_entry_of_key<T>(ps: Seq<Result<(String, T), String>>, k: Seq<char>)
    requires
        entry_values(ps).dom().contains(k),
    ensures
        exists|i: int| #[trigger] last_with_key(ps, i) && ps[i]->Ok_0.0@ == k,
    decreases ps.len(),
{
    let n = ps.len() - 1;
    if ps.last() is Ok && ps.last()->Ok_0.0@ == k {
        assert(last_with_key(ps, n));
    } else {
        assert(entry_values(ps.drop_last()).dom().contains(k));
        lemma_last_entry_of_key(ps.drop_last(), k);
        let i = choose|i: int| #[trigger] last_with_key(ps.drop_last(), i) && ps.drop_last()[i]->Ok_0.0@ == k;
        assert(ps[i] == ps.drop_last()[i]);
        assert forall|j: int| i < j < ps.len() && #[trigger] ps[j] is Ok implies ps[j]->Ok_0.0@ != ps[i]->Ok_0.0@ by {
            if j < n {
                assert(ps[j] == ps.drop_last()[j]);
            }
        }
        assert(last_with_key(ps, i));
    }
}

proof fn lemma_list_without_bind(s: Seq<InputsRef>)
    requires
        forall|i: int| 0 <= i < s.len() ==> !has_bind_ref(#[trigger] s[i]),
    ensures
        !list_has_bind_ref(s),
    decreases s.len(),
{
    if s.len() > 0 {
        lemma_list_without_bind(s.drop_last());
        assert(!has_bind_ref(s[s.len() - 1]));
    }
}

proof fn lemma_table_without_bind(s: Seq<(String, InputsRef)>)
    requires
        forall|i: int| 0 <= i < s.len() ==> !has_bind_ref(#[trigger] s[i].1),
    ensures
        !table_has_bind_ref(s),
    decreases s.len(),
{
    if s.len() > 0 {
        lemma_table_without_bind(s.drop_last());
        assert(!has_bind_ref(s[s.len() - 1].1));
    }
}

/// The inputs of a build never reference a bind: whatever converts without
/// error, with bind references refused, holds no bind reference anywhere.
pub proof fn lemma_build_inputs_have_no_bind_refs(v: InputValue, m: DagManifest, r: InputsRef)
    requires
        value_error(v, m, true) is None,
        value_built(v, r),
    ensures
        !has_bind_ref(r),
    decreases v,
{
    match v {
        InputValue::Array(es) => {
            let rs = r->Array_0;
            lemma_elements_ok(es@, m, true);
            assert forall|i: int| 0 <= i < rs@.len() implies !has_bind_ref(#[trigger] rs@[i]) by {
                assert(es@[i] is Ok);
                assert(decreases_to!(v => v->Array_0));
                assert(decreases_to!(es => es@));
                assert(decreases_to!(es@ => es@[i]));
                assert(decreases_to!(es@[i] => es@[i]->Ok_0));
                lemma_build_inputs_have_no_bind_refs(es@[i]->Ok_0, m, rs@[i]);
            }
            lemma_list_without_bind(rs@);
        },
        InputValue::Table(ps) => {
            let rs = r->Table_0;
            let e = entries_pairs(rs@);
            lemma_fields_ok(ps@, m, true);
            lemma_sorted_distinct(pair_keys(e));
            assert forall|j: int| 0 <= j < rs@.len() implies !has_bind_ref(#[trigger] rs@[j].1) by {
                let k = rs@[j].0@;
                assert(e[j] == (k, rs@[j].1));
                lemma_pairs_map_index(e, j);
                assert(entry_values(ps@).dom().contains(k));
                lemma_last_entry_of_key(ps@, k);
                let i = choose|i: int| #[trigger] last_with_key(ps@, i) && ps@[i]->Ok_0.0@ == k;
                assert(decreases_to!(v => v->Table_0));
                assert(decreases_to!(ps => ps@));
                assert(decreases_to!(ps@ => ps@[i]));
                assert(decreases_to!(ps@[i] => ps@[i]->Ok_0));
                assert(decreases_to!(ps@[i]->Ok_0 => ps@[i]->Ok_0.1));
                lemma_build_inputs_have_no_bind_refs(ps@[i]->Ok_0.1, m, rs@[j].1);
            }
            lemma_table_without_bind(rs@);
        },
        _ => {},
    }
}

/// Converts an input value given in Lua into the inputs of a bind: build and
/// bind references must be in the manifest.
pub fn lua_value_to_inputs_ref(value: InputValue, manifest: &DagManifest) -> (r: Result<InputsRef, String>)
    requires
        manifest.builds.wf(),
        manifest.bindings.wf(),
    ensures
        match r {
            Ok(x) => value_error(value, *manifest, false) is None && value_built(value, x),
            Err(e) => value_error(value, *manifest, false) == Some(e@),
        },
{
    convert_value(value, manifest, false)
}

/// Converts an input value given in Lua into the inputs of a build: build
/// references must be in the manifest, and a bind reference is refused.
pub fn lua_value_to_build_inputs_ref(value: InputValue, manifest: &DagManifest) -> (r: Result<InputsRef, String>)
    requires
        manifest.builds.wf(),
        manifest.bindings.wf(),
    ensures
        match r {
            Ok(x) => value_error(value, *manifest, true) is None && value_built(value, x) && !has_bind_ref(x),
            Err(e) => value_error(value, *manifest, true) == Some(e@),
        },
{
    let r = convert_value(value, manifest, true);
    proof {
        if r is Ok {
            lemma_build_inputs_have_no_bind_refs(value, *manifest, r->Ok_0);
        }
    }
    r
}

} // verus!
