//! JSON values as plain data, read and written through `serde_json`, and the
//! field operations on objects that the library's edits are made of.
use vstd::prelude::*;

verus! {

/// `serde_json`'s number type, carried through unchanged.
#[verifier::external_type_specification]
#[verifier::external_body]
pub struct ExJsonNumber(serde_json::Number);

/// `serde_json`'s value type, converted to and from `JsonValue` at the edge.
#[verifier::external_type_specification]
#[verifier::external_body]
pub struct ExJsonDocument(serde_json::Value);

/// A JSON value. An object lists its fields in order; `serde_json` gives
/// them sorted by name, each name once.
#[derive(Debug, PartialEq)]
pub enum JsonValue {
    Null,
    Bool(bool),
    Number(serde_json::Number),
    Str(String),
    Array(Vec<JsonValue>),
    Object(Vec<(String, JsonValue)>),
}

/// The value `serde_json::from_str` reads in a text, as a `JsonValue`; none
/// where the text is not JSON.
pub uninterp spec fn json_parse_of(text: Seq<char>) -> Option<JsonValue>;

/// The text `serde_json::to_string_pretty` writes for a value; none where it
/// reports an error.
pub uninterp spec fn json_pretty_of(v: JsonValue) -> Option<Seq<char>>;

/// Converts a `serde_json` value to a `JsonValue`, one variant for one
/// variant, each field of an object in the order `serde_json` lists them.
#[verifier::external_body]
fn from_serde(v: serde_json::Value) -> JsonValue {
    match v {
        serde_json::Value::Null => JsonValue::Null,
        serde_json::Value::Bool(b) => JsonValue::Bool(b),
        serde_json::Value::Number(n) => JsonValue::Number(n),
        serde_json::Value::String(s) => JsonValue::Str(s),
        serde_json::Value::Array(a) => JsonValue::Array(a.into_iter().map(from_serde).collect()),
        serde_json::Value::Object(m) => JsonValue::Object(m.into_iter().map(|(k, x)| (k, from_serde(x))).collect()),
    }
}

/// Converts a `JsonValue` to a `serde_json` value, one variant for one
/// variant; the fields of an object go into `serde_json`'s map in order.
#[verifier::external_body]
fn to_serde(v: &JsonValue) -> serde_json::Value {
    match v {
        JsonValue::Null => serde_json::Value::Null,
        JsonValue::Bool(b) => serde_json::Value::Bool(*b),
        JsonValue::Number(n) => serde_json::Value::Number(n.clone()),
        JsonValue::Str(s) => serde_json::Value::String(s.clone()),
        JsonValue::Array(a) => serde_json::Value::Array(a.iter().map(to_serde).collect()),
        JsonValue::Object(m) => serde_json::Value::Object(m.iter().map(|(k, x)| (k.clone(), to_serde(x))).collect()),
    }
}

/// Calls `serde_json::from_str` for a `serde_json::Value`. Trusted: what is
/// read depends on the text alone.
#[verifier::external_body]
pub(crate) fn json_parse(text: &str) -> (r: Option<JsonValue>)
    ensures
        r == json_parse_of(text@),
{
    serde_json::from_str::<serde_json::Value>(text).ok().map(from_serde)
}

/// Calls `serde_json::to_string_pretty` on the value. Trusted: the text
/// depends on the value alone.
#[verifier::external_body]
pub(crate) fn json_pretty(v: &JsonValue) -> (r: Option<String>)
    ensures
        match r {
            Some(t) => json_pretty_of(*v) == Some(t@),
            None => json_pretty_of(*v) is None,
        },
{
    serde_json::to_string_pretty(&to_serde(v)).ok()
}

/// The position of the first field named `k`, or -1 where there is none.
pub open spec fn field_index(ps: Seq<(String, JsonValue)>, k: Seq<char>) -> int
    decreases ps.len(),
{
    if ps.len() == 0 {
        -1
    } else {
        let i = field_index(ps.drop_last(), k);
        if i >= 0 {
            i
        } else if ps.last().0@ == k {
            ps.len() - 1
        } else {
            -1
        }
    }
}

/// `qs` is `ps` with the field `k` set to a value that `ok` accepts: the
/// first field of that name keeps its place and name and the others stay as
/// they were; where there is none, a field of that name is added at the end.
pub open spec fn field_set(ps: Seq<(String, JsonValue)>, k: Seq<char>, qs: Seq<(String, JsonValue)>, ok: spec_fn(JsonValue) -> bool) -> bool {
    let i = field_index(ps, k);
    if i >= 0 {
        &&& qs.len() == ps.len()
        &&& qs[i].0 == ps[i].0
        &&& ok(qs[i].1)
        &&& forall|j: int| 0 <= j < ps.len() && j != i ==> qs[j] == ps[j]
    } else {
        &&& qs.len() == ps.len() + 1
        &&& qs.drop_last() == ps
        &&& qs.last().0@ == k
        &&& ok(qs.last().1)
    }
}

/// `field_index` is a position of a field of that name, the first one.
pub proof fn lemma_field_index(ps: Seq<(String, JsonValue)>, k: Seq<char>)
    ensures
        -1 <= field_index(ps, k) < ps.len(),
        field_index(ps, k) >= 0 ==> ps[field_index(ps, k)].0@ == k,
        forall|j: int| 0 <= j < ps.len() && (field_index(ps, k) < 0 || j < field_index(ps, k)) ==> #[trigger] ps[j].0@ != k,
    decreases ps.len(),
{
    if ps.len() > 0 {
        lemma_field_index(ps.drop_last(), k);
        assert forall|j: int| 0 <= j < ps.len() - 1 implies ps.drop_last()[j] == ps[j] by {}
    }
}

/// The first field of a name is found the same in two field lists with the
/// same names in the same places.
pub proof fn lemma_field_index_same_names(s: Seq<(String, JsonValue)>, t: Seq<(String, JsonValue)>, k: Seq<char>)
    requires
        s.len() == t.len(),
        forall|j: int| 0 <= j < s.len() ==> #[trigger] s[j].0 == t[j].0,
    ensures
        field_index(s, k) == field_index(t, k),
    decreases s.len(),
{
    if s.len() > 0 {
        assert forall|j: int| 0 <= j < s.len() - 1 implies #[trigger] s.drop_last()[j].0 == t.drop_last()[j].0 by {
            assert(s[j].0 == t[j].0);
        }
        lemma_field_index_same_names(s.drop_last(), t.drop_last(), k);
        assert(s[s.len() - 1].0 == t[t.len() - 1].0);
    }
}

/// Setting a field of `t` sets it of `s` too, where `s` and `t` differ at
/// most in the value of that field.
pub proof fn lemma_field_set_transfer(
    s: Seq<(String, JsonValue)>,
    t: Seq<(String, JsonValue)>,
    k: Seq<char>,
    qs: Seq<(String, JsonValue)>,
    ok: spec_fn(JsonValue) -> bool,
)
    requires
        s.len() == t.len(),
        forall|j: int| 0 <= j < s.len() ==> #[trigger] s[j].0 == t[j].0,
        forall|j: int| 0 <= j < s.len() && j != field_index(s, k) ==> #[trigger] s[j] == t[j],
        field_set(t, k, qs, ok),
    ensures
        field_set(s, k, qs, ok),
{
    lemma_field_index_same_names(s, t, k);
    lemma_field_index(s, k);
    let i = field_index(s, k);
    if i >= 0 {
        assert(s[i].0 == t[i].0);
        assert forall|j: int| 0 <= j < s.len() && j != i implies qs[j] == s[j] by {
            assert(s[j] == t[j]);
        }
    } else {
        assert(s =~= t);
    }
}

/// The position of the first field named `k`.
pub fn find_field(ps: &Vec<(String, JsonValue)>, k: &str) -> (r: Option<usize>)
    ensures
        match r {
            Some(i) => i == field_index(ps@, k@),
            None => field_index(ps@, k@) < 0,
        },
{
    let mut j: usize = 0;
    while j < ps.len()
        invariant
            j <= ps@.len(),
            field_index(ps@.take(j as int), k@) < 0,
        decreases ps@.len() - j,
    {
        proof {
            assert(ps@.take(j + 1).drop_last() =~= ps@.take(j as int));
        }
        if crate::text::compare_str_eq(ps[j].0.as_str(), k) {
            proof {
                assert(field_index(ps@.take(j + 1), k@) == j);
                lemma_field_index_prefix(ps@, j + 1, k@);
            }
            return Some(j);
        }
        j = j + 1;
    }
    proof {
        assert(ps@.take(ps@.len() as int) =~= ps@);
    }
    None
}

/// A field found in a prefix is the first of that name in the whole list.
proof fn lemma_field_index_prefix(ps: Seq<(String, JsonValue)>, m: int, k: Seq<char>)
    requires
        0 <= m <= ps.len(),
        field_index(ps.take(m), k) >= 0,
    ensures
        field_index(ps, k) == field_index(ps.take(m), k),
    decreases ps.len() - m,
{
    if m < ps.len() {
        assert(ps.take(m + 1).drop_last() =~= ps.take(m));
        lemma_field_index_prefix(ps, m + 1, k);
    } else {
        assert(ps.take(m) =~= ps);
    }
}

/// Sets the field `k` of an object's field list to `x` (see `field_set`).
pub fn set_field(ps: &mut Vec<(String, JsonValue)>, k: &str, x: JsonValue)
    ensures
        field_set(old(ps)@, k@, final(ps)@, |y: JsonValue| y == x),
{
    match find_field(ps, k) {
        Some(j) => {
            proof {
                lemma_field_index(old(ps)@, k@);
            }
            let (name, _) = ps.remove(j);
            ps.insert(j, (name, x));
            proof {
                lemma_field_index(old(ps)@, k@);
                assert(final(ps)@ =~= old(ps)@.update(j as int, (old(ps)@[j as int].0, x)));
            }
        },
        None => {
            ps.push((k.to_owned(), x));
            proof {
                assert(final(ps)@.drop_last() =~= old(ps)@);
            }
        },
    }
}

} // verus!
