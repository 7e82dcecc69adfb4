//! Output tables: what a build's or bind's `create` (or `update`) returned,
//! read as a map from output names to values.
use vstd::prelude::*;
use crate::strmap::StrMap;
use crate::lua::value::entry_values;

verus! {

/// What a `create`, `update` or `check` function returned.
pub enum ReturnedOutputs {
    /// A table: its entries in the order they were walked (`Err`: the message
    /// of an entry that is not a pair of strings).
    Table(Vec<Result<(String, String), String>>),
    /// `nil`.
    Nil,
    /// A value of another kind, by its Lua type name.
    Other(String),
}

/// The first entry of an output table that could not be read, in order.
pub open spec fn outputs_error(ps: Seq<Result<(String, String), String>>) -> Option<Seq<char>>
    decreases ps.len(),
{
    if ps.len() == 0 {
        None
    } else {
        match outputs_error(ps.drop_last()) {
            Some(e) => Some(e),
            None => match ps.last() {
                Ok(_) => None,
                Err(e) => Some(e@),
            },
        }
    }
}

proof fn lemma_outputs_error_prefix(ps: Seq<Result<(String, String), String>>, j: int)
    requires
        0 <= j <= ps.len(),
        outputs_error(ps.take(j)) is Some,
    ensures
        outputs_error(ps) == outputs_error(ps.take(j)),
    decreases ps.len() - j,
{
    if j < ps.len() {
        assert(ps.take(j + 1).drop_last() =~= ps.take(j));
        lemma_outputs_error_prefix(ps, j + 1);
    } else {
        assert(ps.take(j) =~= ps);
    }
}

/// Reads an output table: the first entry that could not be read is an
/// error; else each name maps to its (last) value.
pub fn parse_outputs(pairs: Vec<Result<(String, String), String>>) -> (r: Result<StrMap<String>, String>)
    ensures
        match r {
            Ok(m) => outputs_error(pairs@) is None && m.wf() && m@ == entry_values(pairs@),
            Err(e) => outputs_error(pairs@) == Some(e@),
        },
{
    let ghost ps = pairs@;
    let total = pairs.len();
    let mut rest = pairs;
    let mut m: StrMap<String> = StrMap::new();
    let mut i: usize = 0;
    proof {
        assert(ps.take(0) =~= Seq::<Result<(String, String), String>>::empty());
        assert(rest@ =~= ps.skip(0));
        assert(m@ =~= entry_values(ps.take(0)));
    }
    while rest.len() > 0
        invariant
            ps == pairs@,
            total == ps.len(),
            i <= ps.len(),
            rest@ == ps.skip(i as int),
            m.wf(),
            outputs_error(ps.take(i as int)) is None,
            m@ == entry_values(ps.take(i as int)),
        decreases rest@.len(),
    {
        let item = rest.remove(0);
        proof {
            assert(ps.take(i + 1).drop_last() =~= ps.take(i as int));
            assert(ps.take(i + 1).last() == item);
            assert(rest@ =~= ps.skip(i + 1));
        }
        match item {
            Err(e) => {
                proof {
                    lemma_outputs_error_prefix(ps, i + 1);
                }
                return Err(e);
            },
            Ok(p) => {
                let (k, v) = p;
                m.insert(k, v);
            },
        }
        i = i + 1;
    }
    proof {
        assert(ps.take(i as int) =~= ps);
    }
    Ok(m)
}

} // verus!
