//! Input values of builds and binds: strings, numbers, booleans, tables and
//! arrays of them, and references to other builds and binds.
use vstd::prelude::*;
use crate::hash::ObjectHash;

verus! {

/// The inputs of a build or bind.
#[derive(Debug, PartialEq, Eq)]
pub enum InputsRef {
    /// A string.
    String(String),
    /// A number, as the bits of its IEEE 754 double.
    Number(u64),
    /// A boolean.
    Boolean(bool),
    /// A table, by key in ascending order.
    Table(Vec<(String, InputsRef)>),
    /// An array.
    Array(Vec<InputsRef>),
    /// A reference to a build's outputs.
    Build(ObjectHash),
    /// A reference to a bind's outputs.
    Bind(ObjectHash),
}

/// Whether some value within the inputs references a bind.
pub open spec fn has_bind_ref(i: InputsRef) -> bool
    decreases i,
{
    match i {
        InputsRef::Bind(_) => true,
        InputsRef::Table(v) => table_has_bind_ref(v@),
        InputsRef::Array(v) => list_has_bind_ref(v@),
        _ => false,
    }
}

/// Whether some value of a table references a bind.
pub open spec fn table_has_bind_ref(s: Seq<(String, InputsRef)>) -> bool
    decreases s,
{
    if s.len() == 0 {
        false
    } else {
        table_has_bind_ref(s.drop_last()) || has_bind_ref(s.last().1)
    }
}

/// Whether some element of an array references a bind.
pub open spec fn list_has_bind_ref(s: Seq<InputsRef>) -> bool
    decreases s,
{
    if s.len() == 0 {
        false
    } else {
        list_has_bind_ref(s.drop_last()) || has_bind_ref(s.last())
    }
}

/// Checks whether the inputs reference a bind anywhere.
pub fn contains_bind_ref(inputs: &InputsRef) -> (b: bool)
    ensures
        b == has_bind_ref(*inputs),
    decreases inputs,
{
    match inputs {
        InputsRef::Bind(_) => true,
        InputsRef::Table(v) => {
            let mut found = false;
            let mut i: usize = 0;
            while i < v.len()
                invariant
                    i <= v@.len(),
                    found == table_has_bind_ref(v@.take(i as int)),
                    *inputs == InputsRef::Table(*v),
                decreases v@.len() - i,
            {
                proof {
                    assert(v@.take(i + 1).drop_last() =~= v@.take(i as int));
                    assert(decreases_to!(*inputs => (*inputs)->Table_0));
                    assert(decreases_to!(*v => v@));
                    assert(decreases_to!(v@ => v@[i as int]));
                    assert(decreases_to!(v@[i as int] => v@[i as int].1));
                }
                let here = contains_bind_ref(&v[i].1);
                found = found || here;
                i = i + 1;
            }
            proof {
                assert(v@.take(v@.len() as int) =~= v@);
            }
            found
        },
        InputsRef::Array(v) => {
            let mut found = false;
            let mut i: usize = 0;
            while i < v.len()
                invariant
                    i <= v@.len(),
                    found == list_has_bind_ref(v@.take(i as int)),
                    *inputs == InputsRef::Array(*v),
                decreases v@.len() - i,
            {
                proof {
                    assert(v@.take(i + 1).drop_last() =~= v@.take(i as int));
                    assert(decreases_to!(*inputs => (*inputs)->Array_0));
                    assert(decreases_to!(*v => v@));
                    assert(decreases_to!(v@ => v@[i as int]));
                }
                let here = contains_bind_ref(&v[i]);
                found = found || here;
                i = i + 1;
            }
            proof {
                assert(v@.take(v@.len() as int) =~= v@);
            }
            found
        },
        _ => false,
    }
}

} // verus!
