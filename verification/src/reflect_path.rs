//! Paths from a value to one of its nested fields (`.field`, `.0`, `[3]`),
//! their parsing, and the bookkeeping that keeps several mutable accesses
//! into one value apart.
use vstd::prelude::*;

pub mod atom;
pub mod parse;

verus! {

/// A component of a [`Path`] from a source value to a target value.
///
/// Each `Access` goes from a "containing" type (such as a `struct`, a tuple
/// or an array) to a "contained" type. Recursively, until the final access
/// is reached.
#[derive(PartialEq, Debug, Clone, Copy)]
pub enum Access<'a> {
    /// A named field, by the bytes of its name.
    Field(&'a [u8]),
    /// The field of a tuple (or tuple struct) at this position.
    TupleIndex(usize),
    /// The element of an array or a list at this index.
    ArrayIndex(usize),
}

/// What an [`Access`] designates: its kind (`0` a field, `1` a tuple
/// index, `2` an array index), the name of the field, and the index.
pub type AccessModel = (u8, Seq<u8>, usize);

impl<'a> Access<'a> {
    pub open spec fn model(self) -> AccessModel {
        match self {
            Access::Field(name) => (0u8, name@, 0usize),
            Access::TupleIndex(i) => (1u8, Seq::empty(), i),
            Access::ArrayIndex(i) => (2u8, Seq::empty(), i),
        }
    }

    /// Whether `self` and `other` designate the same component.
    pub fn same_as(&self, other: &Access) -> (r: bool)
        ensures
            r == (self.model() == other.model()),
    {
        match (self, other) {
            (Access::Field(a), Access::Field(b)) => same_bytes(a, b),
            (Access::TupleIndex(a), Access::TupleIndex(b)) => *a == *b,
            (Access::ArrayIndex(a), Access::ArrayIndex(b)) => *a == *b,
            _ => false,
        }
    }
}

/// Whether `a` and `b` hold the same bytes.
fn same_bytes(a: &[u8], b: &[u8]) -> (r: bool)
    ensures
        r == (a@ == b@),
{
    if a.len() != b.len() {
        return false;
    }
    let mut i: usize = 0;
    while i < a.len()
        invariant
            a@.len() == b@.len(),
            i <= a@.len(),
            forall|k: int| 0 <= k < i ==> a@[k] == b@[k],
        decreases a@.len() - i,
    {
        if a[i] != b[i] {
            return false;
        }
        i = i + 1;
    }
    assert(a@ =~= b@);
    true
}

/// A list of [`Access`]es, from a source value to a nested value.
#[derive(Debug)]
pub struct Path<'a>(pub Vec<Access<'a>>);

impl<'a> Path<'a> {
    pub open spec fn model(&self) -> Seq<AccessModel> {
        self.0@.map_values(|a: Access<'a>| a.model())
    }
}

/// Some paths share data, therefore exclude a split mutable borrow.
#[derive(Debug, PartialEq, Eq, Clone, Copy)]
pub struct Incompatible;

} // verus!
