//! A variable length matrix optimized for read-only
//! rows and statically known row count.
use vstd::prelude::*;

use crate::jagged_vec::{
    ends_error, lemma_ends_error, lemma_ends_error_prefix, rows_at, split_rows, valid_ends,
};

verus! {

/// [`JaggedConstRowArray::new`] construction error.
#[derive(Debug, PartialEq, Eq, Clone, Copy)]
pub enum Error {
    /// An `end` in `ends` was lower than a previous one.
    BadEnd { i: usize },
    /// An `end` in `ends` was too large.
    TooLongEnd { i: usize, len: u32, end: u32 },
}

/// The error [`JaggedConstRowArray::new`] returns for a problem found in `ends`.
pub open spec fn error_of(e: crate::jagged_vec::Error) -> Error {
    match e {
        crate::jagged_vec::Error::BadEnd { i } => Error::BadEnd { i },
        crate::jagged_vec::Error::TooLongEnd { i, len, end } => Error::TooLongEnd { i, len, end },
    }
}

/// A variable length matrix optimized for read-only rows and statically known row count.
#[derive(Debug, PartialEq, Eq)]
pub struct JaggedConstRowArray<V, const R: usize> {
    ends: Box<[u32; R]>,
    data: Box<[V]>,
}

impl<V, const R: usize> View for JaggedConstRowArray<V, R> {
    type V = Seq<Seq<V>>;

    closed spec fn view(&self) -> Seq<Seq<V>> {
        rows_at(self.ends@, self.data@)
    }
}

impl<V, const R: usize> JaggedConstRowArray<V, R> {
    #[verifier::type_invariant]
    closed spec fn inv(self) -> bool {
        &&& valid_ends(self.ends@, self.data@.len() as int)
        &&& self.ends@.len() == R
    }

    /// All the cells, row after row.
    pub closed spec fn cells(&self) -> Seq<V> {
        self.data@
    }

    /// How many cells are contained in this `JaggedConstRowArray`.
    pub fn len(&self) -> (r: usize)
        ensures
            r == self.cells().len(),
    {
        self.data.len()
    }

    /// Is this array empty (no cells, may have several empty rows).
    pub fn is_empty(&self) -> (r: bool)
        ensures
            r == (self.cells().len() == 0),
    {
        self.data.len() == 0
    }

    /// How many rows this `JaggedConstRowArray` has: `R + 1`.
    pub fn height(&self) -> (r: usize)
        requires
            R < usize::MAX,
        ensures
            r == self@.len(),
            r == R + 1,
    {
        proof {
            use_type_invariant(self);
        }
        R + 1
    }

    /// Create a [`JaggedConstRowArray`] of `R + 1` rows, values of `ends` are the
    /// end indicies (exclusive) of each row in `data`.
    ///
    /// Note that the _last index_ should be elided.
    /// The last row will be the values between the last `end` in `ends` and
    /// the total size of the `data` array.
    ///
    /// Returns `Err` if:
    ///
    /// - An `ends[i] > data.len()`
    /// - An `ends[i+1] < ends[i]`
    ///
    /// the error being about the first such `i`.
    pub fn new(ends: Box<[u32; R]>, data: Box<[V]>) -> (r: Result<Self, Error>)
        ensures
            r is Err <==> ends_error(ends@, data@.len() as u32) is Some,
            r matches Err(e) ==> ends_error(ends@, data@.len() as u32) matches Some(x) && e
                == error_of(x),
            r matches Ok(j) ==> j@ == rows_at(ends@, data@) && j.cells() == data@,
    {
        let mut previous_end: u32 = 0;
        let last_end = data.len() as u32;
        let mut i: usize = 0;
        while i < R
            invariant
                i <= R,
                ends@.len() == R,
                last_end == data@.len() as u32,
                ends_error(ends@.take(i as int), last_end) is None,
                i > 0 ==> previous_end == ends@[i - 1],
                i == 0 ==> previous_end == 0,
            decreases R - i,
        {
            let end = ends[i];
            let ghost t = ends@.take(i + 1);
            proof {
                assert(t.drop_last() =~= ends@.take(i as int));
            }
            if end > last_end {
                proof {
                    lemma_ends_error_prefix(ends@, last_end, (i + 1) as int);
                }
                return Err(Error::TooLongEnd { i, len: last_end, end });
            }
            if end < previous_end {
                proof {
                    lemma_ends_error_prefix(ends@, last_end, (i + 1) as int);
                }
                return Err(Error::BadEnd { i });
            }
            previous_end = end;
            i = i + 1;
        }
        proof {
            assert(ends@.take(i as int) =~= ends@);
            lemma_ends_error(ends@, last_end);
        }
        Ok(Self { ends, data })
    }

    /// Get slice to row at given `index`.
    ///
    /// # Panics
    ///
    /// When `index > R`
    #[inline]
    pub fn row(&self, index: usize) -> (r: &[V])
        requires
            index <= R,
        ensures
            r@ == self@[index as int],
    {
        proof {
            use_type_invariant(self);
            if index > 0 && index < R {
                assert(self.ends@[index - 1] <= self.ends@[index as int]);
            }
        }
        let start = if index == 0 {
            0
        } else {
            self.ends[index - 1] as usize
        };
        let end = if index < R {
            self.ends[index] as usize
        } else {
            self.data.len()
        };
        &self.data[start..end]
    }

    /// Get `V` at exact `direct_index` ignoring row sizes,
    /// acts as if the whole array was a single row.
    ///
    /// `None` when `direct_index` is out of bound.
    #[inline]
    pub fn get(&self, direct_index: usize) -> (r: Option<&V>)
        ensures
            r is Some <==> direct_index < self.cells().len(),
            r matches Some(v) ==> *v == self.cells()[direct_index as int],
    {
        if direct_index < self.data.len() {
            Some(&self.data[direct_index])
        } else {
            None
        }
    }

    /// Turn this compact jagged array into a sparse representation.
    ///
    /// The returned `Vec<Vec<V>>` is an [Iliffe vector]. Iterating over it will
    /// be much slower than iterating over `JaggedConstRowArray`, but extending individual
    /// rows is much less costly.
    ///
    /// [Iliffe vector]: https://en.wikipedia.org/wiki/Iliffe_vector
    pub fn into_vecs(self) -> (r: Vec<Vec<V>>)
        ensures
            r@.len() == self@.len(),
            forall|y: int| 0 <= y < r@.len() ==> #[trigger] r@[y]@ == self@[y],
    {
        proof {
            use_type_invariant(&self);
        }
        let JaggedConstRowArray { ends, data } = self;
        let data = data.into_vec();
        split_rows(ends.as_slice(), data)
    }
}

} // verus!
