//! An extensible (ie: can add more rows) [jagged array].
//!
//! [jagged array]: https://en.wikipedia.org/wiki/Jagged_array
use vstd::prelude::*;

verus! {

/// [`JaggedVec::new`] construction error.
#[derive(Debug, PartialEq, Eq, Clone, Copy)]
pub enum Error {
    /// An `end` in `ends` was lower than a previous one.
    BadEnd { i: usize },
    /// An `end` in `ends` was too large.
    TooLongEnd { i: usize, len: u32, end: u32 },
}

/// The first position `i` of `ends` where `ends[i] > len` or
/// `ends[i] < ends[i - 1]`, and the error it causes, if any.
pub open spec fn ends_error(ends: Seq<u32>, len: u32) -> Option<Error>
    decreases ends.len(),
{
    if ends.len() == 0 {
        None
    } else {
        match ends_error(ends.drop_last(), len) {
            Some(e) => Some(e),
            None => {
                let i = ends.len() - 1;
                if ends[i] > len {
                    Some(Error::TooLongEnd { i: i as usize, len, end: ends[i] })
                } else if i > 0 && ends[i] < ends[i - 1] {
                    Some(Error::BadEnd { i: i as usize })
                } else {
                    None
                }
            },
        }
    }
}

/// `ends` never decreases and stays within `len`.
pub open spec fn valid_ends(ends: Seq<u32>, len: int) -> bool {
    &&& forall|a: int, b: int| 0 <= a <= b < ends.len() ==> ends[a] <= ends[b]
    &&& forall|a: int| 0 <= a < ends.len() ==> ends[a] <= len
}

/// `ends_error` finds nothing exactly when the ends are valid.
pub proof fn lemma_ends_error(ends: Seq<u32>, len: u32)
    ensures
        ends_error(ends, len) is None <==> valid_ends(ends, len as int),
    decreases ends.len(),
{
    if ends.len() > 0 {
        let prefix = ends.drop_last();
        lemma_ends_error(prefix, len);
        if valid_ends(ends, len as int) {
            assert forall|a: int, b: int| 0 <= a <= b < prefix.len() implies prefix[a]
                <= prefix[b] by {
                assert(ends[a] <= ends[b]);
            }
            assert forall|a: int| 0 <= a < prefix.len() implies prefix[a] <= len by {
                assert(ends[a] <= len);
            }
            let i = ends.len() - 1;
            if i > 0 {
                assert(ends[i - 1] <= ends[i]);
            }
        }
        if ends_error(ends, len) is None {
            let i = ends.len() - 1;
            assert forall|a: int, b: int| 0 <= a <= b < ends.len() implies ends[a] <= ends[b] by {
                if b == i && a < b {
                    assert(prefix[a] <= prefix[i - 1]);
                } else if b < i {
                    assert(prefix[a] <= prefix[b]);
                }
            }
            assert forall|a: int| 0 <= a < ends.len() implies ends[a] <= len by {
                if a < i {
                    assert(prefix[a] <= len);
                }
            }
        }
    }
}

/// Where row `y` starts: the end of the previous row, `0` for the first one.
pub open spec fn start_of(ends: Seq<u32>, y: int) -> int {
    if y <= 0 {
        0
    } else {
        ends[y - 1] as int
    }
}

/// Where row `y` ends: `ends[y]`, the end of `data` for the last row.
pub open spec fn end_of(ends: Seq<u32>, len: int, y: int) -> int {
    if y < ends.len() {
        ends[y] as int
    } else {
        len
    }
}

/// The `ends.len() + 1` rows of `data` cut at `ends`.
pub open spec fn rows_at<T>(ends: Seq<u32>, data: Seq<T>) -> Seq<Seq<T>> {
    Seq::new(
        ends.len() + 1,
        |y: int| data.subrange(start_of(ends, y), end_of(ends, data.len() as int, y)),
    )
}

/// An extensible (ie: can add more rows) [jagged array].
#[derive(Debug, PartialEq, Clone)]
pub struct JaggedVec<T> {
    ends: Vec<u32>,
    data: Vec<T>,
}

impl<T> View for JaggedVec<T> {
    type V = Seq<Seq<T>>;

    closed spec fn view(&self) -> Seq<Seq<T>> {
        rows_at(self.ends@, self.data@)
    }
}

impl<T> JaggedVec<T> {
    /// The ends never decrease and stay within the cells.
    pub closed spec fn wf(&self) -> bool {
        valid_ends(self.ends@, self.data@.len() as int)
    }

    /// All the cells, row after row.
    pub closed spec fn cells(&self) -> Seq<T> {
        self.data@
    }

    proof fn lemma_row(&self, y: int)
        requires
            self.wf(),
            0 <= y <= self.ends@.len(),
        ensures
            0 <= start_of(self.ends@, y) <= end_of(self.ends@, self.data@.len() as int, y)
                <= self.data@.len(),
    {
        if y > 0 && y < self.ends@.len() {
            assert(self.ends@[y - 1] <= self.ends@[y]);
        }
    }

    /// Add a row after the last one.
    pub fn push_row(&mut self, row: Vec<T>)
        requires
            old(self).wf(),
            old(self).cells().len() <= u32::MAX,
        ensures
            final(self).wf(),
            final(self)@ == old(self)@.push(row@),
            final(self).cells() == old(self).cells() + row@,
    {
        let mut moved = row;
        let ghost old_ends = self.ends@;
        let ghost old_data = self.data@;
        self.ends.push(self.data.len() as u32);
        self.data.append(&mut moved);
        proof {
            let ne = self.ends@;
            let nd = self.data@;
            assert(valid_ends(ne, nd.len() as int)) by {
                assert forall|a: int, b: int| 0 <= a <= b < ne.len() implies ne[a] <= ne[b] by {
                    if b < old_ends.len() {
                        assert(old_ends[a] <= old_ends[b]);
                    } else if a < old_ends.len() {
                        assert(old_ends[a] <= old_data.len());
                    }
                }
            }
            let want = rows_at(old_ends, old_data).push(row@);
            assert(nd =~= old_data + row@);
            assert(ne =~= old_ends.push(old_data.len() as u32));
            assert forall|y: int| 0 <= y < ne.len() + 1 implies #[trigger] rows_at(ne, nd)[y] =~= want[y] by {
                let st = start_of(ne, y);
                let en = end_of(ne, nd.len() as int, y);
                if y < old_ends.len() {
                    assert(old_ends[y] <= old_data.len());
                    if y > 0 {
                        assert(old_ends[y - 1] <= old_ends[y]);
                    }
                    assert(st == start_of(old_ends, y));
                    assert(en == end_of(old_ends, old_data.len() as int, y));
                    assert(nd.subrange(st, en) =~= old_data.subrange(st, en));
                } else if y == old_ends.len() {
                    if y > 0 {
                        assert(old_ends[y - 1] <= old_data.len());
                    }
                    assert(st == start_of(old_ends, y));
                    assert(en == old_data.len());
                    assert(nd.subrange(st, en) =~= old_data.subrange(st, en));
                } else {
                    assert(st == old_data.len());
                    assert(en == nd.len());
                    assert(nd.subrange(st, en) =~= row@);
                }
            }
            assert(rows_at(ne, nd) =~= want);
        }
    }

    /// How many cells are contained in this `JaggedVec`.
    pub fn len(&self) -> (r: usize)
        ensures
            r == self.cells().len(),
    {
        self.data.len()
    }

    /// How many rows this `JaggedVec` has.
    pub fn height(&self) -> (r: usize)
        requires
            self.wf(),
            self@.len() <= usize::MAX,
        ensures
            r == self@.len(),
    {
        self.ends.len() + 1
    }

    /// Create a [`JaggedVec`] of `ends.len() + 1` rows, values of `ends` are the
    /// end indicies (exclusive) of each row in `data`.
    ///
    /// Note that the _last index_ should be elided.
    /// The last row will be the values between the last `end` in `ends` and
    /// the total size of the `data` array.
    ///
    /// Returns `Err` if:
    ///
    /// - An `ends[i] > data.len()`
    /// - An `ends[i+1] < ends[i]`
    ///
    /// the error being about the first such `i`.
    pub fn new(ends: Vec<u32>, data: Vec<T>) -> (r: Result<Self, Error>)
        ensures
            r is Err <==> ends_error(ends@, data@.len() as u32) is Some,
            r matches Err(e) ==> ends_error(ends@, data@.len() as u32) == Some(e),
            r matches Ok(j) ==> j.wf() && j@ == rows_at(ends@, data@) && j.cells() == data@,
    {
        let mut previous_end: u32 = 0;
        let last_end = data.len() as u32;
        let mut i: usize = 0;
        while i < ends.len()
            invariant
                i <= ends@.len(),
                last_end == data@.len() as u32,
                ends_error(ends@.take(i as int), last_end) is None,
                i > 0 ==> previous_end == ends@[i - 1],
                i == 0 ==> previous_end == 0,
            decreases ends@.len() - i,
        {
            let end = ends[i];
            let ghost t = ends@.take(i + 1);
            proof {
                assert(t.drop_last() =~= ends@.take(i as int));
            }
            if end > last_end {
                proof {
                    lemma_ends_error_prefix(ends@, last_end, (i + 1) as int);
                }
                return Err(Error::TooLongEnd { i, len: last_end, end });
            }
            if end < previous_end {
                proof {
                    lemma_ends_error_prefix(ends@, last_end, (i + 1) as int);
                }
                return Err(Error::BadEnd { i });
            }
            previous_end = end;
            i = i + 1;
        }
        proof {
            assert(ends@.take(i as int) =~= ends@);
            lemma_ends_error(ends@, last_end);
        }
        Ok(Self { ends, data })
    }

    /// Get slice to row at given `index`.
    ///
    /// # Panics
    ///
    /// When `index > self.height()`
    #[inline]
    pub fn row(&self, index: usize) -> (r: &[T])
        requires
            self.wf(),
            index < self@.len(),
        ensures
            r@ == self@[index as int],
    {
        proof {
            self.lemma_row(index as int);
        }
        let start = if index == 0 {
            0
        } else {
            self.ends[index - 1] as usize
        };
        let end = if index < self.ends.len() {
            self.ends[index] as usize
        } else {
            self.data.len()
        };
        &self.data.as_slice()[start..end]
    }

    /// Get `V` at exact `direct_index` ignoring row sizes,
    /// acts as if the whole array was a single row.
    ///
    /// `None` when `direct_index` is out of bound.
    #[inline]
    pub fn get(&self, direct_index: usize) -> (r: Option<&T>)
        ensures
            r is Some <==> direct_index < self.cells().len(),
            r matches Some(v) ==> *v == self.cells()[direct_index as int],
    {
        if direct_index < self.data.len() {
            Some(&self.data[direct_index])
        } else {
            None
        }
    }

    /// Turn this compact jagged array into a sparse representation.
    ///
    /// The returned `Vec<Vec<V>>` is an [Iliffe vector]. Iterating over it will
    /// be much slower than iterating over `JaggedVec`, but extending individual
    /// rows is much less costly.
    ///
    /// [Iliffe vector]: https://en.wikipedia.org/wiki/Iliffe_vector
    pub fn into_vecs(self) -> (r: Vec<Vec<T>>)
        requires
            self.wf(),
        ensures
            r@.len() == self@.len(),
            forall|y: int| 0 <= y < r@.len() ==> #[trigger] r@[y]@ == self@[y],
    {
        let JaggedVec { ends, data } = self;
        split_rows(ends.as_slice(), data)
    }
}

/// Cut `data` into the `ends.len() + 1` rows that `ends` delimits.
pub fn split_rows<T>(ends: &[u32], data: Vec<T>) -> (r: Vec<Vec<T>>)
    requires
        valid_ends(ends@, data@.len() as int),
    ensures
        r@.len() == ends@.len() + 1,
        forall|y: int| 0 <= y < r@.len() ==> #[trigger] r@[y]@ == rows_at(ends@, data@)[y],
{
    let ghost all_ends = ends@;
    let ghost all_data = data@;
    let ghost rows = rows_at(all_ends, all_data);
    let mut data = data;
    let mut iliffe: Vec<Vec<T>> = Vec::new();
    let mut last_end: u32 = 0;
    let mut i: usize = 0;
    while i < ends.len()
        invariant
            ends@ == all_ends,
            valid_ends(all_ends, all_data.len() as int),
            i <= ends@.len(),
            last_end as int == start_of(all_ends, i as int),
            data@ == all_data.subrange(last_end as int, all_data.len() as int),
            iliffe@.len() == i,
            rows == rows_at(all_ends, all_data),
            forall|y: int| 0 <= y < i ==> #[trigger] iliffe@[y]@ == rows[y],
        decreases ends@.len() - i,
    {
        let end = ends[i];
        proof {
            if i > 0 {
                assert(all_ends[i - 1] <= all_ends[i as int]);
            }
        }
        let size = (end - last_end) as usize;
        let rest = data.split_off(size);
        let row = data;
        data = rest;
        proof {
            assert(row@ =~= rows[i as int]);
        }
        iliffe.push(row);
        last_end = end;
        i = i + 1;
    }
    proof {
        assert(data@ =~= rows[i as int]);
    }
    iliffe.push(data);
    iliffe
}

/// The error found at the first `n` ends is the error of the whole ends when
/// the first `n` ends already hold one.
pub proof fn lemma_ends_error_prefix(ends: Seq<u32>, len: u32, n: int)
    requires
        0 <= n <= ends.len(),
        ends_error(ends.take(n), len) is Some,
    ensures
        ends_error(ends, len) == ends_error(ends.take(n), len),
    decreases ends.len() - n,
{
    if n < ends.len() {
        assert(ends.take(n + 1).drop_last() =~= ends.take(n));
        lemma_ends_error_prefix(ends, len, n + 1);
    } else {
        assert(ends.take(n) =~= ends);
    }
}

} // verus!
