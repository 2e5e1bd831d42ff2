//! Intervals of suffix-array rows and the outcome of a search.

use vstd::prelude::*;
use crate::error::IndexError;

verus! {

/// A half-open range of suffix-array rows, `lower` included and `upper` not.
#[derive(Clone, Copy, Debug, PartialEq, Eq)]
pub struct Interval {
    lower: usize,
    upper: usize,
}

impl View for Interval {
    type V = (int, int);

    closed spec fn view(&self) -> (int, int) {
        (self.lower as int, self.upper as int)
    }
}

/// The offsets that the rows of an interval hold, in row order.
pub open spec fn positions(iv: (int, int), sa: Seq<usize>) -> Seq<usize> {
    sa.subrange(iv.0, iv.1)
}

impl Interval {
    /// The upper end is never below the lower end.
    #[verifier::type_invariant]
    pub closed spec fn wf(&self) -> bool {
        self.lower <= self.upper
    }

    /// The interval from `lower` to `upper`, unless `upper` is the smaller.
    pub fn new(lower: usize, upper: usize) -> (r: Option<Interval>)
        ensures
            lower <= upper ==> r is Some && r->Some_0@ == (lower as int, upper as int),
            lower > upper ==> r is None,
    {
        if lower <= upper {
            Some(Interval { lower, upper })
        } else {
            None
        }
    }

    /// The interval from `lower` to `upper`, which is not the smaller.
    pub(crate) fn span(lower: usize, upper: usize) -> (r: Interval)
        requires
            lower <= upper,
        ensures
            r@ == (lower as int, upper as int),
    {
        Interval { lower, upper }
    }

    /// The first row of the interval.
    pub fn lower(&self) -> (r: usize)
        ensures
            r == self@.0,
            r <= self@.1,
    {
        proof {
            use_type_invariant(self);
        }
        self.lower
    }

    /// The row past the last one of the interval.
    pub fn upper(&self) -> (r: usize)
        ensures
            r == self@.1,
            self@.0 <= r,
    {
        proof {
            use_type_invariant(self);
        }
        self.upper
    }

    /// The number of rows.
    pub fn len(&self) -> (r: usize)
        ensures
            r == self@.1 - self@.0,
    {
        proof {
            use_type_invariant(self);
        }
        self.upper - self.lower
    }

    /// Whether the interval holds no row.
    pub fn is_empty(&self) -> (r: bool)
        ensures
            r == (self@.0 == self@.1),
    {
        self.lower == self.upper
    }

    /// The text offsets of the rows, in row order.
    ///
    /// Fails with `DimensionMismatch` exactly when the interval reaches past
    /// the end of `suffix_array`.
    pub fn occ(&self, suffix_array: &[usize]) -> (res: Result<Vec<usize>, IndexError>)
        ensures
            self@.1 <= suffix_array@.len() ==> res is Ok && res->Ok_0@ == positions(
                self@,
                suffix_array@,
            ),
            self@.1 > suffix_array@.len() ==> res == Err::<Vec<usize>, IndexError>(
                IndexError::DimensionMismatch,
            ),
    {
        proof {
            use_type_invariant(self);
        }
        if self.upper > suffix_array.len() {
            return Err(IndexError::DimensionMismatch);
        }
        let mut out: Vec<usize> = Vec::with_capacity(self.upper - self.lower);
        let mut r: usize = self.lower;
        while r < self.upper
            invariant
                self.lower <= r <= self.upper <= suffix_array@.len(),
                out@ == suffix_array@.subrange(self.lower as int, r as int),
            decreases self.upper - r,
        {
            out.push(suffix_array[r]);
            assert(out@ =~= suffix_array@.subrange(self.lower as int, r + 1));
            r += 1;
        }
        Ok(out)
    }
}

/// The text offsets that the rows of `interval` hold in `suffix_array`, in row
/// order (not sorted by offset).
///
/// Fails with `DimensionMismatch` exactly when the interval reaches past the
/// end of `suffix_array`.
pub fn materialize_positions(interval: &Interval, suffix_array: &[usize]) -> (res: Result<
    Vec<usize>,
    IndexError,
>)
    ensures
        interval@.1 <= suffix_array@.len() ==> res is Ok && res->Ok_0@ == positions(
            interval@,
            suffix_array@,
        ),
        interval@.1 > suffix_array@.len() ==> res == Err::<Vec<usize>, IndexError>(
            IndexError::DimensionMismatch,
        ),
{
    interval.occ(suffix_array)
}

/// What a backward search found.
#[derive(Clone, Copy, Debug, PartialEq, Eq)]
pub enum BackwardSearchResult {
    /// The whole pattern matched; the interval holds its occurrences.
    Complete(Interval),
    /// Only a proper, non-empty suffix of the pattern matched: the interval of
    /// that suffix and its length.
    Partial(Interval, usize),
    /// Nothing matched.
    Absent,
}

/// The mathematical value of a `BackwardSearchResult`.
pub enum SearchOutcome {
    Complete { lower: int, upper: int },
    Partial { lower: int, upper: int, matched: nat },
    Absent,
}

impl View for BackwardSearchResult {
    type V = SearchOutcome;

    open spec fn view(&self) -> SearchOutcome {
        match *self {
            BackwardSearchResult::Complete(iv) => SearchOutcome::Complete {
                lower: iv@.0,
                upper: iv@.1,
            },
            BackwardSearchResult::Partial(iv, matched) => SearchOutcome::Partial {
                lower: iv@.0,
                upper: iv@.1,
                matched: matched as nat,
            },
            BackwardSearchResult::Absent => SearchOutcome::Absent,
        }
    }
}

} // verus!
