use std::ops::{Range, RangeInclusive};

use vstd::prelude::*;
use vstd::std_specs::convert::{FromSpecImpl, TryFromSpecImpl};

use crate::pages::PagesIter;
use crate::Idx;

verus! {

/// A non-empty closed range of indices: a single index, or `Many(start, end)`
/// with both ends included.
#[derive(Clone, Copy, Debug, PartialEq, Eq, Structural)]
pub enum IdxRange {
    One(Idx),
    Many(Idx, Idx),
}

impl IdxRange {
    /// The first index of the range.
    pub open spec fn start(self) -> int {
        match self {
            IdxRange::One(i) => i as int,
            IdxRange::Many(a, _) => a as int,
        }
    }

    /// The last index of the range.
    pub open spec fn end(self) -> int {
        match self {
            IdxRange::One(i) => i as int,
            IdxRange::Many(_, b) => b as int,
        }
    }

    /// The range holds at least one index.
    pub open spec fn wf(self) -> bool {
        self.start() <= self.end()
    }

    /// The range is written the way the constructors write it: one index is
    /// always `One`, never `Many(i, i)`.
    pub open spec fn canonical(self) -> bool {
        match self {
            IdxRange::One(_) => true,
            IdxRange::Many(a, b) => a < b,
        }
    }

    /// How many indices the range holds.
    pub open spec fn count(self) -> int {
        self.end() - self.start() + 1
    }

    /// The same indices, written the way the constructors write them.
    pub open spec fn canonical_form(self) -> IdxRange {
        match self {
            IdxRange::One(i) => self,
            IdxRange::Many(a, b) => Self::spanning(a, b),
        }
    }

    /// The canonical range from `start` to `end`, both included.
    pub open spec fn spanning(start: Idx, end: Idx) -> IdxRange {
        if start == end {
            IdxRange::One(start)
        } else {
            IdxRange::Many(start, end)
        }
    }

    /// The range of `len` indices that begins at `start`; none when `len` is 0.
    pub fn new(start: Idx, len: usize) -> (res: Option<Self>)
        requires
            start + len <= u128::MAX + 1,
        ensures
            len == 0 <==> res is None,
            len > 0 ==> res == Some(Self::spanning(start, (start + len - 1) as Idx)),
    {
        if len == 0 {
            None
        } else if len == 1 {
            Some(IdxRange::One(start))
        } else {
            Some(IdxRange::Many(start, start + (len as Idx - 1)))
        }
    }

    /// The number of indices in the range.
    pub fn len(&self) -> (n: Idx)
        requires
            self.wf(),
            self.count() <= u128::MAX,
        ensures
            n == self.count(),
    {
        match self {
            IdxRange::One(_) => 1,
            IdxRange::Many(start, end) => *end - *start + 1,
        }
    }

    /// The page slices that cover the range, in ascending order.
    pub fn pages<const PAGE_SIZE: u128>(&self) -> (iter: PagesIter<PAGE_SIZE>)
        requires
            PAGE_SIZE > 0,
            self.wf(),
        ensures
            iter@ == crate::pages::slices_of(self.start(), self.end(), PAGE_SIZE as int),
    {
        PagesIter::from_idx_range(self)
    }

    /// The half-open range `start..end + 1` over the same indices.
    pub fn into_range(self) -> (range: Range<Idx>)
        requires
            self.end() < u128::MAX,
        ensures
            range.start == self.start(),
            range.end == self.end() + 1,
    {
        match self {
            IdxRange::One(idx) => idx..(idx + 1),
            IdxRange::Many(from, to) => from..(to + 1),
        }
    }
}

/// `RangeInclusive::start`: the lower bound that the range was made with.
pub assume_specification<T>[ RangeInclusive::<T>::start ](range: &RangeInclusive<T>) -> (bound: &T)
    ensures
        *bound == range@.start,
;

/// `RangeInclusive::end`: the upper bound that the range was made with.
pub assume_specification<T>[ RangeInclusive::<T>::end ](range: &RangeInclusive<T>) -> (bound: &T)
    ensures
        *bound == range@.end,
;

/// `RangeInclusive::is_empty`: true when the range has been iterated to its
/// end or its lower bound lies above its upper bound.
#[verifier::external_body]
fn inclusive_is_empty(range: &RangeInclusive<Idx>) -> (empty: bool)
    ensures
        empty == (range@.exhausted || range@.start > range@.end),
{
    range.is_empty()
}

impl TryFrom<Range<Idx>> for IdxRange {
    type Error = Range<Idx>;

    /// The indices of a half-open range; an empty or reversed range comes
    /// back unchanged as the error.
    fn try_from(range: Range<Idx>) -> (res: Result<Self, Range<Idx>>) {
        if range.start < range.end {
            let last: Idx = range.end - 1;
            if range.start == last {
                Ok(IdxRange::One(range.start))
            } else {
                Ok(IdxRange::Many(range.start, last))
            }
        } else {
            Err(range)
        }
    }
}

impl TryFromSpecImpl<Range<Idx>> for IdxRange {
    open spec fn obeys_try_from_spec() -> bool {
        true
    }

    open spec fn try_from_spec(range: Range<Idx>) -> Result<Self, Range<Idx>> {
        if range.start < range.end {
            Ok(IdxRange::spanning(range.start, (range.end - 1) as Idx))
        } else {
            Err(range)
        }
    }
}

impl TryFrom<RangeInclusive<Idx>> for IdxRange {
    type Error = RangeInclusive<Idx>;

    /// The indices of a closed range; an empty or reversed range comes back
    /// unchanged as the error.
    fn try_from(range: RangeInclusive<Idx>) -> (res: Result<Self, RangeInclusive<Idx>>) {
        if inclusive_is_empty(&range) {
            Err(range)
        } else {
            let first: Idx = *range.start();
            let last: Idx = *range.end();
            if first == last {
                Ok(IdxRange::One(first))
            } else {
                Ok(IdxRange::Many(first, last))
            }
        }
    }
}

impl TryFromSpecImpl<RangeInclusive<Idx>> for IdxRange {
    open spec fn obeys_try_from_spec() -> bool {
        true
    }

    open spec fn try_from_spec(range: RangeInclusive<Idx>) -> Result<Self, RangeInclusive<Idx>> {
        if range@.exhausted || range@.start > range@.end {
            Err(range)
        } else {
            Ok(IdxRange::spanning(range@.start, range@.end))
        }
    }
}

impl From<IdxRange> for RangeInclusive<Idx> {
    /// The closed range over the same indices.
    fn from(range: IdxRange) -> (res: RangeInclusive<Idx>)
        ensures
            res@.start == range.start(),
            res@.end == range.end(),
            !res@.exhausted,
    {
        match range {
            IdxRange::One(idx) => RangeInclusive::new(idx, idx),
            IdxRange::Many(from, to) => RangeInclusive::new(from, to),
        }
    }
}

impl FromSpecImpl<IdxRange> for RangeInclusive<Idx> {
    open spec fn obeys_from_spec() -> bool {
        false
    }

    open spec fn from_spec(range: IdxRange) -> RangeInclusive<Idx> {
        arbitrary()
    }
}

} // verus!
