use vstd::prelude::*;

use crate::idx_range::IdxRange;

verus! {

/// A range as the producer takes it: it can be made from a range of indices,
/// and it turns into one, or comes back unchanged when it stands for none.
pub trait SourceRange: From<IdxRange> + TryInto<IdxRange, Error = Self> {

}

impl<Range> SourceRange for Range where Range: From<IdxRange> + TryInto<IdxRange, Error = Range> {

}

} // verus!
