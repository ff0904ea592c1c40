use vstd::arithmetic::div_mod::{
    lemma_div_is_ordered, lemma_div_pos_is_pos, lemma_fundamental_div_mod, lemma_mod_pos_bound,
};
use vstd::arithmetic::mul::{
    lemma_mul_inequality, lemma_mul_is_commutative, lemma_mul_strict_inequality,
};
use vstd::prelude::*;
use vstd::std_specs::convert::FromSpecImpl;

use crate::idx_range::IdxRange;
use crate::Idx;

verus! {

/// The part of one page that a request touches: the page's number and the
/// first and last offset inside it, both included.
pub struct PageSlice {
    pub page: int,
    pub first: int,
    pub last: int,
}

impl PageSlice {
    /// The offsets lie inside a page of `size` indices, in order.
    pub open spec fn valid(self, size: int) -> bool {
        self.page >= 0 && 0 <= self.first <= self.last < size
    }

    /// How many indices the slice holds.
    pub open spec fn len(self) -> int {
        self.last - self.first + 1
    }

    /// The slice is the whole page.
    pub open spec fn full(self, size: int) -> bool {
        self.first == 0 && self.last == size - 1
    }

    /// The index of the slice's first element.
    pub open spec fn start_index(self, size: int) -> int {
        self.page * size + self.first
    }

    /// The index of the slice's last element.
    pub open spec fn end_index(self, size: int) -> int {
        self.page * size + self.last
    }
}

/// A run of neighbouring page slices: it begins at offset `first` of page
/// `from` and ends at offset `last` of page `to`; every page between is whole.
pub struct PageGroup {
    pub from: int,
    pub first: int,
    pub to: int,
    pub last: int,
}

impl PageGroup {
    /// The group holds at least one index and its offsets lie inside a page.
    pub open spec fn valid(self, size: int) -> bool {
        &&& 0 <= self.from <= self.to
        &&& 0 <= self.first < size
        &&& 0 <= self.last < size
        &&& self.from == self.to ==> self.first <= self.last
    }

    /// The index of the group's first element.
    pub open spec fn start_index(self, size: int) -> int {
        self.from * size + self.first
    }

    /// The index of the group's last element.
    pub open spec fn end_index(self, size: int) -> int {
        self.to * size + self.last
    }

    /// The group that covers the indices `start..=end`.
    pub open spec fn covering(start: int, end: int, size: int) -> PageGroup {
        PageGroup { from: start / size, first: start % size, to: end / size, last: end % size }
    }

    /// The group that holds one slice.
    pub open spec fn of_slice(slice: PageSlice) -> PageGroup {
        PageGroup { from: slice.page, first: slice.first, to: slice.page, last: slice.last }
    }

    /// How many pages the group touches.
    pub open spec fn page_count(self) -> int {
        self.to - self.from + 1
    }

    /// The group's slice on its page number `i`, counted from 0.
    pub open spec fn slice(self, size: int, i: int) -> PageSlice {
        PageSlice {
            page: self.from + i,
            first: if i == 0 { self.first } else { 0 },
            last: if self.from + i == self.to { self.last } else { size - 1 },
        }
    }

    /// The group's slices, one for each page it touches, in ascending order.
    pub open spec fn slices(self, size: int) -> Seq<PageSlice> {
        Seq::new(self.page_count() as nat, |i: int| self.slice(size, i))
    }

    /// The range of the indices that the group holds.
    pub open spec fn index_range(self, size: int) -> IdxRange {
        IdxRange::spanning(self.start_index(size) as Idx, self.end_index(size) as Idx)
    }

    /// `next` begins at the index after the one where this group ends.
    pub open spec fn continued_by(self, next: PageGroup, size: int) -> bool {
        self.end_index(size) + 1 == next.start_index(size)
    }

    /// The group from the start of this one to the end of `next`.
    pub open spec fn joined(self, next: PageGroup) -> PageGroup {
        PageGroup { from: self.from, first: self.first, to: next.to, last: next.last }
    }
}

/// The slices that cover the indices `start..=end` with pages of `size`
/// indices, in ascending order.
pub open spec fn slices_of(start: int, end: int, size: int) -> Seq<PageSlice> {
    PageGroup::covering(start, end, size).slices(size)
}

/// The number of indices in all of `slices` together.
pub open spec fn total_len(slices: Seq<PageSlice>) -> int
    decreases slices.len(),
{
    if slices.len() == 0 {
        0
    } else {
        total_len(slices.drop_last()) + slices.last().len()
    }
}

/// `num::Integer::div_rem` on `u128`: the quotient and the remainder of the
/// truncating division of `value` by `size`.
#[verifier::external_body]
fn div_rem(value: Idx, size: Idx) -> (res: (Idx, Idx))
    requires
        size != 0,
    ensures
        res.0 == value / size,
        res.1 == value % size,
{
    num::Integer::div_rem(&value, &size)
}

/// A non-negative index splits into a page and an offset inside the page.
pub proof fn lemma_page_and_offset(index: int, size: int)
    requires
        0 <= index,
        0 < size,
    ensures
        0 <= index / size,
        0 <= index % size < size,
        (index / size) * size + index % size == index,
{
    lemma_div_pos_is_pos(index, size);
    lemma_mod_pos_bound(index, size);
    lemma_fundamental_div_mod(index, size);
    lemma_mul_is_commutative(size, index / size);
}

/// The group that covers a non-empty range of indices is valid and begins
/// and ends where the range does.
pub proof fn lemma_covering(start: int, end: int, size: int)
    requires
        0 <= start <= end,
        0 < size,
    ensures
        PageGroup::covering(start, end, size).valid(size),
        PageGroup::covering(start, end, size).start_index(size) == start,
        PageGroup::covering(start, end, size).end_index(size) == end,
{
    lemma_page_and_offset(start, size);
    lemma_page_and_offset(end, size);
    lemma_div_is_ordered(start, end, size);
}

/// Each slice begins at the index after the one where the slice before it
/// ends.
pub open spec fn contiguous(slices: Seq<PageSlice>, size: int) -> bool {
    forall|i: int|
        0 <= i < slices.len() - 1 ==> (#[trigger] slices[i]).end_index(size) + 1 == slices[i
            + 1].start_index(size)
}

/// Slices that follow one another hold as many indices as lie between the
/// start of the first and the end of the last.
pub proof fn lemma_total_len(slices: Seq<PageSlice>, size: int)
    requires
        slices.len() > 0,
        contiguous(slices, size),
    ensures
        total_len(slices) == slices.last().end_index(size) - slices[0].start_index(size) + 1,
    decreases slices.len(),
{
    let front = slices.drop_last();
    if front.len() == 0 {
        assert(total_len(front) == 0);
    } else {
        assert forall|i: int| 0 <= i < front.len() - 1 implies (#[trigger] front[i]).end_index(
            size,
        ) + 1 == front[i + 1].start_index(size) by {
            assert(front[i] == slices[i]);
            assert(front[i + 1] == slices[i + 1]);
        }
        lemma_total_len(front, size);
        assert(front.last() == slices[slices.len() - 2]);
        assert(front[0] == slices[0]);
    }
}

/// The slices of a valid group: one for each page from `from` to `to`, each a
/// valid slice, each beginning where the one before it ends, the first at the
/// group's start and the last at the group's end.
pub proof fn lemma_group_slices(group: PageGroup, size: int)
    requires
        group.valid(size),
    ensures
        group.slices(size).len() == group.page_count(),
        forall|i: int|
            0 <= i < group.page_count() ==> (#[trigger] group.slices(size)[i]).valid(size)
                && group.slices(size)[i].page == group.from + i,
        contiguous(group.slices(size), size),
        group.slices(size)[0].start_index(size) == group.start_index(size),
        group.slices(size).last().end_index(size) == group.end_index(size),
        total_len(group.slices(size)) == group.end_index(size) - group.start_index(size) + 1,
{
    let s = group.slices(size);
    assert forall|i: int| 0 <= i < s.len() - 1 implies (#[trigger] s[i]).end_index(size) + 1
        == s[i + 1].start_index(size) by {
        assert((group.from + i + 1) * size == (group.from + i) * size + size)
            by (nonlinear_arith);
    }
    lemma_total_len(s, size);
}

/// Page coverage: the slices of a range are valid slices on ascending pages;
/// each begins at the index after the one where the slice before it ends; the
/// first begins at the range's first index, on page `start / size` at offset
/// `start % size`; the last ends at the range's last index; and together they
/// hold exactly as many indices as the range.
pub proof fn lemma_page_coverage(range: IdxRange, size: int)
    requires
        range.wf(),
        size > 0,
    ensures
        ({
            let slices = slices_of(range.start(), range.end(), size);
            &&& slices.len() == range.end() / size - range.start() / size + 1
            &&& slices.len() >= 1
            &&& forall|i: int|
                0 <= i < slices.len() ==> (#[trigger] slices[i]).valid(size) && slices[i].page
                    == range.start() / size + i
            &&& contiguous(slices, size)
            &&& slices[0].first == range.start() % size
            &&& slices[0].start_index(size) == range.start()
            &&& slices.last().end_index(size) == range.end()
            &&& total_len(slices) == range.count()
        }),
{
    lemma_covering(range.start(), range.end(), size);
    lemma_group_slices(PageGroup::covering(range.start(), range.end(), size), size);
}

/// Round trip: the group that covers a canonical range holds exactly the
/// indices of that range, and turns back into it.
pub proof fn lemma_round_trip(range: IdxRange, size: int)
    requires
        range.wf(),
        range.canonical(),
        size > 0,
    ensures
        PageGroup::covering(range.start(), range.end(), size).index_range(size) == range,
{
    lemma_covering(range.start(), range.end(), size);
}

/// Whole pages: a slice of a range is a whole page exactly when the page lies
/// inside the range from its first index to its last, and every page that
/// lies inside the range has its slice.
pub proof fn lemma_whole_pages(range: IdxRange, size: int)
    requires
        range.wf(),
        size > 0,
    ensures
        ({
            let slices = slices_of(range.start(), range.end(), size);
            &&& forall|i: int|
                0 <= i < slices.len() ==> ((#[trigger] slices[i]).full(size) <==> range.start()
                    <= slices[i].page * size && (slices[i].page + 1) * size - 1 <= range.end())
            &&& forall|page: int|
                range.start() <= #[trigger] (page * size) && (page + 1) * size - 1 <= range.end()
                    ==> 0 <= page - range.start() / size < slices.len()
        }),
{
    let start = range.start();
    let end = range.end();
    let group = PageGroup::covering(start, end, size);
    let slices = slices_of(start, end, size);
    lemma_covering(start, end, size);
    lemma_group_slices(group, size);
    assert forall|i: int| 0 <= i < slices.len() implies ((#[trigger] slices[i]).full(size) <==> start
        <= slices[i].page * size && (slices[i].page + 1) * size - 1 <= end) by {
        let page = slices[i].page;
        assert((page + 1) * size == page * size + size) by (nonlinear_arith);
        if page > group.from {
            lemma_mul_inequality(group.from + 1, page, size);
            assert((group.from + 1) * size == group.from * size + size) by (nonlinear_arith);
        }
        if page < group.to {
            lemma_mul_inequality(page + 1, group.to, size);
        }
    }
    assert forall|page: int|
        start <= #[trigger] (page * size) && (page + 1) * size - 1 <= end implies 0 <= page
        - start / size < slices.len() by {
        assert((page + 1) * size == page * size + size) by (nonlinear_arith);
        if page < group.from {
            lemma_mul_inequality(page + 1, group.from, size);
        }
        if page > group.to {
            lemma_mul_inequality(group.to + 1, page, size);
            assert((group.to + 1) * size == group.to * size + size) by (nonlinear_arith);
        }
    }
}

/// The part of page `page` from offset `first` to offset `last`, both
/// included.
#[derive(Clone, Copy, Debug, PartialEq)]
pub struct PageRange<const PAGE_SIZE: u128> {
    pub(crate) page: Idx,
    pub(crate) first: Idx,
    pub(crate) last: Idx,
}

impl<const PAGE_SIZE: u128> View for PageRange<PAGE_SIZE> {
    type V = PageSlice;

    closed spec fn view(&self) -> PageSlice {
        PageSlice { page: self.page as int, first: self.first as int, last: self.last as int }
    }
}

impl<const PAGE_SIZE: u128> PageRange<PAGE_SIZE> {
    #[verifier::type_invariant]
    closed spec fn inv(self) -> bool {
        &&& self.first <= self.last < PAGE_SIZE
        &&& self.page * PAGE_SIZE + self.last <= u128::MAX
    }

    /// The slice of page `page` from offset `first` to offset `last`.
    pub fn new(page: Idx, first: Idx, last: Idx) -> (res: Self)
        requires
            first <= last < PAGE_SIZE,
            page * PAGE_SIZE + last <= u128::MAX,
        ensures
            res@ == (PageSlice { page: page as int, first: first as int, last: last as int }),
    {
        Self { page, first, last }
    }

    /// The slice is the whole page.
    pub fn full_fill(&self) -> (full: bool)
        ensures
            full == self@.full(PAGE_SIZE as int),
    {
        proof {
            use_type_invariant(self);
        }
        self.first == 0 && self.last == (PAGE_SIZE - 1)
    }

    /// The number of indices in the slice.
    pub fn len(&self) -> (n: usize)
        requires
            self@.len() <= usize::MAX,
        ensures
            n == self@.len(),
    {
        proof {
            use_type_invariant(self);
        }
        (self.last + 1 - self.first) as usize
    }

    /// The number of the page.
    pub fn page(&self) -> (page: Idx)
        ensures
            page == self@.page,
    {
        self.page
    }

    /// The offset of the slice's first element inside the page.
    pub fn first(&self) -> (first: Idx)
        ensures
            first == self@.first,
    {
        self.first
    }

    /// The offset of the slice's last element inside the page.
    pub fn last(&self) -> (last: Idx)
        ensures
            last == self@.last,
    {
        self.last
    }
}

/// A run of neighbouring page slices, from offset `first` of page `from` to
/// offset `last` of page `to`.
#[derive(Clone, Copy, Debug)]
pub struct PagesRange<const PAGE_SIZE: u128> {
    pub(crate) from: Idx,
    pub(crate) first: Idx,
    pub(crate) to: Idx,
    pub(crate) last: Idx,
}

impl<const PAGE_SIZE: u128> View for PagesRange<PAGE_SIZE> {
    type V = PageGroup;

    closed spec fn view(&self) -> PageGroup {
        PageGroup {
            from: self.from as int,
            first: self.first as int,
            to: self.to as int,
            last: self.last as int,
        }
    }
}

impl<const PAGE_SIZE: u128> PagesRange<PAGE_SIZE> {
    #[verifier::type_invariant]
    closed spec fn inv(self) -> bool {
        &&& self.from <= self.to
        &&& self.first < PAGE_SIZE
        &&& self.last < PAGE_SIZE
        &&& self.from == self.to ==> self.first <= self.last
        &&& self.to * PAGE_SIZE + self.last <= u128::MAX
    }

    /// The group that covers `range`.
    pub fn from(range: &IdxRange) -> (res: Self)
        requires
            PAGE_SIZE > 0,
            range.wf(),
        ensures
            res@ == PageGroup::covering(range.start(), range.end(), PAGE_SIZE as int),
    {
        let (start, end): (Idx, Idx) = match range {
            IdxRange::One(index) => (*index, *index),
            IdxRange::Many(start, end) => (*start, *end),
        };
        let (from, first): (Idx, Idx) = div_rem(start, PAGE_SIZE);
        let (to, last): (Idx, Idx) = div_rem(end, PAGE_SIZE);
        proof {
            lemma_covering(start as int, end as int, PAGE_SIZE as int);
        }
        Self { from, first, to, last }
    }

    /// The group that holds the one slice `page`.
    pub fn from_page(page: PageRange<PAGE_SIZE>) -> (res: Self)
        ensures
            res@ == PageGroup::of_slice(page@),
    {
        proof {
            use_type_invariant(&page);
        }
        Self { from: page.page, first: page.first, to: page.page, last: page.last }
    }

    /// The slices of the group, in ascending order. There is at least one.
    pub fn pages(&self) -> (iter: PagesIter<PAGE_SIZE>)
        ensures
            iter@ == self@.slices(PAGE_SIZE as int),
            iter@.len() > 0,
    {
        proof {
            use_type_invariant(self);
        }
        PagesIter::from_pages_range(self)
    }

    /// The number of pages that the group touches.
    pub fn len(&self) -> (n: usize)
        requires
            self@.page_count() <= usize::MAX,
        ensures
            n == self@.page_count(),
    {
        proof {
            use_type_invariant(self);
        }
        (self.to - self.from + 1) as usize
    }

    /// Whether `rhs` begins at the index after the one where this group ends:
    /// on the same page at the next offset, or at the start of the next page
    /// when this group ends a page.
    pub fn continued_by(&self, rhs: &Self) -> (res: bool)
        ensures
            res == self@.continued_by(rhs@, PAGE_SIZE as int),
    {
        proof {
            use_type_invariant(self);
            use_type_invariant(rhs);
            lemma_continuation(self@, rhs@, PAGE_SIZE as int);
        }
        if self.to == rhs.from {
            self.last + 1 == rhs.first
        } else {
            self.last == PAGE_SIZE - 1 && rhs.first == 0 && rhs.from > 0 && self.to == rhs.from - 1
        }
    }

    /// Extends the group to the end of `rhs`, which continues it.
    pub fn accumulate_from(&mut self, rhs: &Self)
        requires
            old(self)@.continued_by(rhs@, PAGE_SIZE as int),
        ensures
            final(self)@ == old(self)@.joined(rhs@),
    {
        proof {
            use_type_invariant(&*self);
            use_type_invariant(rhs);
            lemma_continuation(self@, rhs@, PAGE_SIZE as int);
        }
        *self = Self { from: self.from, first: self.first, to: rhs.to, last: rhs.last };
    }
}

/// The two ways in which one group continues another, offset by offset.
pub proof fn lemma_continuation(a: PageGroup, b: PageGroup, size: int)
    requires
        a.valid(size),
        b.valid(size),
    ensures
        a.continued_by(b, size) <==> (if a.to == b.from {
            a.last + 1 == b.first
        } else {
            a.last == size - 1 && b.first == 0 && a.to + 1 == b.from
        }),
{
    assert((a.to + 1) * size == a.to * size + size) by (nonlinear_arith);
    assert((b.from + 1) * size == b.from * size + size) by (nonlinear_arith);
    if a.to + 1 < b.from {
        lemma_mul_strict_inequality(a.to + 1, b.from, size);
    } else if a.to > b.from {
        lemma_mul_inequality(b.from + 1, a.to, size);
    }
}

/// A valid group begins at or before the index where it ends.
pub proof fn lemma_group_bounds(group: PageGroup, size: int)
    requires
        group.valid(size),
    ensures
        0 <= group.start_index(size) <= group.end_index(size),
{
    assert(0 <= group.from * size) by (nonlinear_arith)
        requires
            0 <= group.from,
            0 < size,
    ;
    if group.from < group.to {
        lemma_mul_inequality(group.from + 1, group.to, size);
        assert((group.from + 1) * size == group.from * size + size) by (nonlinear_arith);
    }
}

impl<const PAGE_SIZE: u128> From<PagesRange<PAGE_SIZE>> for IdxRange {
    /// The range of the indices that the group holds.
    fn from(pages: PagesRange<PAGE_SIZE>) -> (res: Self)
        ensures
            res == pages@.index_range(PAGE_SIZE as int),
    {
        proof {
            use_type_invariant(&pages);
            lemma_group_bounds(pages@, PAGE_SIZE as int);
        }
        let start: Idx = pages.from * PAGE_SIZE + pages.first;
        let end: Idx = pages.to * PAGE_SIZE + pages.last;
        if start == end {
            IdxRange::One(start)
        } else {
            IdxRange::Many(start, end)
        }
    }
}

impl<const PAGE_SIZE: u128> FromSpecImpl<PagesRange<PAGE_SIZE>> for IdxRange {
    open spec fn obeys_from_spec() -> bool {
        true
    }

    open spec fn from_spec(pages: PagesRange<PAGE_SIZE>) -> Self {
        pages@.index_range(PAGE_SIZE as int)
    }
}

/// The slices of a range that are still to come, in ascending order.
#[derive(Debug)]
pub struct PagesIter<const PAGE_SIZE: u128> {
    page: Idx,
    first: Idx,
    to: Idx,
    last: Idx,
    done: bool,
}

impl<const PAGE_SIZE: u128> View for PagesIter<PAGE_SIZE> {
    type V = Seq<PageSlice>;

    closed spec fn view(&self) -> Seq<PageSlice> {
        if self.done {
            Seq::empty()
        } else {
            self.rest().slices(PAGE_SIZE as int)
        }
    }
}

impl<const PAGE_SIZE: u128> PagesIter<PAGE_SIZE> {
    /// The group of what is still to come, while anything is.
    closed spec fn rest(self) -> PageGroup {
        PageGroup {
            from: self.page as int,
            first: self.first as int,
            to: self.to as int,
            last: self.last as int,
        }
    }

    #[verifier::type_invariant]
    closed spec fn inv(self) -> bool {
        !self.done ==> {
            &&& self.rest().valid(PAGE_SIZE as int)
            &&& self.rest().end_index(PAGE_SIZE as int) <= u128::MAX
        }
    }

    /// The slices that cover `range`.
    pub fn from_idx_range(range: &IdxRange) -> (iter: Self)
        requires
            PAGE_SIZE > 0,
            range.wf(),
        ensures
            iter@ == slices_of(range.start(), range.end(), PAGE_SIZE as int),
    {
        let pages: PagesRange<PAGE_SIZE> = PagesRange::from(range);
        Self::from_pages_range(&pages)
    }

    /// The slices of `pages_range`.
    pub fn from_pages_range(pages_range: &PagesRange<PAGE_SIZE>) -> (iter: Self)
        ensures
            iter@ == pages_range@.slices(PAGE_SIZE as int),
    {
        proof {
            use_type_invariant(pages_range);
        }
        Self {
            page: pages_range.from,
            first: pages_range.first,
            to: pages_range.to,
            last: pages_range.last,
            done: false,
        }
    }

    /// Takes the next slice, if one is left.
    pub fn next(&mut self) -> (res: Option<PageRange<PAGE_SIZE>>)
        ensures
            old(self)@.len() == 0 ==> res is None && final(self)@ == old(self)@,
            old(self)@.len() > 0 ==> res is Some && res.unwrap()@ == old(self)@[0] && final(self)@
                == old(self)@.skip(1),
    {
        proof {
            use_type_invariant(&*self);
        }
        if self.done {
            None
        } else if self.page == self.to {
            let slice: PageRange<PAGE_SIZE> = PageRange::new(self.to, self.first, self.last);
            assert(self@.skip(1) =~= Seq::<PageSlice>::empty());
            *self = Self { page: self.page, first: self.first, to: self.to, last: self.last, done: true };
            Some(slice)
        } else {
            proof {
                lemma_mul_inequality(self.page + 1, self.to as int, PAGE_SIZE as int);
                assert((self.page + 1) * PAGE_SIZE == self.page * PAGE_SIZE + PAGE_SIZE)
                    by (nonlinear_arith);
            }
            let slice: PageRange<PAGE_SIZE> = PageRange::new(self.page, self.first, PAGE_SIZE - 1);
            let ghost before = self@;
            *self = Self { page: self.page + 1, first: 0, to: self.to, last: self.last, done: false };
            assert(self@ =~= before.skip(1));
            Some(slice)
        }
    }
}

} // verus!
