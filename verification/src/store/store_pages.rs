use vstd::prelude::*;

use crate::pages::{lemma_group_bounds, PageGroup, PageSlice, PagesIter, PagesRange};

verus! {

/// A group of page slices with the answer to "are its pages on disk?".
pub struct SpanTag {
    pub cached: bool,
    pub group: PageGroup,
}

impl SpanTag {
    /// `next` has the same answer and begins at the index after the one where
    /// this group ends.
    pub open spec fn extends(self, next: SpanTag, size: int) -> bool {
        self.cached == next.cached && self.group.continued_by(next.group, size)
    }

    /// This group and `next` as one.
    pub open spec fn joined(self, next: SpanTag) -> SpanTag {
        SpanTag { cached: self.cached, group: self.group.joined(next.group) }
    }

    /// Every index of the group, in ascending order, each with the group's
    /// answer.
    pub open spec fn indices(self, size: int) -> Seq<(bool, int)> {
        Seq::new(
            (self.group.end_index(size) - self.group.start_index(size) + 1) as nat,
            |j: int| (self.cached, self.group.start_index(size) + j),
        )
    }
}

/// The groups after `tag` has come in: it extends the last group, or it
/// begins a new one.
pub open spec fn fed(groups: Seq<SpanTag>, tag: SpanTag, size: int) -> Seq<SpanTag> {
    if groups.len() > 0 && groups.last().extends(tag, size) {
        groups.drop_last().push(groups.last().joined(tag))
    } else {
        groups.push(tag)
    }
}

/// The groups that `tags` make when each tag that extends the group before it
/// is joined to that group.
pub open spec fn coalesced(tags: Seq<SpanTag>, size: int) -> Seq<SpanTag>
    decreases tags.len(),
{
    if tags.len() == 0 {
        Seq::empty()
    } else {
        fed(coalesced(tags.drop_last(), size), tags.last(), size)
    }
}

/// Every index of every group, in the order of the groups, each with its
/// group's answer.
pub open spec fn expand(tags: Seq<SpanTag>, size: int) -> Seq<(bool, int)>
    decreases tags.len(),
{
    if tags.len() == 0 {
        Seq::empty()
    } else {
        expand(tags.drop_last(), size) + tags.last().indices(size)
    }
}

/// One tag for each slice, with the answer that was given for its page.
pub open spec fn probed(slices: Seq<PageSlice>, cached: Seq<bool>) -> Seq<SpanTag> {
    Seq::new(
        slices.len(),
        |i: int| SpanTag { cached: cached[i], group: PageGroup::of_slice(slices[i]) },
    )
}

/// No group is extended by the group that follows it.
pub open spec fn maximal(groups: Seq<SpanTag>, size: int) -> bool {
    forall|i: int|
        0 <= i < groups.len() - 1 ==> !(#[trigger] groups[i]).extends(groups[i + 1], size)
}

/// Every group is valid.
pub open spec fn all_valid(groups: Seq<SpanTag>, size: int) -> bool {
    forall|i: int| 0 <= i < groups.len() ==> (#[trigger] groups[i]).group.valid(size)
}

/// The indices of two groups, of which the second extends the first, are the
/// indices of the two as one.
proof fn lemma_joined_indices(a: SpanTag, b: SpanTag, size: int)
    requires
        a.group.valid(size),
        b.group.valid(size),
        a.extends(b, size),
    ensures
        a.joined(b).indices(size) == a.indices(size) + b.indices(size),
        a.joined(b).group.valid(size),
{
    lemma_group_bounds(a.group, size);
    lemma_group_bounds(b.group, size);
    crate::pages::lemma_continuation(a.group, b.group, size);
    assert(a.joined(b).indices(size) =~= a.indices(size) + b.indices(size));
}

/// Coalescing: the groups that come out hold the same indices in the same
/// order as the tags that went in, each index with the answer it came with, so
/// that every group has one answer throughout; every group is valid; and no
/// group could have taken in the group that follows it.
pub proof fn lemma_coalesced(tags: Seq<SpanTag>, size: int)
    requires
        size > 0,
        all_valid(tags, size),
    ensures
        expand(coalesced(tags, size), size) == expand(tags, size),
        all_valid(coalesced(tags, size), size),
        maximal(coalesced(tags, size), size),
        coalesced(tags, size).len() <= tags.len(),
        tags.len() > 0 ==> coalesced(tags, size).len() > 0,
    decreases tags.len(),
{
    if tags.len() > 0 {
        let front = tags.drop_last();
        let tag = tags.last();
        assert(all_valid(front, size)) by {
            assert forall|i: int| 0 <= i < front.len() implies (#[trigger] front[i]).group.valid(
                size,
            ) by {
                assert(front[i] == tags[i]);
            }
        }
        lemma_coalesced(front, size);
        let groups = coalesced(front, size);
        let out = fed(groups, tag, size);
        assert(out == coalesced(tags, size));
        if groups.len() > 0 && groups.last().extends(tag, size) {
            let last = groups.last();
            let both = last.joined(tag);
            lemma_joined_indices(last, tag, size);
            assert(out.drop_last() =~= groups.drop_last());
            assert(out.last() == both);
            assert(expand(out, size) == expand(groups.drop_last(), size) + both.indices(size));
            assert(expand(groups, size) == expand(groups.drop_last(), size) + last.indices(size));
            assert(expand(out, size) =~= expand(groups, size) + tag.indices(size));
            assert forall|i: int| 0 <= i < out.len() implies (#[trigger] out[i]).group.valid(
                size,
            ) by {
                if i < out.len() - 1 {
                    assert(out[i] == groups[i]);
                }
            }
            assert forall|i: int| 0 <= i < out.len() - 1 implies !(#[trigger] out[i]).extends(
                out[i + 1],
                size,
            ) by {
                assert(out[i] == groups[i]);
                if i + 1 < out.len() - 1 {
                    assert(out[i + 1] == groups[i + 1]);
                } else {
                    assert(!groups[i].extends(groups[i + 1], size));
                }
            }
        } else {
            assert(out.drop_last() =~= groups);
            assert forall|i: int| 0 <= i < out.len() implies (#[trigger] out[i]).group.valid(
                size,
            ) by {
                if i < out.len() - 1 {
                    assert(out[i] == groups[i]);
                }
            }
            assert forall|i: int| 0 <= i < out.len() - 1 implies !(#[trigger] out[i]).extends(
                out[i + 1],
                size,
            ) by {
                assert(out[i] == groups[i]);
                if i + 1 < out.len() - 1 {
                    assert(out[i + 1] == groups[i + 1]);
                }
            }
        }
    }
}

/// A group of page slices that are all on disk, or all missing.
#[derive(Clone, Copy, Debug)]
pub struct StorePages<const PAGE_SIZE: u128> {
    pub cached: bool,
    pub pages: PagesRange<PAGE_SIZE>,
}

impl<const PAGE_SIZE: u128> View for StorePages<PAGE_SIZE> {
    type V = SpanTag;

    open spec fn view(&self) -> SpanTag {
        SpanTag { cached: self.cached, group: self.pages@ }
    }
}

impl<const PAGE_SIZE: u128> StorePages<PAGE_SIZE> {
    /// Takes `rhs` into this group if it has the same answer and continues
    /// the group, and says whether it did.
    pub fn maybe_accumulate_from(&mut self, rhs: &Self) -> (taken: bool)
        ensures
            taken == old(self)@.extends(rhs@, PAGE_SIZE as int),
            taken ==> final(self)@ == old(self)@.joined(rhs@),
            !taken ==> final(self)@ == old(self)@,
    {
        if self.cached == rhs.cached && self.pages.continued_by(&rhs.pages) {
            self.pages.accumulate_from(&rhs.pages);
            true
        } else {
            false
        }
    }
}

/// The views of the groups in `groups`.
pub open spec fn tag_views<const PAGE_SIZE: u128>(groups: Seq<StorePages<PAGE_SIZE>>) -> Seq<
    SpanTag,
> {
    Seq::new(groups.len(), |i: int| groups[i]@)
}

/// The groups so far, the one that is still open at the end.
pub open spec fn with_open(done: Seq<SpanTag>, open: Option<SpanTag>) -> Seq<SpanTag> {
    match open {
        Some(tag) => done.push(tag),
        None => done,
    }
}

/// Joins tags as they come in: the group that is open takes each tag that
/// extends it, and is handed out when a tag comes that does not.
pub struct PartialAccumulator<const PAGE_SIZE: u128> {
    open: Option<StorePages<PAGE_SIZE>>,
}

impl<const PAGE_SIZE: u128> View for PartialAccumulator<PAGE_SIZE> {
    type V = Option<SpanTag>;

    closed spec fn view(&self) -> Option<SpanTag> {
        match self.open {
            Some(group) => Some(group@),
            None => None,
        }
    }
}

impl<const PAGE_SIZE: u128> PartialAccumulator<PAGE_SIZE> {
    /// An accumulator with no group open.
    pub fn new() -> (acc: Self)
        ensures
            acc@ is None,
    {
        Self { open: None }
    }

    /// Takes `tag` in. If it extends the open group, that group grows and
    /// nothing is handed out; else the open group, if there is one, is handed
    /// out and `tag` becomes the open group.
    pub fn push(&mut self, tag: StorePages<PAGE_SIZE>) -> (flushed: Option<StorePages<PAGE_SIZE>>)
        ensures
            match old(self)@ {
                Some(open) => if open.extends(tag@, PAGE_SIZE as int) {
                    flushed is None && final(self)@ == Some(open.joined(tag@))
                } else {
                    flushed is Some && flushed.unwrap()@ == open && final(self)@ == Some(tag@)
                },
                None => flushed is None && final(self)@ == Some(tag@),
            },
    {
        match self.open.take() {
            Some(mut group) => {
                if group.maybe_accumulate_from(&tag) {
                    self.open = Some(group);
                    None
                } else {
                    self.open = Some(tag);
                    Some(group)
                }
            },
            None => {
                self.open = Some(tag);
                None
            },
        }
    }

    /// Hands out the open group, if there is one, and leaves none open.
    pub fn finish(&mut self) -> (flushed: Option<StorePages<PAGE_SIZE>>)
        ensures
            final(self)@ is None,
            match old(self)@ {
                Some(open) => flushed is Some && flushed.unwrap()@ == open,
                None => flushed is None,
            },
    {
        self.open.take()
    }
}

/// Joins the tags of `tags`: each tag that has the answer of the group before
/// it and continues that group becomes part of it.
pub fn accumulate<const PAGE_SIZE: u128>(tags: &Vec<StorePages<PAGE_SIZE>>) -> (groups: Vec<
    StorePages<PAGE_SIZE>,
>)
    ensures
        tag_views(groups@) == coalesced(tag_views(tags@), PAGE_SIZE as int),
{
    let ghost all = tag_views(tags@);
    let mut groups: Vec<StorePages<PAGE_SIZE>> = Vec::new();
    let mut acc: PartialAccumulator<PAGE_SIZE> = PartialAccumulator::new();
    let mut i: usize = 0;
    let n: usize = tags.len();
    assert(all.take(0) =~= Seq::<SpanTag>::empty());
    assert(tag_views(groups@) =~= Seq::<SpanTag>::empty());
    while i < n
        invariant
            i <= n,
            n == tags@.len(),
            all == tag_views(tags@),
            acc@ is None ==> groups@.len() == 0,
            with_open(tag_views(groups@), acc@) == coalesced(all.take(i as int), PAGE_SIZE as int),
        decreases n - i,
    {
        let tag: StorePages<PAGE_SIZE> = tags[i];
        let ghost before = tag_views(groups@);
        let ghost open = acc@;
        proof {
            assert(all.take(i + 1).drop_last() =~= all.take(i as int));
            assert(all.take(i + 1).last() == tag@);
        }
        match acc.push(tag) {
            Some(group) => {
                groups.push(group);
                assert(tag_views(groups@) =~= before.push(group@));
            },
            None => {
                assert(tag_views(groups@) =~= before);
            },
        }
        proof {
            let so_far = with_open(before, open);
            assert(with_open(tag_views(groups@), acc@) =~= fed(so_far, all[i as int], PAGE_SIZE as int)) by {
                match open {
                    Some(o) => {
                        assert(so_far.drop_last() =~= before);
                    },
                    None => {},
                }
            }
        }
        i = i + 1;
    }
    let ghost before = tag_views(groups@);
    match acc.finish() {
        Some(group) => {
            groups.push(group);
            assert(tag_views(groups@) =~= before.push(group@));
        },
        None => {},
    }
    assert(all.take(n as int) =~= all);
    groups
}

/// The groups of the slices of `pages`, given for each slice whether its page
/// is on disk: neighbouring slices with the same answer make one group.
pub fn store_pages_range<const PAGE_SIZE: u128>(
    pages: &PagesRange<PAGE_SIZE>,
    cached: &Vec<bool>,
) -> (groups: Vec<StorePages<PAGE_SIZE>>)
    requires
        cached@.len() == pages@.page_count(),
    ensures
        tag_views(groups@) == coalesced(
            probed(pages@.slices(PAGE_SIZE as int), cached@),
            PAGE_SIZE as int,
        ),
{
    let ghost all = probed(pages@.slices(PAGE_SIZE as int), cached@);
    let mut groups: Vec<StorePages<PAGE_SIZE>> = Vec::new();
    let mut acc: PartialAccumulator<PAGE_SIZE> = PartialAccumulator::new();
    let mut iter: PagesIter<PAGE_SIZE> = pages.pages();
    let mut i: usize = 0;
    let n: usize = cached.len();
    assert(all.take(0) =~= Seq::<SpanTag>::empty());
    assert(tag_views(groups@) =~= Seq::<SpanTag>::empty());
    while i < n
        invariant
            i <= n,
            n == cached@.len(),
            n == all.len(),
            all == probed(pages@.slices(PAGE_SIZE as int), cached@),
            iter@ == pages@.slices(PAGE_SIZE as int).skip(i as int),
            pages@.slices(PAGE_SIZE as int).len() == n,
            acc@ is None ==> groups@.len() == 0,
            with_open(tag_views(groups@), acc@) == coalesced(all.take(i as int), PAGE_SIZE as int),
        decreases n - i,
    {
        let ghost slices = pages@.slices(PAGE_SIZE as int);
        let ghost before = tag_views(groups@);
        let ghost open = acc@;
        let next = iter.next();
        assert(slices.skip(i as int).skip(1) =~= slices.skip(i + 1));
        let page = next.unwrap();
        let tag: StorePages<PAGE_SIZE> = StorePages {
            cached: cached[i],
            pages: PagesRange::from_page(page),
        };
        proof {
            assert(all.take(i + 1).drop_last() =~= all.take(i as int));
            assert(all.take(i + 1).last() == tag@);
        }
        match acc.push(tag) {
            Some(group) => {
                groups.push(group);
                assert(tag_views(groups@) =~= before.push(group@));
            },
            None => {
                assert(tag_views(groups@) =~= before);
            },
        }
        proof {
            let so_far = with_open(before, open);
            assert(with_open(tag_views(groups@), acc@) =~= fed(so_far, all[i as int], PAGE_SIZE as int)) by {
                match open {
                    Some(o) => {
                        assert(so_far.drop_last() =~= before);
                    },
                    None => {},
                }
            }
        }
        i = i + 1;
    }
    let ghost before = tag_views(groups@);
    match acc.finish() {
        Some(group) => {
            groups.push(group);
            assert(tag_views(groups@) =~= before.push(group@));
        },
        None => {},
    }
    assert(all.take(n as int) =~= all);
    groups
}

} // verus!
