use vstd::prelude::*;
use vstd::std_specs::convert::TryIntoSpec;

use crate::idx_range::IdxRange;
use crate::pages::{PageGroup, PagesRange};
use crate::source::SourceRange;
use crate::store::store_pages::{coalesced, probed, store_pages_range, tag_views, SpanTag, StorePages};
use crate::store::{
    cache_steps, drain, fresh_pages, fresh_steps, load_steps, step_views, Step, StepView, StepsIter,
};

verus! {

/// What to do with a request: hand it to the producer as it is, or serve the
/// range of indices that it stands for through the cache.
pub enum Route<R> {
    Bypass(R),
    Cached(IdxRange),
}

/// Decides whether a request goes through the cache: it does when it turns
/// into a range of indices; when it does not, it comes back unchanged, to be
/// handed to the producer as it is.
pub fn route<R: SourceRange>(r: R) -> (res: Route<R>)
    ensures
        R::obeys_try_into_spec() ==> res == (match r.try_into_spec() {
            Ok(range) => Route::<R>::Cached(range),
            Err(r) => Route::<R>::Bypass(r),
        }),
{
    match r.try_into() {
        Ok(range) => Route::Cached(range),
        Err(r) => Route::Bypass(r),
    }
}

/// The steps for one group: to read it when it is on disk, to fill it from
/// the producer when it is missing.
pub open spec fn group_steps(tag: SpanTag, size: int) -> Seq<StepView> {
    if tag.cached {
        load_steps(tag.group, size)
    } else {
        cache_steps(tag.group, size)
    }
}

/// The steps for the groups in `groups`, group after group.
pub open spec fn all_steps(groups: Seq<SpanTag>, size: int) -> Seq<StepView>
    decreases groups.len(),
{
    if groups.len() == 0 {
        Seq::empty()
    } else {
        all_steps(groups.drop_last(), size) + group_steps(groups.last(), size)
    }
}

/// The steps that serve `group` when `cached` says of each of its pages
/// whether it is on disk: neighbouring slices with the same answer make one
/// group, and each group is read or filled as a whole.
pub open spec fn mixed_steps(group: PageGroup, cached: Seq<bool>, size: int) -> Seq<StepView> {
    all_steps(coalesced(probed(group.slices(size), cached), size), size)
}

impl<const PAGE_SIZE: u128> StorePages<PAGE_SIZE> {
    /// The steps for this group.
    pub fn steps(&self) -> (iter: StepsIter<PAGE_SIZE>)
        ensures
            iter@ == group_steps(self@, PAGE_SIZE as int),
            iter@.len() > 0,
    {
        if self.cached {
            StepsIter::load(&self.pages)
        } else {
            StepsIter::cache(&self.pages)
        }
    }
}

/// The steps that serve `pages` from a cache directory that exists, given for
/// each page of `pages` whether its file is there.
pub fn load_or_cache<const PAGE_SIZE: u128>(pages: &PagesRange<PAGE_SIZE>, cached: &Vec<bool>) -> (steps:
    Vec<Step<PAGE_SIZE>>)
    requires
        cached@.len() == pages@.page_count(),
    ensures
        step_views(steps@) == mixed_steps(pages@, cached@, PAGE_SIZE as int),
{
    let groups: Vec<StorePages<PAGE_SIZE>> = store_pages_range(pages, cached);
    let ghost tags = tag_views(groups@);
    let mut steps: Vec<Step<PAGE_SIZE>> = Vec::new();
    let mut i: usize = 0;
    assert(step_views(steps@) =~= Seq::<StepView>::empty());
    assert(tags.take(0) =~= Seq::<SpanTag>::empty());
    while i < groups.len()
        invariant
            i <= groups@.len(),
            tags == tag_views(groups@),
            step_views(steps@) == all_steps(tags.take(i as int), PAGE_SIZE as int),
        decreases groups@.len() - i,
    {
        proof {
            assert(tags.take(i + 1).drop_last() =~= tags.take(i as int));
            assert(tags.take(i + 1).last() == groups@[i as int]@);
        }
        drain(&mut steps, groups[i].steps());
        i = i + 1;
    }
    assert(tags.take(i as int) =~= tags);
    steps
}

/// The steps that serve `range`. With no directory for the key yet, `cached`
/// is `None`: the directory is made and the whole range is filled from the
/// producer. Else `cached` says of each page of the range whether its file is
/// there.
pub fn load<const PAGE_SIZE: u128>(range: &IdxRange, cached: Option<&Vec<bool>>) -> (steps: Vec<
    Step<PAGE_SIZE>,
>)
    requires
        PAGE_SIZE > 0,
        range.wf(),
        cached matches Some(flags) ==> flags@.len() == PageGroup::covering(
            range.start(),
            range.end(),
            PAGE_SIZE as int,
        ).page_count(),
    ensures
        step_views(steps@) == (match cached {
            Some(flags) => mixed_steps(
                PageGroup::covering(range.start(), range.end(), PAGE_SIZE as int),
                flags@,
                PAGE_SIZE as int,
            ),
            None => fresh_steps(
                PageGroup::covering(range.start(), range.end(), PAGE_SIZE as int),
                PAGE_SIZE as int,
            ),
        }),
{
    let pages: PagesRange<PAGE_SIZE> = PagesRange::from(range);
    match cached {
        Some(flags) => load_or_cache(&pages, flags),
        None => fresh_pages(&pages),
    }
}

} // verus!
