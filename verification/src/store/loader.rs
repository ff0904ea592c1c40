use vstd::prelude::*;

use crate::idx_range::IdxRange;
use crate::pages::{lemma_covering, PageGroup, PageRange, PagesIter, PagesRange};
use crate::store::store::{all_steps, group_steps, mixed_steps};
use crate::store::store_pages::{coalesced, fed, probed, PartialAccumulator, SpanTag, StorePages};
use crate::store::{fresh_steps, Step, StepView, StepsIter};

verus! {

/// What the loader asks of its caller.
#[derive(Debug, PartialEq)]
pub enum Action<const PAGE_SIZE: u128> {
    /// Find out whether the file of this slice's page is there, and give the
    /// answer to the loader.
    Probe(PageRange<PAGE_SIZE>),
    /// Do this step.
    Do(Step<PAGE_SIZE>),
    /// Nothing is left to do.
    Done,
}

/// A request as the loader has served it so far.
pub struct LoaderView {
    /// There was no cache directory when the request came.
    pub fresh: bool,
    /// The pages that the request touches.
    pub group: PageGroup,
    /// The answers given so far, one for each page from the first on.
    pub found: Seq<bool>,
    /// The steps handed out so far.
    pub emitted: Seq<StepView>,
    /// The loader has asked about a page and waits for the answer.
    pub awaiting: bool,
}

impl LoaderView {
    /// Nothing is left to ask: the request is fresh, or every page has its
    /// answer.
    pub open spec fn answered(self) -> bool {
        self.fresh || self.found.len() == self.group.page_count()
    }

    /// All the steps of the request, once nothing is left to ask.
    pub open spec fn plan(self, size: int) -> Seq<StepView> {
        if self.fresh {
            fresh_steps(self.group, size)
        } else {
            mixed_steps(self.group, self.found, size)
        }
    }

    /// The steps that the answers so far decide: all the steps of the
    /// request once nothing is left to ask, and before that the steps of the
    /// groups that are closed.
    pub open spec fn known(self, size: int) -> Seq<StepView> {
        if self.answered() {
            self.plan(size)
        } else {
            all_steps(closed_groups(self.group, self.found, size), size)
        }
    }
}

/// Serves one request step by step. It asks about each page in turn, joins
/// the answers into groups, and hands out the steps of a group as soon as the
/// group is known to end.
pub struct Loader<const PAGE_SIZE: u128> {
    slices: PagesIter<PAGE_SIZE>,
    asked: Option<PageRange<PAGE_SIZE>>,
    groups: PartialAccumulator<PAGE_SIZE>,
    steps: Option<StepsIter<PAGE_SIZE>>,
    finished: bool,
    fresh: Ghost<bool>,
    group: Ghost<PageGroup>,
    found: Ghost<Seq<bool>>,
    emitted: Ghost<Seq<StepView>>,
}

impl<const PAGE_SIZE: u128> View for Loader<PAGE_SIZE> {
    type V = LoaderView;

    closed spec fn view(&self) -> LoaderView {
        LoaderView {
            fresh: self.fresh@,
            group: self.group@,
            found: self.found@,
            emitted: self.emitted@,
            awaiting: self.asked is Some,
        }
    }
}

/// The groups that are closed once the first `found.len()` pages of `group`
/// have their answers: all but the last, which a later page may extend.
pub open spec fn closed_groups(group: PageGroup, found: Seq<bool>, size: int) -> Seq<SpanTag> {
    let groups = coalesced(probed(group.slices(size).take(found.len() as int), found), size);
    if groups.len() == 0 {
        groups
    } else {
        groups.drop_last()
    }
}

/// The group that is open once the first `found.len()` pages of `group` have
/// their answers.
pub open spec fn open_group(group: PageGroup, found: Seq<bool>, size: int) -> Option<SpanTag> {
    let groups = coalesced(probed(group.slices(size).take(found.len() as int), found), size);
    if groups.len() == 0 {
        None
    } else {
        Some(groups.last())
    }
}

/// One more answer: the open group grows, or it is closed and a new one is
/// opened.
proof fn lemma_answer(group: PageGroup, found: Seq<bool>, cached: bool, size: int)
    requires
        found.len() < group.page_count(),
    ensures
        ({
            let slice = group.slices(size)[found.len() as int];
            let tag = SpanTag { cached, group: PageGroup::of_slice(slice) };
            let more = found.push(cached);
            match open_group(group, found, size) {
                Some(open) => if open.extends(tag, size) {
                    &&& open_group(group, more, size) == Some(open.joined(tag))
                    &&& closed_groups(group, more, size) == closed_groups(group, found, size)
                } else {
                    &&& open_group(group, more, size) == Some(tag)
                    &&& closed_groups(group, more, size) == closed_groups(group, found, size).push(
                        open,
                    )
                },
                None => {
                    &&& open_group(group, more, size) == Some(tag)
                    &&& closed_groups(group, more, size) == closed_groups(group, found, size)
                },
            }
        }),
{
    let slices = group.slices(size);
    let i = found.len() as int;
    let slice = slices[i];
    let tag = SpanTag { cached, group: PageGroup::of_slice(slice) };
    let more = found.push(cached);
    let before = probed(slices.take(i), found);
    let after = probed(slices.take(i + 1), more);
    assert(after.drop_last() =~= before);
    assert(after.last() == tag);
    let groups = coalesced(before, size);
    assert(coalesced(after, size) == fed(groups, tag, size));
    if groups.len() > 0 {
        if groups.last().extends(tag, size) {
            assert(fed(groups, tag, size).drop_last() =~= groups.drop_last());
        } else {
            assert(fed(groups, tag, size).drop_last() =~= groups);
        }
    } else {
        assert(fed(groups, tag, size).drop_last() =~= groups);
    }
}

/// The steps of the closed groups and of the open group are the steps of
/// all the groups.
proof fn lemma_last_group(group: PageGroup, found: Seq<bool>, size: int)
    requires
        found.len() == group.page_count(),
        open_group(group, found, size) is Some,
    ensures
        mixed_steps(group, found, size) == all_steps(closed_groups(group, found, size), size)
            + group_steps(open_group(group, found, size).unwrap(), size),
{
    assert(group.slices(size).take(found.len() as int) =~= group.slices(size));
}

impl<const PAGE_SIZE: u128> Loader<PAGE_SIZE> {
    /// The steps that were taken from the group in hand and not handed out
    /// yet.
    closed spec fn pending(self) -> Seq<StepView> {
        match self.steps {
            Some(steps) => steps@,
            None => Seq::empty(),
        }
    }

    /// The loader is in order: what it holds is what its history says.
    pub closed spec fn wf(self) -> bool {
        let size = PAGE_SIZE as int;
        let group = self.group@;
        let found = self.found@;
        let slices = group.slices(size);
        let i = found.len() as int;
        &&& group.valid(size)
        &&& i <= group.page_count()
        &&& self.finished ==> self.asked is None && self.groups@ is None && self.emitted@
            + self.pending() == self@.plan(size)
        &&& self.fresh@ ==> self.finished && i == 0
        &&& self.finished && !self.fresh@ ==> i == group.page_count()
        &&& !self.finished ==> {
            &&& self.groups@ == open_group(group, found, size)
            &&& self.emitted@ + self.pending() == all_steps(
                closed_groups(group, found, size),
                size,
            )
            &&& match self.asked {
                Some(page) => i < group.page_count() && page@ == slices[i] && self.slices@
                    == slices.skip(i + 1) && self.pending().len() == 0,
                None => self.slices@ == slices.skip(i),
            }
        }
    }

    /// A loader for `range`. With no cache directory yet, the request is
    /// fresh: the directory is made and the whole range is filled from the
    /// producer. Else the loader asks about each page.
    pub fn new(range: &IdxRange, dir_exists: bool) -> (loader: Self)
        requires
            PAGE_SIZE > 0,
            range.wf(),
        ensures
            loader.wf(),
            loader@ == (LoaderView {
                fresh: !dir_exists,
                group: PageGroup::covering(range.start(), range.end(), PAGE_SIZE as int),
                found: Seq::empty(),
                emitted: Seq::empty(),
                awaiting: false,
            }),
    {
        let pages: PagesRange<PAGE_SIZE> = PagesRange::from(range);
        let steps: Option<StepsIter<PAGE_SIZE>> = if dir_exists {
            None
        } else {
            Some(StepsIter::fresh(&pages))
        };
        let loader = Loader {
            slices: pages.pages(),
            asked: None,
            groups: PartialAccumulator::new(),
            steps,
            finished: !dir_exists,
            fresh: Ghost(!dir_exists),
            group: Ghost(pages@),
            found: Ghost(Seq::empty()),
            emitted: Ghost(Seq::empty()),
        };
        proof {
            let size = PAGE_SIZE as int;
            lemma_covering(range.start(), range.end(), size);
            let slices = pages@.slices(size);
            assert(slices.skip(0) =~= slices);
            assert(slices.take(0) =~= Seq::<crate::pages::PageSlice>::empty());
            assert(probed(slices.take(0), Seq::<bool>::empty()) =~= Seq::<SpanTag>::empty());
            assert(loader.emitted@ + loader.pending() =~= loader.pending());
        }
        loader
    }

    /// Whether the loader has asked about a page and waits for the answer.
    pub fn awaiting(&self) -> (waits: bool)
        ensures
            waits == self@.awaiting,
    {
        self.asked.is_some()
    }

    /// Says what to do next. While a step that the answers so far decide has
    /// not been handed out, the next such step is. Else, if nothing is left
    /// to ask, the request is done, and the steps handed out are all its
    /// steps, in order. Else the loader asks about the next page.
    pub fn next(&mut self) -> (action: Action<PAGE_SIZE>)
        requires
            old(self).wf(),
            !old(self)@.awaiting,
        ensures
            final(self).wf(),
            ({
                let was = old(self)@;
                let now = final(self)@;
                let known = was.known(PAGE_SIZE as int);
                let at = was.emitted.len() as int;
                &&& now.fresh == was.fresh
                &&& now.group == was.group
                &&& now.found == was.found
                &&& at <= known.len()
                &&& was.emitted == known.take(at)
                &&& if at < known.len() {
                    &&& action matches Action::Do(step)
                    &&& step@ == known[at]
                    &&& now.emitted == was.emitted.push(step@)
                    &&& !now.awaiting
                } else if was.answered() {
                    &&& action is Done
                    &&& now.emitted == was.emitted
                    &&& now.emitted == now.plan(PAGE_SIZE as int)
                    &&& !now.awaiting
                } else {
                    &&& action matches Action::Probe(page)
                    &&& page@ == was.group.slices(PAGE_SIZE as int)[was.found.len() as int]
                    &&& now.emitted == was.emitted
                    &&& now.awaiting
                }
            }),
    {
        let ghost size = PAGE_SIZE as int;
        let ghost before = self.pending();
        let ghost known = self@.known(size);
        let ghost total = self.emitted@ + before;
        proof {
            // what was handed out and what is in hand begin the known steps
            if !self.finished && self.found@.len() == self.group@.page_count() {
                lemma_answered(self.group@, self.found@, size);
                lemma_last_group(self.group@, self.found@, size);
            }
            assert(known.take(total.len() as int) =~= total);
            assert(total.take(self.emitted@.len() as int) =~= self.emitted@);
            assert(known.take(self.emitted@.len() as int) =~= self.emitted@);
            if before.len() > 0 {
                assert(known[self.emitted@.len() as int] == total[self.emitted@.len() as int]);
            }
        }
        let taken = self.steps.take();
        if let Some(mut steps) = taken {
            let step = steps.next();
            if let Some(step) = step {
                self.steps = Some(steps);
                proof {
                    self.emitted = Ghost(self.emitted@.push(step@));
                    assert(self.emitted@ + self.pending() =~= total);
                }
                return Action::Do(step);
            }
        }
        assert(before.len() == 0);
        assert(self.pending().len() == 0);
        assert(self.emitted@ + self.pending() =~= total);
        assert(total =~= self.emitted@);
        if self.finished {
            return Action::Done;
        }
        let ghost slices = self.group@.slices(size);
        let ghost i = self.found@.len() as int;
        let next = self.slices.next();
        match next {
            Some(page) => {
                proof {
                    assert(slices.skip(i).skip(1) =~= slices.skip(i + 1));
                }
                self.asked = Some(page);
                Action::Probe(page)
            },
            None => {
                proof {
                    assert(slices.skip(i).len() == 0);
                    assert(i == self.group@.page_count());
                }
                let flushed = self.groups.finish();
                self.finished = true;
                let group = flushed.unwrap();
                let mut steps = group.steps();
                let step = steps.next().unwrap();
                self.steps = Some(steps);
                proof {
                    let all = group_steps(group@, size);
                    self.emitted = Ghost(self.emitted@.push(step@));
                    assert(self.emitted@ + self.pending() =~= old(self).emitted@ + all);
                    assert(known[old(self).emitted@.len() as int] == all[0]);
                }
                Action::Do(step)
            },
        }
    }

    /// Takes the answer for the page that the loader asked about.
    pub fn answer(&mut self, cached: bool)
        requires
            old(self).wf(),
            old(self)@.awaiting,
        ensures
            final(self).wf(),
            final(self)@ == (LoaderView {
                found: old(self)@.found.push(cached),
                awaiting: false,
                ..old(self)@
            }),
    {
        let ghost size = PAGE_SIZE as int;
        let page = self.asked.take().unwrap();
        let tag: StorePages<PAGE_SIZE> = StorePages { cached, pages: PagesRange::from_page(page) };
        proof {
            lemma_answer(self.group@, self.found@, cached, size);
        }
        let ghost closed = closed_groups(self.group@, self.found@, size);
        let flushed = self.groups.push(tag);
        proof {
            self.found = Ghost(self.found@.push(cached));
        }
        match flushed {
            Some(group) => {
                self.steps = Some(group.steps());
                proof {
                    assert(closed.push(group@).drop_last() =~= closed);
                    assert(all_steps(closed.push(group@), size) == all_steps(closed, size)
                        + group_steps(group@, size));
                    assert(self.emitted@ + self.pending() =~= all_steps(closed, size)
                        + group_steps(group@, size));
                }
            },
            None => {
                self.steps = None;
                assert(self.emitted@ + self.pending() =~= old(self).emitted@ + old(self).pending());
            },
        }
    }
}

/// Once every page has its answer, there is an open group.
proof fn lemma_answered(group: PageGroup, found: Seq<bool>, size: int)
    requires
        group.valid(size),
        found.len() == group.page_count(),
    ensures
        open_group(group, found, size) is Some,
{
    let slices = group.slices(size);
    let i = found.len() as int;
    let tags = probed(slices.take(i), found);
    assert(tags.len() > 0);
    let groups = coalesced(tags.drop_last(), size);
    assert(coalesced(tags, size) == fed(groups, tags.last(), size));
}

} // verus!
