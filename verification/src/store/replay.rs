use vstd::arithmetic::mul::lemma_mul_inequality;
use vstd::prelude::*;

use crate::idx_range::IdxRange;
use crate::pages::{
    lemma_covering, lemma_group_bounds, lemma_whole_pages, slices_of, PageGroup,
};
use crate::store::store::{all_steps, group_steps, mixed_steps};
use crate::store::store_pages::{coalesced, fed, probed, SpanTag};
use crate::store::{cache_steps, fresh_steps, load_steps, StepView};

verus! {

/// What a producer yields for the indices `start..=end`: the value of every
/// index, in ascending order.
pub open spec fn produced<V>(source: spec_fn(int) -> V, start: int, end: int) -> Seq<V> {
    Seq::new((end - start + 1) as nat, |j: int| source(start + j))
}

/// A request under way: the page files on disk, what the producer has yet to
/// yield of what it was last asked for, and the values handed out so far.
pub struct Replay<V> {
    pub disk: Map<int, Seq<V>>,
    pub stream: Seq<V>,
    pub output: Seq<V>,
}

/// Every page file holds the values that the producer yields for the indices
/// of its page.
pub open spec fn faithful<V>(disk: Map<int, Seq<V>>, source: spec_fn(int) -> V, size: int) -> bool {
    forall|page: int| #[trigger]
        disk.dom().contains(page) ==> disk[page] == produced(
            source,
            page * size,
            page * size + size - 1,
        )
}

/// The request after one step. A `CreateDir` changes none of this. A `Load`
/// hands out the slice's part of the page file. A `Source` asks the producer for a range. A `Cache` takes the
/// slice's values from the producer and hands them out; it writes the page
/// file when the slice is the whole page and all its values came.
pub open spec fn after_step<V>(
    state: Replay<V>,
    step: StepView,
    source: spec_fn(int) -> V,
    size: int,
) -> Replay<V> {
    match step {
        StepView::CreateDir => state,
        StepView::Load(slice) => Replay {
            output: state.output + state.disk[slice.page].subrange(slice.first, slice.last + 1),
            ..state
        },
        StepView::Source(range) => Replay {
            stream: produced(source, range.start(), range.end()),
            ..state
        },
        StepView::Cache(slice) => {
            let values = state.stream.take(slice.len());
            Replay {
                disk: if slice.full(size) && values.len() == slice.len() {
                    state.disk.insert(slice.page, values)
                } else {
                    state.disk
                },
                stream: state.stream.skip(slice.len()),
                output: state.output + values,
            }
        },
    }
}

/// The request after the steps of `steps`, one after the other.
pub open spec fn replay<V>(
    state: Replay<V>,
    steps: Seq<StepView>,
    source: spec_fn(int) -> V,
    size: int,
) -> Replay<V>
    decreases steps.len(),
{
    if steps.len() == 0 {
        state
    } else {
        after_step(replay(state, steps.drop_last(), source, size), steps.last(), source, size)
    }
}

/// The pages of which `group` holds the whole.
pub open spec fn whole_pages(group: PageGroup, size: int) -> Set<int> {
    Set::new(
        |page: int|
            group.from <= page <= group.to && group.slice(size, page - group.from).full(size),
    )
}

/// Doing the steps of `first` and then those of `second` is doing the steps
/// of the two in a row.
pub proof fn lemma_replay_concat<V>(
    state: Replay<V>,
    first: Seq<StepView>,
    second: Seq<StepView>,
    source: spec_fn(int) -> V,
    size: int,
)
    ensures
        replay(state, first + second, source, size) == replay(
            replay(state, first, source, size),
            second,
            source,
            size,
        ),
    decreases second.len(),
{
    if second.len() == 0 {
        assert(first + second =~= first);
    } else {
        assert((first + second).drop_last() =~= first + second.drop_last());
        assert((first + second).last() == second.last());
        lemma_replay_concat(state, first, second.drop_last(), source, size);
    }
}

/// What the producer yields up to an index and what it yields from the next
/// index on make what it yields for the whole.
pub proof fn lemma_produced_join<V>(source: spec_fn(int) -> V, start: int, mid: int, end: int)
    requires
        start <= mid + 1,
        mid <= end,
    ensures
        produced(source, start, mid) + produced(source, mid + 1, end) == produced(
            source,
            start,
            end,
        ),
{
    assert(produced(source, start, mid) + produced(source, mid + 1, end) =~= produced(
        source,
        start,
        end,
    ));
}

/// The index before the start of the slice number `j` of `group`: the index
/// up to which the slices before it reach.
pub open spec fn reached(group: PageGroup, size: int, j: int) -> int {
    if j == 0 {
        group.start_index(size) - 1
    } else {
        group.slice(size, j - 1).end_index(size)
    }
}

/// A slice of a valid group is a valid slice that lies inside the group.
pub proof fn lemma_slice_inside(group: PageGroup, size: int, i: int)
    requires
        size > 0,
        group.valid(size),
        0 <= i < group.page_count(),
    ensures
        group.slice(size, i).valid(size),
        group.start_index(size) <= group.slice(size, i).start_index(size),
        group.slice(size, i).end_index(size) <= group.end_index(size),
        i == 0 ==> group.slice(size, i).start_index(size) == group.start_index(size),
        i == group.page_count() - 1 ==> group.slice(size, i).end_index(size) == group.end_index(
            size,
        ),
        i > 0 ==> group.slice(size, i).start_index(size) == group.slice(size, i - 1).end_index(
            size,
        ) + 1,
{
    let page = group.from + i;
    assert(page * size == (page - 1) * size + size) by (nonlinear_arith);
    assert((page + 1) * size == page * size + size) by (nonlinear_arith);
    if i > 0 {
        lemma_mul_inequality(group.from + 1, page, size);
        assert((group.from + 1) * size == group.from * size + size) by (nonlinear_arith);
    }
    if page < group.to {
        lemma_mul_inequality(page + 1, group.to, size);
    }
}

/// Where the slices of a valid group begin and end.
proof fn lemma_reached(group: PageGroup, size: int, j: int)
    requires
        size > 0,
        group.valid(size),
        0 <= j <= group.page_count(),
    ensures
        j < group.page_count() ==> group.slice(size, j).start_index(size) == reached(group, size, j)
            + 1,
        j < group.page_count() ==> group.slice(size, j).valid(size),
        j < group.page_count() ==> reached(group, size, j + 1) == group.slice(size, j).end_index(
            size,
        ),
        reached(group, size, group.page_count()) == group.end_index(size),
        group.start_index(size) - 1 <= reached(group, size, j) <= group.end_index(size),
        0 <= group.start_index(size) <= group.end_index(size),
{
    lemma_group_bounds(group, size);
    if j < group.page_count() {
        lemma_slice_inside(group, size, j);
    }
    if j > 0 {
        lemma_slice_inside(group, size, j - 1);
    }
    lemma_slice_inside(group, size, group.page_count() - 1);
}

/// Reading a group that is on disk hands out what the producer yields for
/// the group's indices, and changes nothing else.
pub proof fn lemma_replay_load<V>(
    state: Replay<V>,
    group: PageGroup,
    source: spec_fn(int) -> V,
    size: int,
)
    requires
        size > 0,
        group.valid(size),
        faithful(state.disk, source, size),
        forall|page: int| group.from <= page <= group.to ==> state.disk.dom().contains(page),
    ensures
        replay(state, load_steps(group, size), source, size) == (Replay {
            output: state.output + produced(
                source,
                group.start_index(size),
                group.end_index(size),
            ),
            ..state
        }),
{
    lemma_replay_load_part(state, group, source, size, group.page_count());
    lemma_reached(group, size, group.page_count());
    assert(load_steps(group, size).take(group.page_count()) =~= load_steps(group, size));
}

proof fn lemma_replay_load_part<V>(
    state: Replay<V>,
    group: PageGroup,
    source: spec_fn(int) -> V,
    size: int,
    j: int,
)
    requires
        size > 0,
        group.valid(size),
        faithful(state.disk, source, size),
        forall|page: int| group.from <= page <= group.to ==> state.disk.dom().contains(page),
        0 <= j <= group.page_count(),
    ensures
        replay(state, load_steps(group, size).take(j), source, size) == (Replay {
            output: state.output + produced(
                source,
                group.start_index(size),
                reached(group, size, j),
            ),
            ..state
        }),
    decreases j,
{
    let steps = load_steps(group, size);
    if j == 0 {
        assert(steps.take(0) =~= Seq::<StepView>::empty());
        assert(state.output + produced(source, group.start_index(size), reached(group, size, 0))
            =~= state.output);
    } else {
        lemma_replay_load_part(state, group, source, size, j - 1);
        lemma_reached(group, size, j - 1);
        let slice = group.slice(size, j - 1);
        assert(steps.take(j).drop_last() =~= steps.take(j - 1));
        assert(steps.take(j).last() == StepView::Load(slice));
        let before = replay(state, steps.take(j - 1), source, size);
        let file = state.disk[slice.page];
        assert(state.disk.dom().contains(slice.page));
        assert(file == produced(source, slice.page * size, slice.page * size + size - 1));
        assert(file.subrange(slice.first, slice.last + 1) =~= produced(
            source,
            slice.start_index(size),
            slice.end_index(size),
        ));
        lemma_produced_join(
            source,
            group.start_index(size),
            reached(group, size, j - 1),
            reached(group, size, j),
        );
        assert(before.output + file.subrange(slice.first, slice.last + 1) =~= state.output
            + produced(source, group.start_index(size), reached(group, size, j)));
    }
}

/// Filling a group from the producer asks it for the group's range, hands
/// out what it yields for the group's indices, and writes the file of every
/// page of which the group holds the whole, with the values of that page.
pub proof fn lemma_replay_cache<V>(
    state: Replay<V>,
    group: PageGroup,
    source: spec_fn(int) -> V,
    size: int,
)
    requires
        size > 0,
        group.valid(size),
        group.end_index(size) <= u128::MAX,
        faithful(state.disk, source, size),
    ensures
        ({
            let end = replay(state, cache_steps(group, size), source, size);
            &&& end.output == state.output + produced(
                source,
                group.start_index(size),
                group.end_index(size),
            )
            &&& end.stream.len() == 0
            &&& faithful(end.disk, source, size)
            &&& end.disk.dom() == state.disk.dom().union(whole_pages(group, size))
        }),
{
    lemma_replay_cache_part(state, group, source, size, group.page_count());
    lemma_reached(group, size, group.page_count());
    let end = replay(state, cache_steps(group, size), source, size);
    assert(cache_steps(group, size).take(1 + group.page_count()) =~= cache_steps(group, size));
    assert(end.disk.dom() =~= state.disk.dom().union(whole_pages(group, size)));
}

/// The pages among the first `j` of `group` of which the group holds the
/// whole.
pub open spec fn whole_pages_before(group: PageGroup, size: int, j: int) -> Set<int> {
    Set::new(
        |page: int|
            group.from <= page < group.from + j && group.slice(size, page - group.from).full(size),
    )
}

proof fn lemma_replay_cache_part<V>(
    state: Replay<V>,
    group: PageGroup,
    source: spec_fn(int) -> V,
    size: int,
    j: int,
)
    requires
        size > 0,
        group.valid(size),
        group.end_index(size) <= u128::MAX,
        faithful(state.disk, source, size),
        0 <= j <= group.page_count(),
    ensures
        ({
            let end = replay(state, cache_steps(group, size).take(1 + j), source, size);
            &&& end.output == state.output + produced(
                source,
                group.start_index(size),
                reached(group, size, j),
            )
            &&& end.stream == produced(
                source,
                reached(group, size, j) + 1,
                group.end_index(size),
            )
            &&& faithful(end.disk, source, size)
            &&& end.disk.dom() == state.disk.dom().union(whole_pages_before(group, size, j))
        }),
    decreases j,
{
    let steps = cache_steps(group, size);
    lemma_reached(group, size, j);
    if j == 0 {
        let range = group.index_range(size);
        assert(steps.take(1).drop_last() =~= Seq::<StepView>::empty());
        assert(steps.take(1).last() == StepView::Source(range));
        assert(replay(state, steps.take(1).drop_last(), source, size) == state);
        let end = replay(state, steps.take(1), source, size);
        assert(end == after_step(state, StepView::Source(range), source, size));
        assert(range.start() == group.start_index(size));
        assert(range.end() == group.end_index(size));
        assert(state.output + produced(source, group.start_index(size), reached(group, size, 0))
            =~= state.output);
        assert(end.disk.dom() =~= state.disk.dom().union(whole_pages_before(group, size, 0)));
    } else {
        lemma_replay_cache_part(state, group, source, size, j - 1);
        lemma_reached(group, size, j - 1);
        let slice = group.slice(size, j - 1);
        assert(steps.take(1 + j).drop_last() =~= steps.take(j));
        assert(steps.take(1 + j).last() == StepView::Cache(slice));
        let before = replay(state, steps.take(j), source, size);
        let end = replay(state, steps.take(1 + j), source, size);
        assert(end == after_step(before, StepView::Cache(slice), source, size));
        let values = before.stream.take(slice.len());
        assert(values =~= produced(source, slice.start_index(size), slice.end_index(size)));
        assert(before.stream.skip(slice.len()) =~= produced(
            source,
            reached(group, size, j) + 1,
            group.end_index(size),
        ));
        lemma_produced_join(
            source,
            group.start_index(size),
            reached(group, size, j - 1),
            reached(group, size, j),
        );
        assert(before.output + values =~= state.output + produced(
            source,
            group.start_index(size),
            reached(group, size, j),
        ));
        if slice.full(size) {
            assert(values == produced(source, slice.page * size, slice.page * size + size - 1));
            assert(end.disk == before.disk.insert(slice.page, values));
        }
        assert(end.disk.dom() =~= state.disk.dom().union(whole_pages_before(group, size, j))) by {
            assert forall|page: int|
                whole_pages_before(group, size, j).contains(page) <==> (whole_pages_before(
                    group,
                    size,
                    j - 1,
                ).contains(page) || (page == slice.page && slice.full(size))) by {}
        }
    }
}

/// `tag` is a run of whole slices of `group`: it begins and ends where slices
/// of `group` do, and `cached` has the tag's answer for every page of it.
pub open spec fn part_of(tag: SpanTag, group: PageGroup, cached: Seq<bool>, size: int) -> bool {
    &&& group.from <= tag.group.from <= tag.group.to <= group.to
    &&& tag.group.first == (if tag.group.from == group.from {
        group.first
    } else {
        0
    })
    &&& tag.group.last == (if tag.group.to == group.to {
        group.last
    } else {
        size - 1
    })
    &&& forall|page: int|
        tag.group.from <= page <= tag.group.to ==> #[trigger] cached[page - group.from]
            == tag.cached
}

/// The groups of `groups` are runs of whole slices of `group` that follow one
/// another page by page, from the first page of `group` through its page
/// number `pages`.
pub open spec fn tiles(
    groups: Seq<SpanTag>,
    group: PageGroup,
    cached: Seq<bool>,
    pages: int,
    size: int,
) -> bool {
    &&& groups.len() > 0
    &&& groups[0].group.from == group.from
    &&& groups.last().group.to == group.from + pages - 1
    &&& forall|k: int| 0 <= k < groups.len() ==> part_of(#[trigger] groups[k], group, cached, size)
    &&& forall|k: int|
        0 <= k < groups.len() - 1 ==> (#[trigger] groups[k]).group.to + 1 == groups[k
            + 1].group.from
}

/// A run of whole slices of a valid group is a valid group with the same
/// slices, and it begins at the index after the one where the run before it
/// ends.
pub proof fn lemma_part_of(tag: SpanTag, group: PageGroup, cached: Seq<bool>, size: int)
    requires
        size > 0,
        group.valid(size),
        part_of(tag, group, cached, size),
    ensures
        tag.group.valid(size),
        tag.group.start_index(size) == group.slice(size, tag.group.from - group.from).start_index(
            size,
        ),
        tag.group.end_index(size) == group.slice(size, tag.group.to - group.from).end_index(size),
        tag.group.end_index(size) <= group.end_index(size),
        forall|page: int|
            tag.group.from <= page <= tag.group.to ==> #[trigger] tag.group.slice(
                size,
                page - tag.group.from,
            ) == group.slice(size, page - group.from),
{
    lemma_slice_inside(group, size, tag.group.to - group.from);
}

/// The groups that the probed slices of a valid group make tile that group.
pub proof fn lemma_tiles(group: PageGroup, cached: Seq<bool>, size: int, pages: int)
    requires
        size > 0,
        group.valid(size),
        cached.len() == group.page_count(),
        1 <= pages <= group.page_count(),
    ensures
        tiles(
            coalesced(probed(group.slices(size), cached).take(pages), size),
            group,
            cached,
            pages,
            size,
        ),
    decreases pages,
{
    let tags = probed(group.slices(size), cached);
    let tag = tags[pages - 1];
    assert(tags.take(pages).drop_last() =~= tags.take(pages - 1));
    assert(tags.take(pages).last() == tag);
    assert(tag.group == PageGroup::of_slice(group.slice(size, pages - 1)));
    let before = coalesced(tags.take(pages - 1), size);
    let after = coalesced(tags.take(pages), size);
    assert(after == fed(before, tag, size));
    assert(part_of(tag, group, cached, size));
    if pages == 1 {
        assert(tags.take(0) =~= Seq::<SpanTag>::empty());
        assert(before =~= Seq::<SpanTag>::empty());
        assert(after =~= seq![tag]);
    } else {
        lemma_tiles(group, cached, size, pages - 1);
        let last = before.last();
        assert(part_of(last, group, cached, size));
        if last.extends(tag, size) {
            let both = last.joined(tag);
            assert(after == before.drop_last().push(both));
            assert(part_of(both, group, cached, size));
            assert forall|k: int| 0 <= k < after.len() implies part_of(
                #[trigger] after[k],
                group,
                cached,
                size,
            ) by {
                if k < after.len() - 1 {
                    assert(after[k] == before[k]);
                }
            }
            assert forall|k: int| 0 <= k < after.len() - 1 implies (#[trigger] after[k]).group.to
                + 1 == after[k + 1].group.from by {
                assert(after[k] == before[k]);
                if k + 1 < after.len() - 1 {
                    assert(after[k + 1] == before[k + 1]);
                }
            }
            if after.len() > 1 {
                assert(after[0] == before[0]);
            }
        } else {
            assert(after == before.push(tag));
            assert forall|k: int| 0 <= k < after.len() implies part_of(
                #[trigger] after[k],
                group,
                cached,
                size,
            ) by {
                if k < after.len() - 1 {
                    assert(after[k] == before[k]);
                }
            }
            assert forall|k: int| 0 <= k < after.len() - 1 implies (#[trigger] after[k]).group.to
                + 1 == after[k + 1].group.from by {
                assert(after[k] == before[k]);
                if k + 1 < after.len() - 1 {
                    assert(after[k + 1] == before[k + 1]);
                }
            }
            assert(after[0] == before[0]);
        }
    }
}

/// The index up to which the first `k` groups reach.
pub open spec fn reached_by(groups: Seq<SpanTag>, group: PageGroup, size: int, k: int) -> int {
    if k == 0 {
        group.start_index(size) - 1
    } else {
        groups[k - 1].group.end_index(size)
    }
}

/// The page up to which, not included, the first `k` groups reach.
pub open spec fn pages_by(groups: Seq<SpanTag>, group: PageGroup, k: int) -> int {
    if k == 0 {
        group.from
    } else {
        groups[k - 1].group.to + 1
    }
}

/// The pages of `group` before the page `bound` that were missing and of
/// which `group` holds the whole.
pub open spec fn written_before(
    group: PageGroup,
    cached: Seq<bool>,
    size: int,
    bound: int,
) -> Set<int> {
    Set::new(
        |page: int|
            group.from <= page < bound && !cached[page - group.from] && group.slice(
                size,
                page - group.from,
            ).full(size),
    )
}

proof fn lemma_replay_tiles<V>(
    state: Replay<V>,
    groups: Seq<SpanTag>,
    group: PageGroup,
    cached: Seq<bool>,
    source: spec_fn(int) -> V,
    size: int,
    k: int,
)
    requires
        size > 0,
        group.valid(size),
        group.end_index(size) <= u128::MAX,
        cached.len() == group.page_count(),
        tiles(groups, group, cached, group.page_count(), size),
        faithful(state.disk, source, size),
        forall|i: int|
            0 <= i < cached.len() && #[trigger] cached[i] ==> state.disk.dom().contains(
                group.from + i,
            ),
        0 <= k <= groups.len(),
    ensures
        ({
            let end = replay(state, all_steps(groups.take(k), size), source, size);
            &&& end.output == state.output + produced(
                source,
                group.start_index(size),
                reached_by(groups, group, size, k),
            )
            &&& faithful(end.disk, source, size)
            &&& end.disk.dom() == state.disk.dom().union(
                written_before(group, cached, size, pages_by(groups, group, k)),
            )
            &&& group.start_index(size) - 1 <= reached_by(groups, group, size, k)
        }),
    decreases k,
{
    lemma_group_bounds(group, size);
    if k == 0 {
        assert(groups.take(0) =~= Seq::<SpanTag>::empty());
        assert(state.output + produced(
            source,
            group.start_index(size),
            reached_by(groups, group, size, 0),
        ) =~= state.output);
        assert(state.disk.dom() =~= state.disk.dom().union(
            written_before(group, cached, size, group.from),
        ));
    } else {
        lemma_replay_tiles(state, groups, group, cached, source, size, k - 1);
        let tag = groups[k - 1];
        assert(groups.take(k).drop_last() =~= groups.take(k - 1));
        assert(groups.take(k).last() == tag);
        let done = all_steps(groups.take(k - 1), size);
        assert(all_steps(groups.take(k), size) == done + group_steps(tag, size));
        lemma_replay_concat(state, done, group_steps(tag, size), source, size);
        let mid = replay(state, done, source, size);
        let end = replay(state, all_steps(groups.take(k), size), source, size);
        assert(end == replay(mid, group_steps(tag, size), source, size));
        assert(part_of(tag, group, cached, size));
        lemma_part_of(tag, group, cached, size);
        lemma_group_bounds(tag.group, size);
        // the group begins at the index after the one that was reached
        assert(tag.group.start_index(size) == reached_by(groups, group, size, k - 1) + 1) by {
            if k - 1 == 0 {
            } else {
                let prev = groups[k - 2];
                assert(part_of(prev, group, cached, size));
                assert(prev.group.to + 1 == tag.group.from);
                assert((prev.group.to + 1) * size == prev.group.to * size + size)
                    by (nonlinear_arith);
            }
        }
        assert(pages_by(groups, group, k - 1) == tag.group.from);
        lemma_produced_join(
            source,
            group.start_index(size),
            reached_by(groups, group, size, k - 1),
            tag.group.end_index(size),
        );
        if tag.cached {
            assert forall|page: int| tag.group.from <= page <= tag.group.to implies mid.disk.dom().contains(
                page,
            ) by {
                assert(cached[page - group.from] == tag.cached);
                assert(state.disk.dom().contains(group.from + (page - group.from)));
            }
            lemma_replay_load(mid, tag.group, source, size);
            assert(end.output =~= state.output + produced(
                source,
                group.start_index(size),
                reached_by(groups, group, size, k),
            ));
            assert(end.disk.dom() =~= state.disk.dom().union(
                written_before(group, cached, size, pages_by(groups, group, k)),
            )) by {
                assert forall|page: int|
                    written_before(group, cached, size, tag.group.to + 1).contains(page)
                        <==> written_before(group, cached, size, tag.group.from).contains(page) by {
                    if tag.group.from <= page <= tag.group.to {
                        assert(cached[page - group.from] == tag.cached);
                    }
                }
            }
        } else {
            lemma_replay_cache(mid, tag.group, source, size);
            assert(end.output =~= state.output + produced(
                source,
                group.start_index(size),
                reached_by(groups, group, size, k),
            ));
            assert(end.disk.dom() =~= state.disk.dom().union(
                written_before(group, cached, size, pages_by(groups, group, k)),
            )) by {
                assert forall|page: int|
                    written_before(group, cached, size, tag.group.to + 1).contains(page) <==> (
                    written_before(group, cached, size, tag.group.from).contains(page)
                        || crate::store::replay::whole_pages(tag.group, size).contains(page)) by {
                    if tag.group.from <= page <= tag.group.to {
                        assert(cached[page - group.from] == tag.cached);
                        assert(tag.group.slice(size, page - tag.group.from) == group.slice(
                            size,
                            page - group.from,
                        ));
                    }
                }
            }
        }
    }
}

/// The pages that lie inside `range` from their first index to their last.
pub open spec fn pages_inside(range: IdxRange, size: int) -> Set<int> {
    Set::new(|page: int| range.start() <= page * size && (page + 1) * size - 1 <= range.end())
}

/// A page lies inside a range exactly when the range's slice of that page is
/// the whole page.
pub proof fn lemma_inside(range: IdxRange, size: int, page: int)
    requires
        range.wf(),
        size > 0,
    ensures
        ({
            let group = PageGroup::covering(range.start(), range.end(), size);
            pages_inside(range, size).contains(page) <==> group.from <= page <= group.to
                && group.slice(size, page - group.from).full(size)
        }),
{
    let group = PageGroup::covering(range.start(), range.end(), size);
    let slices = slices_of(range.start(), range.end(), size);
    assert(slices == group.slices(size));
    lemma_covering(range.start(), range.end(), size);
    lemma_whole_pages(range, size);
    if pages_inside(range, size).contains(page) {
        assert(range.start() <= page * size && (page + 1) * size - 1 <= range.end());
        assert(0 <= page - group.from < slices.len());
    }
    if group.from <= page <= group.to {
        let i = page - group.from;
        assert(slices[i] == group.slice(size, i));
        assert(slices[i].page == page);
        assert(slices[i].full(size) <==> range.start() <= slices[i].page * size && (slices[i].page
            + 1) * size - 1 <= range.end());
        assert(slices[i].page * size == page * size);
        assert((slices[i].page + 1) * size == (page + 1) * size);
    }
}

/// A load without a cache directory: the directory is made; the producer is
/// asked once, for the whole range; what is handed out is exactly what it
/// yields for the range; and the files that appear are those of the pages
/// that lie inside the range, each with the values of its page.
pub proof fn lemma_fresh_load<V>(
    range: IdxRange,
    disk: Map<int, Seq<V>>,
    source: spec_fn(int) -> V,
    size: int,
)
    requires
        range.wf(),
        size > 0,
        faithful(disk, source, size),
    ensures
        ({
            let group = PageGroup::covering(range.start(), range.end(), size);
            let start = Replay { disk, stream: Seq::<V>::empty(), output: Seq::<V>::empty() };
            let end = replay(start, fresh_steps(group, size), source, size);
            &&& fresh_steps(group, size)[0] == StepView::CreateDir
            &&& fresh_steps(group, size)[1] == StepView::Source(range.canonical_form())
            &&& end.output == produced(source, range.start(), range.end())
            &&& faithful(end.disk, source, size)
            &&& end.disk.dom() == disk.dom().union(pages_inside(range, size))
        }),
{
    let group = PageGroup::covering(range.start(), range.end(), size);
    let start = Replay { disk, stream: Seq::<V>::empty(), output: Seq::<V>::empty() };
    let create = seq![StepView::CreateDir];
    assert(replay(start, create, source, size) == start) by {
        assert(create.drop_last() =~= Seq::<StepView>::empty());
        assert(replay(start, create.drop_last(), source, size) == start);
    }
    lemma_replay_concat(start, create, cache_steps(group, size), source, size);
    let end = replay(start, fresh_steps(group, size), source, size);
    lemma_covering(range.start(), range.end(), size);
    lemma_replay_cache(start, group, source, size);
    assert(end.output =~= produced(source, range.start(), range.end()));
    assert(whole_pages(group, size) =~= pages_inside(range, size)) by {
        assert forall|page: int| whole_pages(group, size).contains(page) <==> pages_inside(
            range,
            size,
        ).contains(page) by {
            lemma_inside(range, size, page);
        }
    }
}

/// A load into a directory that exists, where `cached` says of each page of
/// the range whether its file was found, and every file that was found
/// holds what the producer yields for its page: what is handed out is exactly
/// what the producer yields for the range; every file still holds the values
/// of its page; and the files that appear are those of the pages that lie
/// inside the range and were missing.
pub proof fn lemma_mixed_load<V>(
    range: IdxRange,
    cached: Seq<bool>,
    disk: Map<int, Seq<V>>,
    source: spec_fn(int) -> V,
    size: int,
)
    requires
        range.wf(),
        size > 0,
        cached.len() == PageGroup::covering(range.start(), range.end(), size).page_count(),
        faithful(disk, source, size),
        forall|i: int|
            0 <= i < cached.len() && #[trigger] cached[i] ==> disk.dom().contains(
                range.start() / size + i,
            ),
    ensures
        ({
            let group = PageGroup::covering(range.start(), range.end(), size);
            let start = Replay { disk, stream: Seq::<V>::empty(), output: Seq::<V>::empty() };
            let end = replay(start, mixed_steps(group, cached, size), source, size);
            &&& end.output == produced(source, range.start(), range.end())
            &&& faithful(end.disk, source, size)
            &&& end.disk.dom() == disk.dom().union(
                pages_inside(range, size).filter(
                    |page: int| !cached[page - range.start() / size],
                ),
            )
        }),
{
    let group = PageGroup::covering(range.start(), range.end(), size);
    let start = Replay { disk, stream: Seq::<V>::empty(), output: Seq::<V>::empty() };
    let tags = probed(group.slices(size), cached);
    let groups = coalesced(tags, size);
    let end = replay(start, mixed_steps(group, cached, size), source, size);
    lemma_covering(range.start(), range.end(), size);
    lemma_tiles(group, cached, size, group.page_count());
    assert(tags.take(group.page_count()) =~= tags);
    lemma_replay_tiles(start, groups, group, cached, source, size, groups.len() as int);
    assert(groups.take(groups.len() as int) =~= groups);
    let last = groups.last();
    assert(part_of(last, group, cached, size));
    lemma_part_of(last, group, cached, size);
    lemma_slice_inside(group, size, group.page_count() - 1);
    assert(end.output =~= produced(source, range.start(), range.end()));
    lemma_whole_pages(range, size);
    assert(written_before(group, cached, size, group.to + 1) =~= pages_inside(range, size).filter(
        |page: int| !cached[page - range.start() / size],
    )) by {
        assert forall|page: int|
            written_before(group, cached, size, group.to + 1).contains(page) <==> (pages_inside(
                range,
                size,
            ).contains(page) && !cached[page - range.start() / size]) by {
            lemma_inside(range, size, page);
        }
    }
}

/// Idempotence: two loads of one range hand out the same values, whatever of
/// it was on disk at either time, as long as every file that was found holds
/// what the producer yields for its page.
pub proof fn lemma_load_again<V>(
    range: IdxRange,
    first: Seq<bool>,
    second: Seq<bool>,
    disk: Map<int, Seq<V>>,
    later: Map<int, Seq<V>>,
    source: spec_fn(int) -> V,
    size: int,
)
    requires
        range.wf(),
        size > 0,
        first.len() == PageGroup::covering(range.start(), range.end(), size).page_count(),
        second.len() == first.len(),
        faithful(disk, source, size),
        faithful(later, source, size),
        forall|i: int|
            0 <= i < first.len() && #[trigger] first[i] ==> disk.dom().contains(
                range.start() / size + i,
            ),
        forall|i: int|
            0 <= i < second.len() && #[trigger] second[i] ==> later.dom().contains(
                range.start() / size + i,
            ),
    ensures
        ({
            let group = PageGroup::covering(range.start(), range.end(), size);
            let one = Replay { disk, stream: Seq::<V>::empty(), output: Seq::<V>::empty() };
            let two = Replay { disk: later, stream: Seq::<V>::empty(), output: Seq::<V>::empty() };
            replay(one, mixed_steps(group, first, size), source, size).output == replay(
                two,
                mixed_steps(group, second, size),
                source,
                size,
            ).output
        }),
{
    lemma_mixed_load(range, first, disk, source, size);
    lemma_mixed_load(range, second, later, source, size);
}

} // verus!
