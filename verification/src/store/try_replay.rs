use vstd::arithmetic::div_mod::{lemma_div_is_ordered, lemma_div_multiples_vanish_fancy};
use vstd::arithmetic::mul::{lemma_mul_inequality, lemma_mul_is_commutative};
use vstd::prelude::*;

use crate::idx_range::IdxRange;
use crate::pages::{lemma_covering, lemma_group_bounds, lemma_page_and_offset, PageGroup};
use crate::store::replay::{
    lemma_inside, lemma_part_of, lemma_produced_join, lemma_slice_inside, lemma_tiles, pages_by,
    pages_inside, part_of, produced, reached, reached_by, tiles, whole_pages_before,
};
use crate::store::store::{all_steps, group_steps, mixed_steps};
use crate::store::store_pages::{coalesced, probed, SpanTag};
use crate::store::{cache_steps, fresh_steps, load_steps, StepView};

verus! {

/// How many values come before the first error of `items`.
pub open spec fn ok_count<V, E>(items: Seq<Result<V, E>>) -> nat
    decreases items.len(),
{
    if items.len() == 0 || items[0] is Err {
        0
    } else {
        1 + ok_count(items.skip(1))
    }
}

/// The values of `items`, which holds no error.
pub open spec fn unwrapped<V, E>(items: Seq<Result<V, E>>) -> Seq<V> {
    Seq::new(items.len(), |j: int| items[j]->Ok_0)
}

/// The number of values before the first error is the one index up to which
/// everything is a value and at which, if it lies inside, there is an error.
pub proof fn lemma_ok_count<V, E>(items: Seq<Result<V, E>>, k: int)
    requires
        0 <= k <= items.len(),
        forall|j: int| 0 <= j < k ==> (#[trigger] items[j]) is Ok,
        k < items.len() ==> items[k] is Err,
    ensures
        ok_count(items) == k,
    decreases k,
{
    if k > 0 {
        let rest = items.skip(1);
        assert forall|j: int| 0 <= j < k - 1 implies (#[trigger] rest[j]) is Ok by {
            assert(rest[j] == items[j + 1]);
        }
        if k < items.len() {
            assert(rest[k - 1] == items[k]);
        }
        lemma_ok_count(rest, k - 1);
    }
}

/// A request to a producer that may fail, under way: the page files on disk,
/// what the producer has yet to yield of what it was last asked for, what
/// was handed out so far, and whether an error has ended the request.
pub struct TryReplay<V, E> {
    pub disk: Map<int, Seq<V>>,
    pub stream: Seq<Result<V, E>>,
    pub output: Seq<Result<V, E>>,
    pub failed: bool,
}

/// Every page file holds the values that the producer yields for the indices
/// of its page.
pub open spec fn try_faithful<V, E>(
    disk: Map<int, Seq<V>>,
    source: spec_fn(int) -> Result<V, E>,
    size: int,
) -> bool {
    forall|page: int| #[trigger]
        disk.dom().contains(page) ==> disk[page].len() == size && forall|j: int|
            0 <= j < size ==> source(page * size + j) == Ok::<V, E>(#[trigger] disk[page][j])
}

/// The request after one step. Once an error has ended the request, nothing
/// more is done. A `CreateDir` changes none of this. A `Load` hands out the slice's part of the page file. A
/// `Source` asks the producer for a range. A `Cache` takes the slice's items
/// from the producer. If they are all values, it hands them out and writes
/// the page file when the slice is the whole page. Else it hands out the
/// values before the first error and then that error, writes nothing, and
/// ends the request.
pub open spec fn try_after_step<V, E>(
    state: TryReplay<V, E>,
    step: StepView,
    source: spec_fn(int) -> Result<V, E>,
    size: int,
) -> TryReplay<V, E> {
    if state.failed {
        state
    } else {
        match step {
            StepView::CreateDir => state,
            StepView::Load(slice) => TryReplay {
                output: state.output + Seq::new(
                    slice.len() as nat,
                    |j: int| Ok::<V, E>(state.disk[slice.page][slice.first + j]),
                ),
                ..state
            },
            StepView::Source(range) => TryReplay {
                stream: produced(source, range.start(), range.end()),
                ..state
            },
            StepView::Cache(slice) => {
                let items = state.stream.take(slice.len());
                let values = ok_count(items);
                if values == items.len() {
                    TryReplay {
                        disk: if slice.full(size) && items.len() == slice.len() {
                            state.disk.insert(slice.page, unwrapped(items))
                        } else {
                            state.disk
                        },
                        stream: state.stream.skip(slice.len()),
                        output: state.output + items,
                        failed: false,
                    }
                } else {
                    TryReplay {
                        disk: state.disk,
                        stream: state.stream.skip(slice.len()),
                        output: state.output + items.take(values as int + 1),
                        failed: true,
                    }
                }
            },
        }
    }
}

/// The request after the steps of `steps`, one after the other.
pub open spec fn try_replay<V, E>(
    state: TryReplay<V, E>,
    steps: Seq<StepView>,
    source: spec_fn(int) -> Result<V, E>,
    size: int,
) -> TryReplay<V, E>
    decreases steps.len(),
{
    if steps.len() == 0 {
        state
    } else {
        try_after_step(
            try_replay(state, steps.drop_last(), source, size),
            steps.last(),
            source,
            size,
        )
    }
}

/// The pages among the first `j` of `group` of which the group holds the
/// whole and which end before the index `error`.
pub open spec fn whole_pages_until(group: PageGroup, size: int, j: int, error: int) -> Set<int> {
    Set::new(
        |page: int|
            whole_pages_before(group, size, j).contains(page) && (page + 1) * size - 1 < error,
    )
}

proof fn lemma_try_cache_part<V, E>(
    state: TryReplay<V, E>,
    group: PageGroup,
    source: spec_fn(int) -> Result<V, E>,
    size: int,
    error: int,
    j: int,
)
    requires
        size > 0,
        group.valid(size),
        group.end_index(size) <= u128::MAX,
        !state.failed,
        try_faithful(state.disk, source, size),
        group.start_index(size) <= error <= group.end_index(size) + 1,
        forall|i: int| group.start_index(size) <= i < error ==> (#[trigger] source(i)) is Ok,
        error <= group.end_index(size) ==> source(error) is Err,
        0 <= j <= group.page_count(),
    ensures
        ({
            let end = try_replay(state, cache_steps(group, size).take(1 + j), source, size);
            let upto = reached(group, size, j);
            &&& try_faithful(end.disk, source, size)
            &&& end.disk.dom() == state.disk.dom().union(whole_pages_until(group, size, j, error))
            &&& end.failed == (error <= upto)
            &&& !end.failed ==> end.output == state.output + produced(
                source,
                group.start_index(size),
                upto,
            ) && end.stream == produced(source, upto + 1, group.end_index(size))
            &&& end.failed ==> end.output == state.output + produced(
                source,
                group.start_index(size),
                error,
            )
        }),
    decreases j,
{
    let steps = cache_steps(group, size);
    crate::pages::lemma_group_bounds(group, size);
    if j == 0 {
        let range = group.index_range(size);
        assert(steps.take(1).drop_last() =~= Seq::<StepView>::empty());
        assert(steps.take(1).last() == StepView::Source(range));
        assert(try_replay(state, steps.take(1).drop_last(), source, size) == state);
        let end = try_replay(state, steps.take(1), source, size);
        assert(end == try_after_step(state, StepView::Source(range), source, size));
        assert(range.start() == group.start_index(size));
        assert(range.end() == group.end_index(size));
        assert(state.output + produced(source, group.start_index(size), reached(group, size, 0))
            =~= state.output);
        assert(end.disk.dom() =~= state.disk.dom().union(
            whole_pages_until(group, size, 0, error),
        ));
    } else {
        lemma_try_cache_part(state, group, source, size, error, j - 1);
        lemma_slice_inside(group, size, j - 1);
        let slice = group.slice(size, j - 1);
        let from = reached(group, size, j - 1);
        let upto = reached(group, size, j);
        assert(slice.start_index(size) == from + 1);
        assert(slice.end_index(size) == upto);
        assert(steps.take(1 + j).drop_last() =~= steps.take(j));
        assert(steps.take(1 + j).last() == StepView::Cache(slice));
        let before = try_replay(state, steps.take(j), source, size);
        let end = try_replay(state, steps.take(1 + j), source, size);
        assert(end == try_after_step(before, StepView::Cache(slice), source, size));
        assert forall|page: int|
            whole_pages_until(group, size, j, error).contains(page) <==> (whole_pages_until(
                group,
                size,
                j - 1,
                error,
            ).contains(page) || (page == slice.page && slice.full(size) && (page + 1) * size - 1
                < error)) by {}
        assert((slice.page + 1) * size == slice.page * size + size) by (nonlinear_arith);
        if before.failed {
            assert(end == before);
            assert(end.disk.dom() =~= state.disk.dom().union(
                whole_pages_until(group, size, j, error),
            ));
        } else {
            let items = before.stream.take(slice.len());
            assert(items =~= produced(source, from + 1, upto));
            if error <= upto {
                let k = error - (from + 1);
                assert forall|i: int| 0 <= i < k implies (#[trigger] items[i]) is Ok by {
                    assert(source(from + 1 + i) is Ok);
                }
                assert(items[k] == source(error));
                lemma_ok_count(items, k);
                assert(items.take(k + 1) =~= produced(source, from + 1, error));
                crate::store::replay::lemma_produced_join(
                    source,
                    group.start_index(size),
                    from,
                    error,
                );
                assert(end.output =~= state.output + produced(
                    source,
                    group.start_index(size),
                    error,
                ));
                assert(end.disk.dom() =~= state.disk.dom().union(
                    whole_pages_until(group, size, j, error),
                ));
            } else {
                assert forall|i: int| 0 <= i < items.len() implies (#[trigger] items[i]) is Ok by {
                    assert(source(from + 1 + i) is Ok);
                }
                lemma_ok_count(items, items.len() as int);
                assert(before.stream.skip(slice.len()) =~= produced(
                    source,
                    upto + 1,
                    group.end_index(size),
                ));
                crate::store::replay::lemma_produced_join(
                    source,
                    group.start_index(size),
                    from,
                    upto,
                );
                assert(end.output =~= state.output + produced(
                    source,
                    group.start_index(size),
                    upto,
                ));
                if slice.full(size) {
                    let values = unwrapped(items);
                    assert(end.disk == before.disk.insert(slice.page, values));
                    assert forall|i: int| 0 <= i < size implies source(slice.page * size + i)
                        == Ok::<V, E>(#[trigger] values[i]) by {
                        assert(items[i] == source(from + 1 + i));
                        assert(items[i] is Ok);
                    }
                }
                assert(end.disk.dom() =~= state.disk.dom().union(
                    whole_pages_until(group, size, j, error),
                ));
            }
        }
    }
}

/// Doing the steps of `first` and then those of `second` is doing the steps
/// of the two in a row.
pub proof fn lemma_try_replay_concat<V, E>(
    state: TryReplay<V, E>,
    first: Seq<StepView>,
    second: Seq<StepView>,
    source: spec_fn(int) -> Result<V, E>,
    size: int,
)
    ensures
        try_replay(state, first + second, source, size) == try_replay(
            try_replay(state, first, source, size),
            second,
            source,
            size,
        ),
    decreases second.len(),
{
    if second.len() == 0 {
        assert(first + second =~= first);
    } else {
        assert((first + second).drop_last() =~= first + second.drop_last());
        assert((first + second).last() == second.last());
        lemma_try_replay_concat(state, first, second.drop_last(), source, size);
    }
}

/// Making the directory changes nothing of a request: after it, the group is
/// filled as in a directory that was there.
proof fn lemma_try_fresh<V, E>(
    state: TryReplay<V, E>,
    group: PageGroup,
    source: spec_fn(int) -> Result<V, E>,
    size: int,
)
    ensures
        try_replay(state, fresh_steps(group, size), source, size) == try_replay(
            state,
            cache_steps(group, size),
            source,
            size,
        ),
{
    let create = seq![StepView::CreateDir];
    assert(try_replay(state, create, source, size) == state) by {
        assert(create.drop_last() =~= Seq::<StepView>::empty());
        assert(try_replay(state, create.drop_last(), source, size) == state);
    }
    lemma_try_replay_concat(state, create, cache_steps(group, size), source, size);
}

/// Once an error has ended a request, no step changes it.
pub proof fn lemma_try_stays_failed<V, E>(
    state: TryReplay<V, E>,
    steps: Seq<StepView>,
    source: spec_fn(int) -> Result<V, E>,
    size: int,
)
    requires
        state.failed,
    ensures
        try_replay(state, steps, source, size) == state,
    decreases steps.len(),
{
    if steps.len() > 0 {
        lemma_try_stays_failed(state, steps.drop_last(), source, size);
    }
}

proof fn lemma_try_load_part<V, E>(
    state: TryReplay<V, E>,
    group: PageGroup,
    source: spec_fn(int) -> Result<V, E>,
    size: int,
    j: int,
)
    requires
        size > 0,
        group.valid(size),
        !state.failed,
        try_faithful(state.disk, source, size),
        forall|page: int| group.from <= page <= group.to ==> state.disk.dom().contains(page),
        0 <= j <= group.page_count(),
    ensures
        try_replay(state, load_steps(group, size).take(j), source, size) == (TryReplay {
            output: state.output + produced(
                source,
                group.start_index(size),
                reached(group, size, j),
            ),
            ..state
        }),
    decreases j,
{
    let steps = load_steps(group, size);
    lemma_group_bounds(group, size);
    if j == 0 {
        assert(steps.take(0) =~= Seq::<StepView>::empty());
        assert(state.output + produced(source, group.start_index(size), reached(group, size, 0))
            =~= state.output);
    } else {
        lemma_try_load_part(state, group, source, size, j - 1);
        lemma_slice_inside(group, size, j - 1);
        if j > 1 {
            lemma_slice_inside(group, size, j - 2);
        }
        let slice = group.slice(size, j - 1);
        assert(steps.take(j).drop_last() =~= steps.take(j - 1));
        assert(steps.take(j).last() == StepView::Load(slice));
        let before = try_replay(state, steps.take(j - 1), source, size);
        let file = state.disk[slice.page];
        assert(state.disk.dom().contains(slice.page));
        let read = Seq::new(slice.len() as nat, |i: int| Ok::<V, E>(file[slice.first + i]));
        assert(read =~= produced(source, slice.start_index(size), slice.end_index(size))) by {
            assert forall|i: int| 0 <= i < slice.len() implies read[i] == source(
                slice.start_index(size) + i,
            ) by {
                assert(source(slice.page * size + (slice.first + i)) == Ok::<V, E>(
                    file[slice.first + i],
                ));
            }
        }
        lemma_produced_join(
            source,
            group.start_index(size),
            reached(group, size, j - 1),
            reached(group, size, j),
        );
        assert(before.output + read =~= state.output + produced(
            source,
            group.start_index(size),
            reached(group, size, j),
        ));
    }
}

/// Reading a group that is on disk hands out what the producer yields for
/// the group's indices, all of them values, and changes nothing else.
pub proof fn lemma_try_load<V, E>(
    state: TryReplay<V, E>,
    group: PageGroup,
    source: spec_fn(int) -> Result<V, E>,
    size: int,
)
    requires
        size > 0,
        group.valid(size),
        !state.failed,
        try_faithful(state.disk, source, size),
        forall|page: int| group.from <= page <= group.to ==> state.disk.dom().contains(page),
    ensures
        try_replay(state, load_steps(group, size), source, size) == (TryReplay {
            output: state.output + produced(
                source,
                group.start_index(size),
                group.end_index(size),
            ),
            ..state
        }),
{
    lemma_try_load_part(state, group, source, size, group.page_count());
    lemma_slice_inside(group, size, group.page_count() - 1);
    assert(load_steps(group, size).take(group.page_count()) =~= load_steps(group, size));
}

/// An index of a valid group lies on a page of the group.
proof fn lemma_index_page(group: PageGroup, size: int, index: int)
    requires
        size > 0,
        group.valid(size),
        group.start_index(size) <= index <= group.end_index(size),
    ensures
        group.from <= index / size <= group.to,
        0 <= index % size < size,
        (index / size) * size + index % size == index,
{
    lemma_group_bounds(group, size);
    lemma_page_and_offset(index, size);
    assert(0 <= group.from * size) by (nonlinear_arith)
        requires
            0 <= group.from,
            0 < size,
    ;
    lemma_div_is_ordered(group.from * size, index, size);
    lemma_div_multiples_vanish_fancy(group.from, 0, size);
    lemma_mul_is_commutative(group.from, size);
    lemma_div_is_ordered(index, group.end_index(size), size);
    lemma_div_multiples_vanish_fancy(group.to, group.last, size);
    lemma_mul_is_commutative(group.to, size);
}

/// A page of a valid group ends no earlier than the group begins, and a page
/// of which the group holds the whole ends no later than the group does.
proof fn lemma_page_span(group: PageGroup, size: int, page: int)
    requires
        size > 0,
        group.valid(size),
        group.from <= page <= group.to,
    ensures
        (page + 1) * size - 1 >= group.start_index(size),
        group.slice(size, page - group.from).full(size) ==> (page + 1) * size - 1
            <= group.end_index(size),
{
    lemma_mul_inequality(group.from, page, size);
    assert((page + 1) * size == page * size + size) by (nonlinear_arith);
    lemma_slice_inside(group, size, page - group.from);
}

/// The pages of `group` before the page `bound` that were missing, of which
/// `group` holds the whole, and which end before the index `error`.
pub open spec fn try_written_before(
    group: PageGroup,
    cached: Seq<bool>,
    size: int,
    bound: int,
    error: int,
) -> Set<int> {
    Set::new(
        |page: int|
            group.from <= page < bound && !cached[page - group.from] && group.slice(
                size,
                page - group.from,
            ).full(size) && (page + 1) * size - 1 < error,
    )
}

proof fn lemma_try_tiles<V, E>(
    state: TryReplay<V, E>,
    groups: Seq<SpanTag>,
    group: PageGroup,
    cached: Seq<bool>,
    source: spec_fn(int) -> Result<V, E>,
    size: int,
    error: int,
    k: int,
)
    requires
        size > 0,
        group.valid(size),
        group.end_index(size) <= u128::MAX,
        cached.len() == group.page_count(),
        tiles(groups, group, cached, group.page_count(), size),
        !state.failed,
        try_faithful(state.disk, source, size),
        forall|i: int|
            0 <= i < cached.len() && #[trigger] cached[i] ==> state.disk.dom().contains(
                group.from + i,
            ),
        group.start_index(size) <= error <= group.end_index(size) + 1,
        forall|i: int| group.start_index(size) <= i < error ==> (#[trigger] source(i)) is Ok,
        error <= group.end_index(size) ==> source(error) is Err,
        0 <= k <= groups.len(),
    ensures
        ({
            let end = try_replay(state, all_steps(groups.take(k), size), source, size);
            let upto = reached_by(groups, group, size, k);
            &&& try_faithful(end.disk, source, size)
            &&& end.failed == (error <= upto)
            &&& end.disk.dom() == state.disk.dom().union(
                try_written_before(group, cached, size, pages_by(groups, group, k), error),
            )
            &&& !end.failed ==> end.output == state.output + produced(
                source,
                group.start_index(size),
                upto,
            )
            &&& end.failed ==> end.output == state.output + produced(
                source,
                group.start_index(size),
                error,
            )
            &&& group.start_index(size) - 1 <= upto
        }),
    decreases k,
{
    lemma_group_bounds(group, size);
    if k == 0 {
        assert(groups.take(0) =~= Seq::<SpanTag>::empty());
        assert(state.output + produced(
            source,
            group.start_index(size),
            reached_by(groups, group, size, 0),
        ) =~= state.output);
        assert(state.disk.dom() =~= state.disk.dom().union(
            try_written_before(group, cached, size, group.from, error),
        ));
    } else {
        lemma_try_tiles(state, groups, group, cached, source, size, error, k - 1);
        let tag = groups[k - 1];
        assert(groups.take(k).drop_last() =~= groups.take(k - 1));
        assert(groups.take(k).last() == tag);
        let done = all_steps(groups.take(k - 1), size);
        assert(all_steps(groups.take(k), size) == done + group_steps(tag, size));
        lemma_try_replay_concat(state, done, group_steps(tag, size), source, size);
        let mid = try_replay(state, done, source, size);
        let end = try_replay(state, all_steps(groups.take(k), size), source, size);
        assert(end == try_replay(mid, group_steps(tag, size), source, size));
        assert(part_of(tag, group, cached, size));
        lemma_part_of(tag, group, cached, size);
        lemma_group_bounds(tag.group, size);
        let from = reached_by(groups, group, size, k - 1);
        let upto = reached_by(groups, group, size, k);
        assert(tag.group.start_index(size) == from + 1) by {
            if k - 1 == 0 {
            } else {
                let prev = groups[k - 2];
                assert(part_of(prev, group, cached, size));
                assert(prev.group.to + 1 == tag.group.from);
                assert((prev.group.to + 1) * size == prev.group.to * size + size)
                    by (nonlinear_arith);
            }
        }
        assert(pages_by(groups, group, k - 1) == tag.group.from);
        if mid.failed {
            lemma_try_stays_failed(mid, group_steps(tag, size), source, size);
            assert(end.disk.dom() =~= state.disk.dom().union(
                try_written_before(group, cached, size, tag.group.to + 1, error),
            )) by {
                assert forall|page: int|
                    try_written_before(group, cached, size, tag.group.to + 1, error).contains(page)
                        <==> try_written_before(group, cached, size, tag.group.from, error).contains(
                        page,
                    ) by {
                    if tag.group.from <= page <= tag.group.to {
                        lemma_page_span(tag.group, size, page);
                    }
                }
            }
        } else if tag.cached {
            assert forall|page: int| tag.group.from <= page <= tag.group.to implies mid.disk.dom().contains(
                page,
            ) by {
                assert(cached[page - group.from] == tag.cached);
                assert(state.disk.dom().contains(group.from + (page - group.from)));
            }
            lemma_try_load(mid, tag.group, source, size);
            // no error lies on a page that is on disk
            if error <= upto {
                lemma_index_page(tag.group, size, error);
                let page = error / size;
                assert(mid.disk.dom().contains(page));
                assert(source(page * size + error % size) == Ok::<V, E>(
                    mid.disk[page][error % size],
                ));
                assert(false);
            }
            lemma_produced_join(source, group.start_index(size), from, upto);
            assert(end.output =~= state.output + produced(source, group.start_index(size), upto));
            assert(end.disk.dom() =~= state.disk.dom().union(
                try_written_before(group, cached, size, tag.group.to + 1, error),
            )) by {
                assert forall|page: int|
                    try_written_before(group, cached, size, tag.group.to + 1, error).contains(page)
                        <==> try_written_before(group, cached, size, tag.group.from, error).contains(
                        page,
                    ) by {
                    if tag.group.from <= page <= tag.group.to {
                        assert(cached[page - group.from] == tag.cached);
                        lemma_page_span(tag.group, size, page);
                    }
                }
            }
        } else {
            let stop = if error <= upto {
                error
            } else {
                upto + 1
            };
            lemma_try_cache_part(
                mid,
                tag.group,
                source,
                size,
                stop,
                tag.group.page_count(),
            );
            lemma_slice_inside(tag.group, size, tag.group.page_count() - 1);
            assert(cache_steps(tag.group, size).take(1 + tag.group.page_count()) =~= cache_steps(
                tag.group,
                size,
            ));
            if error <= upto {
                lemma_produced_join(source, group.start_index(size), from, error);
                assert(end.output =~= state.output + produced(
                    source,
                    group.start_index(size),
                    error,
                ));
            } else {
                lemma_produced_join(source, group.start_index(size), from, upto);
                assert(end.output =~= state.output + produced(
                    source,
                    group.start_index(size),
                    upto,
                ));
            }
            assert(end.disk.dom() =~= state.disk.dom().union(
                try_written_before(group, cached, size, tag.group.to + 1, error),
            )) by {
                assert forall|page: int|
                    try_written_before(group, cached, size, tag.group.to + 1, error).contains(page)
                        <==> (try_written_before(
                        group,
                        cached,
                        size,
                        tag.group.from,
                        error,
                    ).contains(page) || whole_pages_until(
                        tag.group,
                        size,
                        tag.group.page_count(),
                        stop,
                    ).contains(page)) by {
                    if tag.group.from <= page <= tag.group.to {
                        assert(cached[page - group.from] == tag.cached);
                        assert(tag.group.slice(size, page - tag.group.from) == group.slice(
                            size,
                            page - group.from,
                        ));
                        lemma_page_span(tag.group, size, page);
                    }
                }
            }
        }
    }
}

/// Error pass-through: a request goes to a directory that exists, where
/// `cached` says of each page of the range whether its file was found, and
/// every file that was found holds what the producer yields for its page.
/// When the producer's first error in the range is at the index `error`,
/// what is handed out is what the producer yields from the start of the range
/// up to and including that error, so that the error stands at its index's
/// place; the request ends there; and the files that appear are those of the
/// pages inside the range that were missing and end before `error`. No file
/// appears for the page that holds the index of the error.
pub proof fn lemma_error_passes<V, E>(
    range: IdxRange,
    cached: Seq<bool>,
    disk: Map<int, Seq<V>>,
    source: spec_fn(int) -> Result<V, E>,
    size: int,
    error: int,
)
    requires
        range.wf(),
        size > 0,
        cached.len() == PageGroup::covering(range.start(), range.end(), size).page_count(),
        try_faithful(disk, source, size),
        forall|i: int|
            0 <= i < cached.len() && #[trigger] cached[i] ==> disk.dom().contains(
                range.start() / size + i,
            ),
        range.start() <= error <= range.end(),
        forall|i: int| range.start() <= i < error ==> (#[trigger] source(i)) is Ok,
        source(error) is Err,
    ensures
        ({
            let group = PageGroup::covering(range.start(), range.end(), size);
            let start = TryReplay {
                disk,
                stream: Seq::<Result<V, E>>::empty(),
                output: Seq::<Result<V, E>>::empty(),
                failed: false,
            };
            let end = try_replay(start, mixed_steps(group, cached, size), source, size);
            &&& end.failed
            &&& end.output == produced(source, range.start(), error)
            &&& end.output.len() == error - range.start() + 1
            &&& end.output.last() == source(error)
            &&& try_faithful(end.disk, source, size)
            &&& end.disk.dom() == disk.dom().union(
                pages_inside(range, size).filter(
                    |page: int|
                        !cached[page - range.start() / size] && (page + 1) * size - 1 < error,
                ),
            )
            &&& !end.disk.dom().contains(error / size)
        }),
{
    let group = PageGroup::covering(range.start(), range.end(), size);
    let start = TryReplay {
        disk,
        stream: Seq::<Result<V, E>>::empty(),
        output: Seq::<Result<V, E>>::empty(),
        failed: false,
    };
    let tags = probed(group.slices(size), cached);
    let groups = coalesced(tags, size);
    let end = try_replay(start, mixed_steps(group, cached, size), source, size);
    lemma_covering(range.start(), range.end(), size);
    lemma_tiles(group, cached, size, group.page_count());
    assert(tags.take(group.page_count()) =~= tags);
    lemma_try_tiles(start, groups, group, cached, source, size, error, groups.len() as int);
    assert(groups.take(groups.len() as int) =~= groups);
    let last = groups.last();
    assert(part_of(last, group, cached, size));
    lemma_part_of(last, group, cached, size);
    lemma_slice_inside(group, size, group.page_count() - 1);
    assert(end.output =~= produced(source, range.start(), error));
    assert(try_written_before(group, cached, size, group.to + 1, error) =~= pages_inside(
        range,
        size,
    ).filter(|page: int| !cached[page - range.start() / size] && (page + 1) * size - 1 < error))
        by {
        assert forall|page: int|
            try_written_before(group, cached, size, group.to + 1, error).contains(page) <==> (
            pages_inside(range, size).contains(page) && !cached[page - range.start() / size] && (
            page + 1) * size - 1 < error) by {
            lemma_inside(range, size, page);
        }
    }
    // the page of the error was not on disk, and it does not end before the error
    lemma_page_and_offset(error, size);
    let page = error / size;
    assert((page + 1) * size == page * size + size) by (nonlinear_arith);
    if disk.dom().contains(page) {
        assert(source(page * size + error % size) == Ok::<V, E>(disk[page][error % size]));
        assert(false);
    }
}

/// Error pass-through: when a range is filled from a producer whose first
/// error in the range is at the index `error`, what is handed out is what
/// the producer yields from the start of the range up to and including that
/// error, so that the error stands at its index's place; the request ends
/// there; and of the pages that lie inside the range, only those that end
/// before `error` get a file. No file appears for the page that holds the
/// index of the error.
pub proof fn lemma_error_passes_fresh<V, E>(
    range: IdxRange,
    disk: Map<int, Seq<V>>,
    source: spec_fn(int) -> Result<V, E>,
    size: int,
    error: int,
)
    requires
        range.wf(),
        size > 0,
        try_faithful(disk, source, size),
        range.start() <= error <= range.end(),
        forall|i: int| range.start() <= i < error ==> (#[trigger] source(i)) is Ok,
        source(error) is Err,
    ensures
        ({
            let group = PageGroup::covering(range.start(), range.end(), size);
            let start = TryReplay {
                disk,
                stream: Seq::<Result<V, E>>::empty(),
                output: Seq::<Result<V, E>>::empty(),
                failed: false,
            };
            let end = try_replay(start, fresh_steps(group, size), source, size);
            &&& end.failed
            &&& end.output == produced(source, range.start(), error)
            &&& end.output.len() == error - range.start() + 1
            &&& end.output.last() == source(error)
            &&& try_faithful(end.disk, source, size)
            &&& end.disk.dom() == disk.dom().union(
                pages_inside(range, size).filter(|page: int| (page + 1) * size - 1 < error),
            )
            &&& !disk.dom().contains(error / size) ==> !end.disk.dom().contains(error / size)
        }),
{
    let group = PageGroup::covering(range.start(), range.end(), size);
    let start = TryReplay {
        disk,
        stream: Seq::<Result<V, E>>::empty(),
        output: Seq::<Result<V, E>>::empty(),
        failed: false,
    };
    lemma_try_fresh(start, group, source, size);
    let end = try_replay(start, fresh_steps(group, size), source, size);
    lemma_covering(range.start(), range.end(), size);
    lemma_try_cache_part(start, group, source, size, error, group.page_count());
    lemma_slice_inside(group, size, group.page_count() - 1);
    assert(cache_steps(group, size).take(1 + group.page_count()) =~= cache_steps(group, size));
    assert(end.output =~= produced(source, range.start(), error));
    assert(end.disk.dom() =~= disk.dom().union(
        pages_inside(range, size).filter(|page: int| (page + 1) * size - 1 < error),
    )) by {
        assert forall|page: int|
            whole_pages_until(group, size, group.page_count(), error).contains(page) <==> (
            pages_inside(range, size).contains(page) && (page + 1) * size - 1 < error) by {
            crate::store::replay::lemma_inside(range, size, page);
        }
    }
    crate::pages::lemma_page_and_offset(error, size);
    let page = error / size;
    assert((page + 1) * size == page * size + size) by (nonlinear_arith);
}

/// Without an error in the range, a producer that may fail fills a range as
/// one that cannot: everything it yields for the range is handed out, and the
/// pages that lie inside the range get their files.
pub proof fn lemma_no_error<V, E>(
    range: IdxRange,
    disk: Map<int, Seq<V>>,
    source: spec_fn(int) -> Result<V, E>,
    size: int,
)
    requires
        range.wf(),
        size > 0,
        try_faithful(disk, source, size),
        forall|i: int| range.start() <= i <= range.end() ==> (#[trigger] source(i)) is Ok,
    ensures
        ({
            let group = PageGroup::covering(range.start(), range.end(), size);
            let start = TryReplay {
                disk,
                stream: Seq::<Result<V, E>>::empty(),
                output: Seq::<Result<V, E>>::empty(),
                failed: false,
            };
            let end = try_replay(start, fresh_steps(group, size), source, size);
            &&& !end.failed
            &&& end.output == produced(source, range.start(), range.end())
            &&& try_faithful(end.disk, source, size)
            &&& end.disk.dom() == disk.dom().union(pages_inside(range, size))
        }),
{
    let group = PageGroup::covering(range.start(), range.end(), size);
    let start = TryReplay {
        disk,
        stream: Seq::<Result<V, E>>::empty(),
        output: Seq::<Result<V, E>>::empty(),
        failed: false,
    };
    lemma_try_fresh(start, group, source, size);
    let end = try_replay(start, fresh_steps(group, size), source, size);
    let error = range.end() + 1;
    lemma_covering(range.start(), range.end(), size);
    lemma_try_cache_part(start, group, source, size, error, group.page_count());
    lemma_slice_inside(group, size, group.page_count() - 1);
    assert(cache_steps(group, size).take(1 + group.page_count()) =~= cache_steps(group, size));
    assert(end.output =~= produced(source, range.start(), range.end()));
    assert(end.disk.dom() =~= disk.dom().union(pages_inside(range, size))) by {
        assert forall|page: int|
            whole_pages_until(group, size, group.page_count(), error).contains(page)
                <==> pages_inside(range, size).contains(page) by {
            crate::store::replay::lemma_inside(range, size, page);
        }
    }
}

} // verus!
