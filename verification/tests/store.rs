use std::ops::RangeInclusive;

use cachalot::pages::{PageRange, PagesRange};
use cachalot::{
    accumulate, cache_pages, load, load_or_cache, load_page, load_pages, route,
    store_pages_range, try_collect, Action, Idx, IdxRange, Loader, PageRead, PartialAccumulator,
    Route, Step, StoreError, StorePages,
};

fn group<const P: u128>(cached: bool, from: u128, to: u128) -> StorePages<P> {
    let range = IdxRange::new(from, (to - from + 1) as usize).unwrap();
    StorePages {
        cached,
        pages: PagesRange::<P>::from(&range),
    }
}

fn described<const P: u128>(groups: &[StorePages<P>]) -> Vec<(bool, IdxRange)> {
    groups
        .iter()
        .map(|g| (g.cached, IdxRange::from(g.pages)))
        .collect()
}

#[test]
fn neighbours_with_one_answer_become_one_group() {
    let pages = PagesRange::<1024>::from(&IdxRange::Many(512, 4095));
    let groups = store_pages_range(&pages, &vec![true, true, false, false]);

    assert_eq!(
        described(&groups),
        vec![
            (true, IdxRange::Many(512, 2047)),
            (false, IdxRange::Many(2048, 4095)),
        ]
    );
}

#[test]
fn groups_are_as_long_as_they_can_be() {
    let pages = PagesRange::<4>::from(&IdxRange::Many(2, 29));
    let found = vec![false, false, true, false, true, true, true, false];
    let groups = store_pages_range(&pages, &found);

    assert_eq!(
        described(&groups),
        vec![
            (false, IdxRange::Many(2, 7)),
            (true, IdxRange::Many(8, 11)),
            (false, IdxRange::Many(12, 15)),
            (true, IdxRange::Many(16, 27)),
            (false, IdxRange::Many(28, 29)),
        ]
    );
}

#[test]
fn one_slice_makes_one_group() {
    let pages = PagesRange::<4>::from(&IdxRange::One(9));
    assert_eq!(
        described(&store_pages_range(&pages, &vec![true])),
        vec![(true, IdxRange::One(9))]
    );
    assert_eq!(
        described(&store_pages_range(&pages, &vec![false])),
        vec![(false, IdxRange::One(9))]
    );
}

#[test]
fn accumulate_joins_only_what_continues() {
    let tags = vec![
        group::<4>(true, 0, 3),
        group::<4>(true, 4, 5),
        group::<4>(true, 6, 7),
        group::<4>(true, 12, 15),
        group::<4>(false, 16, 19),
        group::<4>(false, 20, 20),
    ];
    let groups = accumulate(&tags);

    assert_eq!(
        described(&groups),
        vec![
            (true, IdxRange::Many(0, 7)),
            (true, IdxRange::Many(12, 15)),
            (false, IdxRange::Many(16, 20)),
        ]
    );
    assert!(accumulate::<4>(&Vec::new()).is_empty());
}

#[test]
fn maybe_accumulate_from_takes_the_same_answer_only() {
    let mut a = group::<4>(true, 0, 3);
    assert!(!a.maybe_accumulate_from(&group::<4>(false, 4, 7)));
    assert_eq!(IdxRange::from(a.pages), IdxRange::Many(0, 3));

    assert!(a.maybe_accumulate_from(&group::<4>(true, 4, 7)));
    assert_eq!(IdxRange::from(a.pages), IdxRange::Many(0, 7));

    assert!(!a.maybe_accumulate_from(&group::<4>(true, 12, 15)));
    assert_eq!(IdxRange::from(a.pages), IdxRange::Many(0, 7));
}

#[test]
fn accumulator_hands_out_a_group_when_the_next_begins() {
    let mut acc = PartialAccumulator::<4>::new();
    assert!(acc.push(group::<4>(true, 0, 3)).is_none());
    assert!(acc.push(group::<4>(true, 4, 7)).is_none());

    let flushed = acc.push(group::<4>(false, 8, 11)).unwrap();
    assert_eq!(described(&[flushed]), vec![(true, IdxRange::Many(0, 7))]);

    let last = acc.finish().unwrap();
    assert_eq!(described(&[last]), vec![(false, IdxRange::Many(8, 11))]);
    assert!(acc.finish().is_none());
}

#[test]
fn steps_of_a_fresh_directory() {
    let steps = load::<1024>(&IdxRange::Many(512, 4095), None);

    assert_eq!(
        steps,
        vec![
            Step::CreateDir,
            Step::Source(IdxRange::Many(512, 4095)),
            Step::Cache(PageRange::new(0, 512, 1023)),
            Step::Cache(PageRange::new(1, 0, 1023)),
            Step::Cache(PageRange::new(2, 0, 1023)),
            Step::Cache(PageRange::new(3, 0, 1023)),
        ]
    );
}

#[test]
fn steps_of_a_directory_with_some_pages() {
    let found = vec![true, true, false, false];
    let steps = load::<1024>(&IdxRange::Many(512, 4095), Some(&found));

    assert_eq!(
        steps,
        vec![
            Step::Load(PageRange::new(0, 512, 1023)),
            Step::Load(PageRange::new(1, 0, 1023)),
            Step::Source(IdxRange::Many(2048, 4095)),
            Step::Cache(PageRange::new(2, 0, 1023)),
            Step::Cache(PageRange::new(3, 0, 1023)),
        ]
    );
}

#[test]
fn the_producer_is_asked_once_for_each_missing_run() {
    let pages = PagesRange::<4>::from(&IdxRange::Many(1, 22));
    let found = vec![false, true, false, false, true, false];
    let steps = load_or_cache(&pages, &found);

    assert_eq!(
        steps,
        vec![
            Step::Source(IdxRange::Many(1, 3)),
            Step::Cache(PageRange::new(0, 1, 3)),
            Step::Load(PageRange::new(1, 0, 3)),
            Step::Source(IdxRange::Many(8, 15)),
            Step::Cache(PageRange::new(2, 0, 3)),
            Step::Cache(PageRange::new(3, 0, 3)),
            Step::Load(PageRange::new(4, 0, 3)),
            Step::Source(IdxRange::Many(20, 22)),
            Step::Cache(PageRange::new(5, 0, 2)),
        ]
    );
}

#[test]
fn steps_for_a_single_index() {
    assert_eq!(
        load::<4>(&IdxRange::One(6), None),
        vec![
            Step::CreateDir,
            Step::Source(IdxRange::One(6)),
            Step::Cache(PageRange::new(1, 2, 2)),
        ]
    );
    assert_eq!(
        load::<4>(&IdxRange::One(6), Some(&vec![true])),
        vec![Step::Load(PageRange::new(1, 2, 2))]
    );
}

#[test]
fn load_pages_reads_every_slice() {
    let pages = PagesRange::<4>::from(&IdxRange::Many(2, 9));
    assert_eq!(
        load_pages(&pages),
        vec![
            Step::Load(PageRange::new(0, 2, 3)),
            Step::Load(PageRange::new(1, 0, 3)),
            Step::Load(PageRange::new(2, 0, 1)),
        ]
    );
}

#[test]
fn cache_pages_asks_for_the_range_of_the_group() {
    let pages = PagesRange::<4>::from(&IdxRange::Many(2, 9));
    assert_eq!(
        cache_pages(&pages),
        vec![
            Step::Source(IdxRange::Many(2, 9)),
            Step::Cache(PageRange::new(0, 2, 3)),
            Step::Cache(PageRange::new(1, 0, 3)),
            Step::Cache(PageRange::new(2, 0, 1)),
        ]
    );
}

#[test]
fn steps_of_one_group_come_one_by_one() {
    let missing = group::<4>(false, 4, 9);
    let mut steps = missing.steps();
    assert_eq!(steps.next(), Some(Step::Source(IdxRange::Many(4, 9))));
    assert_eq!(steps.next(), Some(Step::Cache(PageRange::new(1, 0, 3))));
    assert_eq!(steps.next(), Some(Step::Cache(PageRange::new(2, 0, 1))));
    assert_eq!(steps.next(), None);
    assert_eq!(steps.next(), None);

    let found = group::<4>(true, 4, 9);
    let mut steps = found.steps();
    assert_eq!(steps.next(), Some(Step::Load(PageRange::new(1, 0, 3))));
    assert_eq!(steps.next(), Some(Step::Load(PageRange::new(2, 0, 1))));
    assert_eq!(steps.next(), None);
}

#[test]
fn read_begins_at_first_times_value_size() {
    let page = PageRange::<1024>::new(3, 512, 1023);
    let read = load_page(String::from("dir/3"), &page, 16);

    assert_eq!(
        read,
        PageRead {
            path: String::from("dir/3"),
            offset: 8192,
            len: 512,
            byte_len: 8192,
        }
    );

    let whole = PageRange::<1024>::new(0, 0, 1023);
    let read = load_page(String::from("dir/0"), &whole, 8);
    assert_eq!(read.offset, 0);
    assert_eq!(read.len, 1024);
    assert_eq!(read.byte_len, 8192);

    let tail = PageRange::<1024>::new(5, 1000, 1002);
    let read = load_page(String::from("dir/5"), &tail, 4);
    assert_eq!((read.offset, read.len, read.byte_len), (4000, 3, 12));
}

#[test]
fn a_range_that_holds_indices_goes_through_the_cache() {
    let range: RangeInclusive<Idx> = 10..=20;
    assert!(matches!(
        route(range),
        Route::Cached(IdxRange::Many(10, 20))
    ));

    let single: RangeInclusive<Idx> = 5..=5;
    assert!(matches!(route(single), Route::Cached(IdxRange::One(5))));
}

#[test]
fn a_range_that_holds_nothing_is_handed_back_unchanged() {
    let reversed: RangeInclusive<Idx> = 10..=0;
    match route(reversed) {
        Route::Bypass(range) => assert_eq!(range, 10..=0),
        Route::Cached(_) => panic!("a reversed range holds no index"),
    }
}

#[test]
fn try_collect_stops_at_the_first_error() {
    let items: Vec<Result<u32, &str>> = vec![Ok(0), Ok(1), Err("E"), Ok(3), Err("F")];
    let (values, error) = try_collect(items);

    assert_eq!(values, vec![0, 1]);
    assert!(matches!(error, Some(StoreError::External("E"))));
}

#[test]
fn try_collect_without_an_error() {
    let items: Vec<Result<u32, &str>> = vec![Ok(4), Ok(5), Ok(6)];
    let (values, error) = try_collect(items);

    assert_eq!(values, vec![4, 5, 6]);
    assert!(error.is_none());

    let (values, error) = try_collect(Vec::<Result<u32, &str>>::new());
    assert!(values.is_empty());
    assert!(error.is_none());
}

#[test]
fn try_collect_with_an_error_first() {
    let items: Vec<Result<u32, &str>> = vec![Err("E"), Ok(1)];
    let (values, error) = try_collect(items);

    assert!(values.is_empty());
    assert!(matches!(error, Some(StoreError::External("E"))));
}

fn drive<const P: u128>(range: &IdxRange, found: Option<&Vec<bool>>) -> (Vec<Step<P>>, Vec<u128>) {
    let mut loader = Loader::<P>::new(range, found.is_some());
    let mut steps = Vec::new();
    let mut asked = Vec::new();
    loop {
        assert!(!loader.awaiting());
        match loader.next() {
            Action::Probe(page) => {
                assert!(loader.awaiting());
                let cached = found.unwrap()[asked.len()];
                asked.push(page.page());
                loader.answer(cached);
            }
            Action::Do(step) => steps.push(step),
            Action::Done => break,
        }
    }
    assert_eq!(loader.next(), Action::Done);
    (steps, asked)
}

#[test]
fn the_loader_hands_out_the_steps_of_the_request() {
    let range = IdxRange::Many(512, 4095);

    let (steps, asked) = drive::<1024>(&range, None);
    assert_eq!(steps, load::<1024>(&range, None));
    assert!(asked.is_empty());

    let found = vec![true, true, false, false];
    let (steps, asked) = drive::<1024>(&range, Some(&found));
    assert_eq!(steps, load::<1024>(&range, Some(&found)));
    assert_eq!(asked, vec![0, 1, 2, 3]);
}

#[test]
fn the_loader_agrees_with_the_plan_for_every_answer() {
    let range = IdxRange::Many(3, 22);
    for answers in 0u32..64 {
        let found: Vec<bool> = (0..6).map(|page| answers & (1 << page) != 0).collect();
        let (steps, asked) = drive::<4>(&range, Some(&found));

        assert_eq!(steps, load::<4>(&range, Some(&found)));
        assert_eq!(asked, vec![0, 1, 2, 3, 4, 5]);
    }
}

#[test]
fn the_loader_hands_out_a_group_before_it_asks_further() {
    let range = IdxRange::Many(0, 11);
    let mut loader = Loader::<4>::new(&range, true);

    assert_eq!(loader.next(), Action::Probe(PageRange::new(0, 0, 3)));
    loader.answer(true);
    assert_eq!(loader.next(), Action::Probe(PageRange::new(1, 0, 3)));
    loader.answer(false);
    assert_eq!(loader.next(), Action::Do(Step::Load(PageRange::new(0, 0, 3))));
    assert_eq!(loader.next(), Action::Probe(PageRange::new(2, 0, 3)));
    loader.answer(false);
    assert_eq!(loader.next(), Action::Do(Step::Source(IdxRange::Many(4, 11))));
    assert_eq!(loader.next(), Action::Do(Step::Cache(PageRange::new(1, 0, 3))));
    assert_eq!(loader.next(), Action::Do(Step::Cache(PageRange::new(2, 0, 3))));
    assert_eq!(loader.next(), Action::Done);
}
