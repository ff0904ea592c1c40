use cachalot::pages::{PageRange, PagesRange};
use cachalot::{Idx, IdxRange};

#[test]
fn test_pages_range_into_idx_range() {
    let range = IdxRange::new(10, 5).unwrap();
    let pages = PagesRange::<2>::from(&range);
    assert_eq!(range, pages.into())
}

#[test]
fn test_one_page() {
    let r: IdxRange = (10..=10 as Idx).try_into().unwrap();
    let mut pages = r.pages::<5>();
    assert_eq!(pages.next(), Some(PageRange::new(2, 0, 0)));
    assert_eq!(pages.next(), None);

    let r: IdxRange = (16..=17 as Idx).try_into().unwrap();
    let mut pages = r.pages::<3>();
    assert_eq!(pages.next(), Some(PageRange::new(5, 1, 2)));
    assert_eq!(pages.next(), None);
}

#[test]
fn test_two_page() {
    let r: IdxRange = (10..=15 as Idx).try_into().unwrap();
    let mut pages = r.pages::<5>();
    assert_eq!(pages.next(), Some(PageRange::new(2, 0, 4)));
    assert_eq!(pages.next(), Some(PageRange::new(3, 0, 0)));
    assert_eq!(pages.next(), None);

    let r: IdxRange = (17..=18 as Idx).try_into().unwrap();
    let mut pages = r.pages::<3>();
    assert_eq!(pages.next(), Some(PageRange::new(5, 2, 2)));
    assert_eq!(pages.next(), Some(PageRange::new(6, 0, 0)));
    assert_eq!(pages.next(), None);
}

#[test]
fn test_three_page() {
    let r: IdxRange = (14..=22 as Idx).try_into().unwrap();
    let mut pages = r.pages::<5>();
    assert_eq!(pages.next(), Some(PageRange::new(2, 4, 4)));
    assert_eq!(pages.next(), Some(PageRange::new(3, 0, 4)));
    assert_eq!(pages.next(), Some(PageRange::new(4, 0, 2)));
    assert_eq!(pages.next(), None);
}

#[test]
fn slices_cover_the_range() {
    for (a, b, size) in [(0u128, 0u128, 1u128), (10, 14, 2), (3, 40, 7), (512, 4095, 1024)] {
        let range = IdxRange::new(a, (b - a + 1) as usize).unwrap();
        let mut pages = match size {
            1 => collect(range.pages::<1>()),
            2 => collect(range.pages::<2>()),
            7 => collect(range.pages::<7>()),
            _ => collect(range.pages::<1024>()),
        };

        let total: usize = pages.iter().map(|(_, first, last)| (last - first + 1) as usize).sum();
        assert_eq!(total as u128, range.len());

        let (page, first, _) = pages[0];
        assert_eq!((page, first), (a / size, a % size));
        let (page, _, last) = pages.pop().unwrap();
        assert_eq!(page * size + last, b);
    }
}

fn collect<const P: u128>(mut pages: cachalot::pages::PagesIter<P>) -> Vec<(u128, u128, u128)> {
    let mut slices: Vec<(u128, u128, u128)> = Vec::new();
    while let Some(page) = pages.next() {
        if let Some((before, _, last)) = slices.last() {
            assert_eq!(before + 1, page.page());
            assert_eq!(*last, P - 1);
            assert_eq!(page.first(), 0);
        }
        slices.push((page.page(), page.first(), page.last()));
    }
    slices
}

#[test]
fn round_trip_through_pages() {
    for range in [
        IdxRange::One(0),
        IdxRange::One(1023),
        IdxRange::Many(0, 1),
        IdxRange::Many(10, 14),
        IdxRange::Many(512, 4095),
        IdxRange::Many(u128::MAX - 5, u128::MAX),
    ] {
        assert_eq!(range, IdxRange::from(PagesRange::<1024>::from(&range)));
        assert_eq!(range, IdxRange::from(PagesRange::<3>::from(&range)));
        assert_eq!(range, IdxRange::from(PagesRange::<1>::from(&range)));
    }
}

#[test]
fn full_fill_and_len() {
    let whole = PageRange::<1024>::new(7, 0, 1023);
    assert!(whole.full_fill());
    assert_eq!(whole.len(), 1024);
    assert_eq!((whole.page(), whole.first(), whole.last()), (7, 0, 1023));

    let head = PageRange::<1024>::new(7, 1, 1023);
    assert!(!head.full_fill());
    assert_eq!(head.len(), 1023);

    let tail = PageRange::<1024>::new(7, 0, 1022);
    assert!(!tail.full_fill());
    assert_eq!(tail.len(), 1023);

    let one = PageRange::<1>::new(9, 0, 0);
    assert!(one.full_fill());
    assert_eq!(one.len(), 1);
}

#[test]
fn pages_range_len_counts_pages() {
    assert_eq!(PagesRange::<1024>::from(&IdxRange::Many(512, 4095)).len(), 4);
    assert_eq!(PagesRange::<1024>::from(&IdxRange::One(5000)).len(), 1);
    assert_eq!(PagesRange::<5>::from(&IdxRange::Many(4, 5)).len(), 2);
}

#[test]
fn groups_continue_on_the_same_page_or_at_a_page_boundary() {
    let a = PagesRange::<4>::from(&IdxRange::Many(0, 1));
    let b = PagesRange::<4>::from(&IdxRange::Many(2, 5));
    let c = PagesRange::<4>::from(&IdxRange::Many(8, 9));
    let d = PagesRange::<4>::from(&IdxRange::Many(3, 7));

    assert!(a.continued_by(&b));
    assert!(!a.continued_by(&c));
    assert!(!b.continued_by(&a));
    assert!(!a.continued_by(&d));
    assert!(d.continued_by(&c));

    let mut joined = a;
    joined.accumulate_from(&b);
    assert_eq!(IdxRange::from(joined), IdxRange::Many(0, 5));

    let mut across = d;
    across.accumulate_from(&c);
    assert_eq!(IdxRange::from(across), IdxRange::Many(3, 9));
}

#[test]
fn a_group_of_one_slice() {
    let pages = PagesRange::<5>::from_page(PageRange::new(2, 1, 3));
    assert_eq!(IdxRange::from(pages), IdxRange::Many(11, 13));
    assert_eq!(pages.len(), 1);

    let mut slices = pages.pages();
    assert_eq!(slices.next(), Some(PageRange::new(2, 1, 3)));
    assert_eq!(slices.next(), None);
}
