use std::ops::{Range, RangeInclusive};

use cachalot::{Idx, IdxRange};

#[test]
fn test_range() {
    let zero = IdxRange::try_from(10..0 as Idx);
    assert!(zero.is_err());

    let r = 10..11 as Idx;
    let one = IdxRange::try_from(r.clone()).unwrap();
    assert_eq!(one, IdxRange::One(10));
    let one: Range<Idx> = one.into_range();
    assert_eq!(one, r);

    let r = 10..21 as Idx;
    let many = IdxRange::try_from(r.clone()).unwrap();
    assert_eq!(many, IdxRange::Many(10, 20));
    let many: Range<Idx> = many.into_range();
    assert_eq!(many, r);
}

#[test]
fn test_range_inclusive() {
    let zero = IdxRange::try_from(10..=0 as Idx);
    assert!(zero.is_err());

    let r = 10..=10 as Idx;
    let one = IdxRange::try_from(r.clone()).unwrap();
    assert_eq!(one, IdxRange::One(10));
    let one: RangeInclusive<Idx> = one.into();
    assert_eq!(one, r);

    let r = 10..=20 as Idx;
    let many = IdxRange::try_from(r.clone()).unwrap();
    assert_eq!(many, IdxRange::Many(10, 20));
    let many: RangeInclusive<Idx> = many.into();
    assert_eq!(many, r);
}

#[test]
fn new_needs_a_length() {
    assert_eq!(IdxRange::new(10, 0), None);
    assert_eq!(IdxRange::new(10, 1), Some(IdxRange::One(10)));
    assert_eq!(IdxRange::new(10, 2), Some(IdxRange::Many(10, 11)));
    assert_eq!(IdxRange::new(u128::MAX, 1), Some(IdxRange::One(u128::MAX)));
    assert_eq!(
        IdxRange::new(u128::MAX - 1, 2),
        Some(IdxRange::Many(u128::MAX - 1, u128::MAX))
    );
}

#[test]
fn len_counts_both_ends() {
    assert_eq!(IdxRange::One(7).len(), 1);
    assert_eq!(IdxRange::Many(10, 20).len(), 11);
    assert_eq!(IdxRange::Many(1, u128::MAX).len(), u128::MAX);
}

#[test]
fn empty_ranges_come_back_as_they_were() {
    assert_eq!(IdxRange::try_from(5..5 as Idx), Err(5..5));
    assert_eq!(IdxRange::try_from(10..0 as Idx), Err(10..0));
    assert_eq!(IdxRange::try_from(10..=9 as Idx), Err(10..=9));

    let mut spent: RangeInclusive<Idx> = 3..=5;
    while spent.next().is_some() {}
    assert!(IdxRange::try_from(spent).is_err());
}

#[test]
fn long_ranges_are_ranges() {
    let long = 0..(1u128 << 64);
    assert_eq!(
        IdxRange::try_from(long),
        Ok(IdxRange::Many(0, (1u128 << 64) - 1))
    );
    assert_eq!(
        IdxRange::try_from(0..=u128::MAX),
        Ok(IdxRange::Many(0, u128::MAX))
    );
}
