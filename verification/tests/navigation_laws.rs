use procedural_galaxy::block_address::BlockAddress;
use procedural_galaxy::identity::NAME_LENGTH;
use procedural_galaxy::radix::SUBBLOCK_COUNT;

fn address(digits: &[(i32, i32)]) -> BlockAddress {
    BlockAddress::from_digits(digits.to_vec()).unwrap()
}

#[test]
fn from_digits_wants_canonical_digits() {
    assert!(BlockAddress::from_digits(vec![]).is_some());
    assert!(BlockAddress::from_digits(vec![(0, 9), (9, 0)]).is_some());
    assert!(BlockAddress::from_digits(vec![(0, 10)]).is_none());
    assert!(BlockAddress::from_digits(vec![(10, 0)]).is_none());
    assert!(BlockAddress::from_digits(vec![(1, 1), (-1, 0)]).is_none());
    assert!(BlockAddress::from_digits(vec![(1, 1), (0, -1)]).is_none());
}

#[test]
fn depth_counts_the_digits() {
    assert_eq!(address(&[]).depth(), 0);
    assert_eq!(address(&[(1, 2), (3, 4), (5, 6)]).depth(), 3);
    assert_eq!(address(&[(1, 2), (3, 4)]).last_digit(), Ok((3, 4)));
}

#[test]
fn same_digits_compares_digit_by_digit() {
    let a = address(&[(1, 2), (3, 4)]);
    assert!(a.same_digits(&address(&[(1, 2), (3, 4)])));
    assert!(!a.same_digits(&address(&[(1, 2), (3, 5)])));
    assert!(!a.same_digits(&address(&[(2, 2), (3, 4)])));
    assert!(!a.same_digits(&address(&[(1, 2)])));
    assert!(address(&[]).same_digits(&BlockAddress::root()));
}

#[test]
fn offset_round_trip_restores_the_digits() {
    let start = address(&[(7, 0), (9, 9), (0, 5)]);
    for (dx, dy) in [(1, 0), (0, -1), (12, -345), (-999, 999), (123_456_789, -987_654_321)] {
        let mut a = start.clone();
        a.offset(dx, dy);
        a.offset(-dx, -dy);
        assert_eq!(a, start, "offset: {}, {}", dx, dy);
    }
}

#[test]
fn offset_by_a_block_is_as_many_single_steps() {
    let start = address(&[(3, 9), (8, 9), (9, 1)]);
    let mut once = start.clone();
    once.offset(SUBBLOCK_COUNT, 0);
    let mut stepped = start.clone();
    for _ in 0..SUBBLOCK_COUNT {
        stepped.offset(1, 0);
    }
    assert_eq!(once, stepped);
    assert_eq!(once, address(&[(3, 9), (9, 9), (9, 1)]));

    let mut once = start.clone();
    once.offset(0, SUBBLOCK_COUNT);
    let mut stepped = start.clone();
    for _ in 0..SUBBLOCK_COUNT {
        stepped.offset(0, 1);
    }
    assert_eq!(once, stepped);
    assert_eq!(once, address(&[(3, 0), (8, 0), (9, 1)]));
}

#[test]
fn offset_past_the_edge_drops_and_returns_the_carry() {
    let mut a = address(&[(9, 0), (9, 0)]);
    assert_eq!(a.offset(1, -1), (1, -1));
    assert_eq!(a, address(&[(0, 9), (0, 9)]));

    let mut a = address(&[(2, 3)]);
    assert_eq!(a.offset(-25, 47), (-3, 5));
    assert_eq!(a, address(&[(7, 0)]));

    let mut root = BlockAddress::root();
    assert_eq!(root.offset(5, -7), (5, -7));
    assert_eq!(root, BlockAddress::root());

    let mut a = address(&[(1, 1)]);
    assert_eq!(a.offset(i64::MAX, i64::MIN), (922_337_203_685_477_580, -922_337_203_685_477_581));
    assert_eq!(a, address(&[(8, 3)]));
}

#[test]
fn names_follow_the_digits() {
    let a = address(&[(1, 2), (3, 4)]);
    assert_eq!(a.get_name(), address(&[(1, 2), (3, 4)]).get_name());
    assert_eq!(a.digest(), address(&[(1, 2), (3, 4)]).digest());
    for other in [
        address(&[(1, 2), (3, 5)]),
        address(&[(1, 2), (4, 4)]),
        address(&[(0, 2), (3, 4)]),
        address(&[(1, 3), (3, 4)]),
    ] {
        assert_ne!(a.digest(), other.digest());
        assert_ne!(a.get_name(), other.get_name());
    }
    assert_ne!(a.get_name(), address(&[(1, 2)]).get_name());
}

#[test]
fn names_have_fixed_values() {
    assert_eq!(NAME_LENGTH, 12);
    assert_eq!(BlockAddress::root().digest(), 0xcbf2_9ce4_8422_2325);
    assert_eq!(BlockAddress::root().get_name(), "JSMihOSc8ss=");
    let a = address(&[(5, 5)]);
    assert_eq!(a.digest(), 0xaf63_aa4c_8601_9796);
    assert_eq!(a.get_name(), "lpcBhkyqY68=");
    let b = address(&[(1, 2), (3, 4)]);
    assert_eq!(b.digest(), 0x083f_fe07_b4f6_c2cb);
    assert_eq!(b.get_name(), "y8L2tAf+Pwg=");
    assert_eq!(b.get_name().len(), NAME_LENGTH);
}
