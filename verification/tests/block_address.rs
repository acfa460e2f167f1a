use procedural_galaxy::block_address::{put_in_range, AddressError, BlockAddress};
use procedural_galaxy::radix::SUBBLOCK_COUNT;

const N: i32 = SUBBLOCK_COUNT as i32;

fn make_ba(digits: &[(i32, i32)]) -> BlockAddress {
    BlockAddress::from_digits(digits.to_vec()).unwrap()
}

#[test]
fn test_put_in_range() {
    let n = SUBBLOCK_COUNT;
    for (start_val, expect_val, expect_parent_offset) in [
        (0, 0, 0),
        (n - 1, n - 1, 0),
        (n, 0, 1),
        (n + 1, 1, 1),
        (n * n + 1, 1, n),
        (-1, n - 1, -1),
        (-n, 0, -1),
        (-n - 1, n - 1, -2),
        (-n * n - 1, n - 1, -n - 1),
        (i64::MAX, 7, 922_337_203_685_477_580),
        (i64::MIN, 2, -922_337_203_685_477_581),
    ] {
        let mut val = start_val;
        let parent_offset = put_in_range(&mut val);
        assert_eq!(val, expect_val, "start_val: {}", start_val);
        assert_eq!(parent_offset, expect_parent_offset, "start_val: {}", start_val);
    }
}

#[test]
fn test_to_parent() {
    for (start_block, expect_block, expect) in [
        (make_ba(&[]), make_ba(&[]), Err(AddressError::EmptyAddress)),
        (make_ba(&[(0, 0)]), make_ba(&[]), Ok((0, 0))),
        (make_ba(&[(N - 1, N - 1)]), make_ba(&[]), Ok((N - 1, N - 1))),
        (make_ba(&[(1, 2), (N - 1, 3)]), make_ba(&[(1, 2)]), Ok((N - 1, 3))),
    ] {
        let mut block = start_block.clone();
        assert_eq!(block.last_digit(), expect, "start_block: {:?}", start_block);
        let coord = block.zoom_out();
        assert_eq!(block, expect_block, "start_block: {:?}", start_block);
        assert_eq!(coord, expect, "start_block: {:?}", start_block);
    }
}

#[test]
fn test_to_child() {
    fn test(start: &[(i32, i32)], x: i32, y: i32, expect: &[(i32, i32)], lost: (i64, i64)) {
        let mut block = make_ba(start);
        let overflow = block.zoom_in(x, y);
        assert_eq!(block, make_ba(expect), "start_block: {:?}, coord: {}, {}", start, x, y);
        assert_eq!(overflow, lost, "start_block: {:?}, coord: {}, {}", start, x, y);
    }

    test(&[], 0, 0, &[(0, 0)], (0, 0));
    test(&[], N - 1, 0, &[(N - 1, 0)], (0, 0));
    test(&[], 0, N - 1, &[(0, N - 1)], (0, 0));
    test(&[(4, 4)], 3, 7, &[(4, 4), (3, 7)], (0, 0));
    // The far edge of a block is the near edge of its neighbour.
    test(&[(4, 4)], N, 0, &[(5, 4), (0, 0)], (0, 0));
    test(&[(4, 4)], 0, N, &[(4, 5), (0, 0)], (0, 0));
    test(&[(4, 4)], N, N, &[(5, 5), (0, 0)], (0, 0));
    test(&[(1, 1), (N - 1, 2)], N, 3, &[(2, 1), (0, 2), (0, 3)], (0, 0));
    // At the edge of the addressable space the carry is returned, not applied.
    test(&[], N, 0, &[(0, 0)], (1, 0));
    test(&[], 0, N, &[(0, 0)], (0, 1));
    test(&[(N - 1, 0)], N, 0, &[(0, 0), (0, 0)], (1, 0));
}

#[test]
fn test_to_sibling() {
    fn test(start: &BlockAddress, offset: &(i64, i64), expected: &BlockAddress) {
        let mut block = start.clone();
        let overflow = block.offset(offset.0, offset.1);
        assert_eq!(block, *expected, "start_block: {:?}, offset: {:?}", start, offset);
        assert_eq!(overflow, (0, 0), "start_block: {:?}, offset: {:?}", start, offset);
    }
    fn test2(start_child: &[i32], offset: i64, expected_child: &[i32]) {
        for (kx, ky) in [(0, 1), (1, 0), (1, 1)] {
            let make_child =
                |slice: &[i32]| slice.iter().map(|&v| (kx * v, ky * v)).collect::<Vec<_>>();
            let start = make_ba(&make_child(start_child));
            let offset_vec = (kx as i64 * offset, ky as i64 * offset);
            let neg_offset_vec = (-(kx as i64) * offset, -(ky as i64) * offset);
            let expected = make_ba(&make_child(expected_child));
            test(&start, &offset_vec, &expected);
            test(&expected, &neg_offset_vec, &start);
        }
    }
    test2(&[], 0, &[]);
    test2(&[0, 0], 0, &[0, 0]);
    test2(&[0, 0], 1, &[0, 1]);
    test2(&[0, 0], (N - 1) as i64, &[0, N - 1]);
    test2(&[0, 0], N as i64, &[1, 0]);
    test2(&[0, 0], (N + 1) as i64, &[1, 1]);
    test2(&[0, 0, 0], (N * N) as i64, &[1, 0, 0]);
    test2(&[3, N - 1, N - 1], 1, &[4, 0, 0]);
}

#[test]
fn test_name() {
    let start = make_ba(&[(5, 5), (5, 5)]);
    let mut block_0 = start.clone();
    let mut block_1 = start.clone();
    assert_eq!(block_0.get_name(), block_1.get_name());

    block_0.offset(1, 0);
    assert_ne!(block_0.get_name(), block_1.get_name());

    block_0.offset(-1, 0);
    assert_eq!(block_0.get_name(), block_1.get_name());

    block_0.offset(-1, 0);
    block_0.offset(-1, 0);
    block_1.offset(-2, 0);
    assert_eq!(block_0.get_name(), block_1.get_name());
    assert_ne!(block_0.get_name(), start.get_name());
}
