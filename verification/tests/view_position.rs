use procedural_galaxy::block_address::BlockAddress;
use procedural_galaxy::view_position::{split_units, ViewPosition, UNIT};

/// One part in 100 000 of a block, the tolerance of the comparisons below.
const TOLERANCE: i64 = UNIT / 100_000;

fn fixed(value: f64) -> i64 {
    (value * UNIT as f64).round() as i64
}

fn view(digits: &[(i32, i32)], position: (f64, f64), zoom_level: f64) -> ViewPosition {
    let block = BlockAddress::from_digits(digits.to_vec()).unwrap();
    ViewPosition::from_parts(block, (fixed(position.0), fixed(position.1)), fixed(zoom_level))
        .unwrap()
}

fn assert_close(pos: &ViewPosition, expected: &ViewPosition) {
    assert!(pos.approx_eq(expected, TOLERANCE), "{:?} is not close to {:?}", pos, expected);
}

#[test]
fn test_view_position_zoom() {
    let mut pos = view(&[(1, 1)], (0.5, 0.5), 0.1);
    pos.zoom(fixed(1.1));
    assert_close(&pos, &view(&[(1, 1), (5, 5)], (0.0, 0.0), 0.2));
    pos.zoom(fixed(-1.1));
    assert_close(&pos, &view(&[(1, 1)], (0.5, 0.5), 0.1));
    pos.zoom(fixed(-100.0));
    assert_close(&pos, &view(&[], (0.15, 0.15), 0.0));
}

#[test]
fn test_view_position_offset() {
    let mut pos = view(&[(1, 1)], (0.5, 0.5), 0.0);

    pos.offset(fixed(1.1), fixed(0.0));
    assert_close(&pos, &view(&[(2, 1)], (0.6, 0.5), 0.0));
    pos.offset(fixed(0.0), fixed(1.1));
    assert_close(&pos, &view(&[(2, 2)], (0.6, 0.6), 0.0));

    pos.offset(fixed(-2.1), fixed(-2.1));
    assert_close(&pos, &view(&[(0, 0)], (0.5, 0.5), 0.0));
}

#[test]
fn new_view_is_the_middle_of_the_root() {
    let pos = ViewPosition::new();
    assert_eq!(pos.block().depth(), 0);
    assert_eq!(pos.position(), (UNIT / 2, UNIT / 2));
    assert_eq!(pos.zoom_level(), 0);
}

#[test]
fn from_parts_refuses_values_outside_the_block() {
    let root = BlockAddress::root;
    assert!(ViewPosition::from_parts(root(), (0, 0), 0).is_some());
    assert!(ViewPosition::from_parts(root(), (UNIT, UNIT), UNIT - 1).is_some());
    assert!(ViewPosition::from_parts(root(), (-1, 0), 0).is_none());
    assert!(ViewPosition::from_parts(root(), (0, UNIT + 1), 0).is_none());
    assert!(ViewPosition::from_parts(root(), (0, 0), UNIT).is_none());
    assert!(ViewPosition::from_parts(root(), (0, 0), -1).is_none());
}

#[test]
fn split_units_rounds_down() {
    assert_eq!(split_units(0), (0, 0));
    assert_eq!(split_units(UNIT + 1), (1, 1));
    assert_eq!(split_units(-1), (-1, UNIT - 1));
    assert_eq!(split_units(-UNIT), (-1, 0));
    assert_eq!(split_units(i64::MIN), (-9_223_372_037, 145_224_192));
}

#[test]
fn zoom_in_from_the_root_is_exact() {
    let mut pos = view(&[], (0.5, 0.5), 0.1);
    pos.zoom(fixed(1.1));
    assert_eq!(pos, view(&[(5, 5)], (0.0, 0.0), 0.2));
    pos.zoom(fixed(-1.1));
    assert_eq!(pos, view(&[], (0.5, 0.5), 0.1));
}

#[test]
fn offset_matches_exact_values() {
    let mut pos = view(&[(1, 1)], (0.5, 0.5), 0.0);
    let overflow = pos.offset(1_100_000_000, 0);
    assert_eq!(overflow, (0, 0));
    assert_eq!(pos, view(&[(2, 1)], (0.6, 0.5), 0.0));
}

#[test]
fn zoom_is_held_at_the_root() {
    let mut pos = view(&[(3, 4)], (0.25, 0.75), 0.5);
    pos.zoom(-3 * UNIT);
    assert_eq!(pos.block().depth(), 0);
    assert_eq!(pos.zoom_level(), 0);
    assert_eq!(pos.position(), (325_000_000, 475_000_000));
}

#[test]
fn zoom_carries_the_fraction_into_the_depth() {
    let mut pos = view(&[], (0.123456789, 0.987654321), 0.9);
    pos.zoom(fixed(0.1));
    assert_eq!(pos.block().digits(), &vec![(1, 9)]);
    assert_eq!(pos.zoom_level(), 0);
    assert_eq!(pos.position(), (234_567_890, 876_543_210));
    pos.zoom(2 * UNIT);
    assert_eq!(pos.block().digits(), &vec![(1, 9), (2, 8), (3, 7)]);
    assert_eq!(pos.position(), (456_789_000, 654_321_000));
}

#[test]
fn zoom_round_trip_restores_the_view() {
    let start = view(&[(1, 2), (3, 4), (5, 6)], (0.123456789, 0.5), 0.25);
    let mut pos = start.clone();
    pos.zoom(fixed(2.5));
    pos.zoom(fixed(-2.5));
    assert_eq!(pos, start);
    pos.zoom(fixed(-2.0));
    assert_eq!(pos.block().digits(), &vec![(1, 2)]);
    pos.zoom(fixed(2.0));
    assert_eq!(pos.block(), start.block());
    assert_eq!(pos.zoom_level(), start.zoom_level());
    assert_eq!(pos.position(), (123_456_700, 500_000_000));
    assert!(pos.approx_eq(&start, 100));
    assert!(!pos.approx_eq(&start, 88));
}

#[test]
fn pan_round_trip_restores_the_view() {
    let start = view(&[(9, 9), (9, 9)], (0.9, 0.1), 0.0);
    let mut pos = start.clone();
    let overflow = pos.offset(fixed(0.2), fixed(-0.2));
    assert_eq!(overflow, (1, 0));
    assert_eq!(pos, view(&[(0, 9), (0, 8)], (0.1, 0.9), 0.0));
    pos.offset(fixed(-0.2), fixed(0.2));
    assert_eq!(pos, start);
}

#[test]
fn position_on_the_far_edge_zooms_into_the_next_block() {
    let block = BlockAddress::from_digits(vec![(4, 4)]).unwrap();
    let mut pos = ViewPosition::from_parts(block, (UNIT, 0), 0).unwrap();
    pos.zoom(UNIT);
    assert_eq!(pos.block().digits(), &vec![(5, 4), (0, 0)]);
    assert_eq!(pos.position(), (0, 0));
}

#[test]
fn views_stay_well_formed() {
    let mut pos = ViewPosition::new();
    let moves: [(i64, i64, i64); 6] = [
        (fixed(0.75), fixed(-0.75), fixed(2.5)),
        (fixed(-123.456), fixed(7.0), fixed(-0.75)),
        (i64::MAX, i64::MIN, fixed(3.25)),
        (-1, 1, fixed(-9.0)),
        (0, 0, fixed(1.999999999)),
        (fixed(0.000000001), fixed(99.9), fixed(-1.0)),
    ];
    for (dx, dy, dz) in moves {
        pos.offset(dx, dy);
        pos.zoom(dz);
        let (x, y) = pos.position();
        assert!((0..UNIT).contains(&x) && (0..UNIT).contains(&y));
        assert!((0..UNIT).contains(&pos.zoom_level()));
        for &(dx, dy) in pos.block().digits() {
            assert!((0..10).contains(&dx) && (0..10).contains(&dy));
        }
    }
}
