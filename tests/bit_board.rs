use othello::{BitBoard, Point, Size};

#[test]
fn empty_and_all_filled() {
    assert!(BitBoard::empty().is_empty());
    assert_eq!(BitBoard::empty().num_bits(), 0);
    assert_eq!(BitBoard::all_filled(Size(8, 8)).num_bits(), 64);
    assert_eq!(BitBoard::all_filled(Size(3, 5)).num_bits(), 15);
    assert_eq!(BitBoard::all_filled(Size(2, 2)).num_bits(), 4);
}

#[test]
fn set_operations() {
    let size = Size(4, 4);
    let a = BitBoard::from_point(Point(0, 0), size).union(BitBoard::from_point(Point(1, 2), size));
    let b = BitBoard::from_point(Point(1, 2), size).union(BitBoard::from_point(Point(3, 3), size));
    assert_eq!(a.union(b).num_bits(), 3);
    assert_eq!(a.intersection(b).points(size), vec![Point(1, 2)]);
    assert_eq!(a.difference(b).points(size), vec![Point(0, 0)]);
    assert_eq!(a.symmetric_difference(b).points(size), vec![Point(0, 0), Point(3, 3)]);
    assert_eq!(a.complement(size).num_bits(), 14);
    assert!(a.contains(Point(1, 2), size));
    assert!(!a.contains(Point(2, 1), size));
}

#[test]
fn shifts_move_offsets() {
    let size = Size(4, 4);
    let a = BitBoard::from_point(Point(1, 1), size);
    assert_eq!(a.shift_left(1).points(size), vec![Point(2, 1)]);
    assert_eq!(a.shift_left(4).points(size), vec![Point(1, 2)]);
    assert_eq!(a.shift_right(5).points(size), vec![Point(0, 0)]);
    assert!(a.shift_right(6).is_empty());
}

#[test]
fn points_are_ascending() {
    let size = Size(8, 8);
    let cells = BitBoard::from_point(Point(7, 7), size)
        .union(BitBoard::from_point(Point(0, 0), size))
        .union(BitBoard::from_point(Point(3, 4), size));
    assert_eq!(cells.points(size), vec![Point(0, 0), Point(3, 4), Point(7, 7)]);
    assert_eq!(cells.num_bits(), 3);
}

#[test]
fn lowest_and_highest_cells() {
    let size = Size(8, 8);
    assert_eq!(BitBoard::empty().lowest(size), None);
    assert_eq!(BitBoard::empty().highest(size), None);
    let cells = BitBoard::from_point(Point(5, 1), size)
        .union(BitBoard::from_point(Point(2, 6), size))
        .union(BitBoard::from_point(Point(7, 0), size));
    assert_eq!(cells.lowest(size), Some(Point(7, 0)));
    assert_eq!(cells.highest(size), Some(Point(2, 6)));
    let all = BitBoard::all_filled(size);
    assert_eq!(all.lowest(size), Some(Point(0, 0)));
    assert_eq!(all.highest(size), Some(Point(7, 7)));
    let small = Size(3, 2);
    assert_eq!(BitBoard::all_filled(small).highest(small), Some(Point(2, 1)));
}
