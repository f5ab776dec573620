use othello::{Board, Point, Side, Size};

fn play_all(size: Size, moves: &[(u32, u32)]) -> Board {
    let mut board = Board::new(size);
    for &(x, y) in moves {
        board = board.make_move(Point(x, y)).expect("legal move");
    }
    board
}

#[test]
fn opening_8x8_has_four_moves_for_black() {
    let board = Board::new(Size(8, 8));
    assert_eq!(board.turn(), Some(Side::Black));
    assert_eq!(board.num_disk(Side::Black), 2);
    assert_eq!(board.num_disk(Side::White), 2);
    assert_eq!(board.move_candidates().num_bits(), 4);
    let pts = board.move_candidates().points(Size(8, 8));
    assert_eq!(pts, vec![Point(3, 2), Point(2, 3), Point(5, 4), Point(4, 5)]);
}

#[test]
fn opening_disks_sit_around_the_centre() {
    let board = Board::new(Size(8, 8));
    assert_eq!(board.get(Point(3, 3)), Some(Side::White));
    assert_eq!(board.get(Point(4, 4)), Some(Side::White));
    assert_eq!(board.get(Point(4, 3)), Some(Side::Black));
    assert_eq!(board.get(Point(3, 4)), Some(Side::Black));
    assert_eq!(board.get(Point(0, 0)), None);
    assert_eq!(board.size(), Size(8, 8));
}

#[test]
fn opening_on_odd_and_uneven_sizes() {
    let board = Board::new(Size(3, 5));
    assert_eq!(board.get(Point(0, 1)), Some(Side::White));
    assert_eq!(board.get(Point(1, 2)), Some(Side::White));
    assert_eq!(board.get(Point(1, 1)), Some(Side::Black));
    assert_eq!(board.get(Point(0, 2)), Some(Side::Black));
    assert_eq!(board.num_disk(Side::Black) + board.num_disk(Side::White), 4);
}

#[test]
fn standard_opening_move_flips_one_disk() {
    let board = Board::new(Size(8, 8));
    let next = board.make_move(Point(3, 2)).expect("legal move");
    assert_eq!(next.num_disk(Side::Black), 4);
    assert_eq!(next.num_disk(Side::White), 1);
    assert_eq!(next.turn(), Some(Side::White));
    assert_eq!(next.get(Point(3, 3)), Some(Side::Black));
    assert_eq!(next.get(Point(3, 2)), Some(Side::Black));
    assert_eq!(next.get(Point(4, 4)), Some(Side::White));
    // the earlier board is left as it was
    assert_eq!(board.num_disk(Side::Black), 2);
    assert_eq!(board.turn(), Some(Side::Black));
}

#[test]
fn illegal_moves_give_none() {
    let board = Board::new(Size(8, 8));
    assert!(board.make_move(Point(0, 0)).is_none());
    assert!(board.make_move(Point(3, 3)).is_none());
    assert!(board.make_move(Point(4, 3)).is_none());
    assert!(board.make_move(Point(2, 2)).is_none());
}

#[test]
fn candidates_are_exactly_the_playable_points() {
    let mut board = Board::new(Size(6, 6));
    for step in 0..6 {
        let size = board.size();
        let cands = board.move_candidates();
        for y in 0..size.1 {
            for x in 0..size.0 {
                let pt = Point(x, y);
                assert_eq!(cands.contains(pt, size), board.make_move(pt).is_some(), "step {} at {:?}", step, pt);
            }
        }
        let first = cands.points(size)[0];
        board = board.make_move(first).unwrap();
    }
}

#[test]
fn each_move_adds_one_disk() {
    let mut board = Board::new(Size(8, 8));
    let mut moves = 0;
    while board.turn().is_some() {
        let before = board.num_disk(Side::Black) + board.num_disk(Side::White);
        let pt = board.move_candidates().points(board.size())[0];
        board = board.make_move(pt).unwrap();
        let after = board.num_disk(Side::Black) + board.num_disk(Side::White);
        assert_eq!(after, before + 1);
        assert!(board.black_cells().intersection(board.white_cells()).is_empty());
        moves += 1;
    }
    assert_eq!(moves, 60);
    assert_eq!(board.num_disk(Side::Black), 19);
    assert_eq!(board.num_disk(Side::White), 45);
}

#[test]
fn games_end_within_the_cell_count() {
    for &(w, h) in &[(2u32, 2u32), (3, 3), (4, 4), (5, 3), (6, 8), (8, 8), (7, 2)] {
        let mut board = Board::new(Size(w, h));
        let mut moves = 0;
        while board.turn().is_some() && !board.move_candidates().is_empty() {
            let pts = board.move_candidates().points(board.size());
            let pt = pts[pts.len() - 1];
            board = board.make_move(pt).unwrap();
            moves += 1;
            if board.turn().is_some() {
                assert!(!board.move_candidates().is_empty());
            }
        }
        assert!(moves <= w * h - 4, "{}x{}: {} moves", w, h, moves);
    }
}

#[test]
fn first_move_game_on_4x4() {
    let mut board = Board::new(Size(4, 4));
    let mut moves = 0;
    while board.turn().is_some() {
        let pt = board.move_candidates().points(board.size())[0];
        board = board.make_move(pt).unwrap();
        moves += 1;
    }
    assert_eq!(moves, 12);
    assert_eq!(board.num_disk(Side::Black), 6);
    assert_eq!(board.num_disk(Side::White), 10);
}

#[test]
fn forced_pass_returns_the_turn() {
    let board = play_all(Size(3, 3), &[(2, 1)]);
    assert_eq!(board.turn(), Some(Side::White));
    assert_eq!(board.num_disk(Side::Black), 4);
    assert_eq!(board.num_disk(Side::White), 1);
    let board = board.make_move(Point(2, 0)).unwrap();
    // black has no move, so white, who just moved, moves again
    assert_eq!(board.turn(), Some(Side::White));
    assert_eq!(board.num_disk(Side::Black), 3);
    assert_eq!(board.num_disk(Side::White), 3);
    assert_eq!(
        board.move_candidates().points(Size(3, 3)),
        vec![Point(0, 2), Point(1, 2), Point(2, 2)]
    );
}

#[test]
fn double_pass_ends_the_game() {
    let board = play_all(Size(4, 4), &[(1, 0), (2, 0), (3, 0), (0, 0), (0, 2), (3, 3)]);
    assert_eq!(board.turn(), None);
    assert!(board.move_candidates().is_empty());
    assert_eq!(board.num_disk(Side::Black), 9);
    assert_eq!(board.num_disk(Side::White), 1);
    for y in 0..4 {
        for x in 0..4 {
            assert!(board.make_move(Point(x, y)).is_none());
        }
    }
    assert_eq!(board.turn(), None);
    assert!(board.move_candidates().is_empty());
}

#[test]
fn two_by_two_opening_has_no_move() {
    let board = Board::new(Size(2, 2));
    assert_eq!(board.turn(), Some(Side::Black));
    assert!(board.move_candidates().is_empty());
    assert_eq!(board.num_disk(Side::Black), 2);
    assert_eq!(board.num_disk(Side::White), 2);
}

#[test]
fn side_flip_swaps() {
    assert_eq!(Side::Black.flip(), Side::White);
    assert_eq!(Side::White.flip(), Side::Black);
}

#[test]
fn point_offsets_are_row_major() {
    let size = Size(5, 3);
    assert_eq!(Point(2, 1).offset(size), 7);
    assert_eq!(Point::from_offset(7, size), Point(2, 1));
    assert_eq!(Point::from_offset(14, size), Point(4, 2));
}
