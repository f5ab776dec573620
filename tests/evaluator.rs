use othello::{
    Board, EvenEvaluator, Evaluate, Point, Score, Side, Size, StrongEvaluator, WeakEvaluator,
    MAX_SCORE, MIN_SCORE,
};
use std::cmp::Ordering;

fn ended_board() -> Board {
    let mut board = Board::new(Size(4, 4));
    for &(x, y) in &[(1, 0), (2, 0), (3, 0), (0, 0), (0, 2), (3, 3)] {
        board = board.make_move(Point(x, y)).unwrap();
    }
    board
}

#[test]
fn opening_running_score() {
    let board = Board::new(Size(8, 8));
    let ev = StrongEvaluator::new(Size(8, 8));
    assert!(matches!(ev.evaluate(&board, Side::Black), Score::Running(16, 40)));
    assert!(matches!(ev.evaluate(&board, Side::White), Score::Running(-16, 40)));
}

#[test]
fn corner_weight_counts() {
    // black takes (0, 0) on a 4x4 board: corners weigh 30
    let mut board = Board::new(Size(4, 4));
    for &(x, y) in &[(1, 0), (2, 0), (3, 0), (0, 0)] {
        board = board.make_move(Point(x, y)).unwrap();
    }
    assert_eq!(board.turn(), Some(Side::Black));
    assert_eq!(board.get(Point(0, 0)), Some(Side::White));
    let ev = StrongEvaluator::new(Size(4, 4));
    let score = ev.evaluate(&board, Side::Black);
    let cands = board.move_candidates().num_bits() as i64;
    let n = (board.num_disk(Side::Black) + board.num_disk(Side::White)) as i64;
    match score {
        Score::Running(num, den) => {
            assert_eq!(den, 10 * n);
            // on 4x4 the corners weigh 30, the edge cells next to them -12
            // and the inner cells -15
            let mut disk = 0i64;
            for y in 0..4u32 {
                for x in 0..4u32 {
                    let w = match (x.min(3 - x), y.min(3 - y)) {
                        (0, 0) => 30,
                        (1, 1) => -15,
                        _ => -12,
                    };
                    match board.get(Point(x, y)) {
                        Some(Side::Black) => disk += w,
                        Some(Side::White) => disk -= w,
                        None => {}
                    }
                }
            }
            assert_eq!(num, 10 * disk + n * cands);
        }
        other => panic!("unexpected {:?}", other),
    }
}

#[test]
fn ended_score_is_disk_difference() {
    let board = ended_board();
    let ev = StrongEvaluator::new(Size(4, 4));
    assert!(matches!(ev.evaluate(&board, Side::Black), Score::Ended(8)));
    assert!(matches!(ev.evaluate(&board, Side::White), Score::Ended(-8)));
    match ev.evaluate(&board, Side::White) {
        Score::Ended(d) => assert!(d.abs() <= 16),
        other => panic!("unexpected {:?}", other),
    }
}

#[test]
fn even_and_weak_evaluators() {
    let board = ended_board();
    let even = EvenEvaluator::new(Size(4, 4));
    let weak = WeakEvaluator::new(Size(4, 4));
    assert!(matches!(even.evaluate(&board, Side::Black), Score::Ended(-8)));
    assert!(matches!(even.evaluate(&board, Side::White), Score::Ended(-8)));
    assert!(matches!(weak.evaluate(&board, Side::Black), Score::Ended(-8)));
    assert!(matches!(weak.evaluate(&board, Side::White), Score::Ended(8)));
    let opening = Board::new(Size(8, 8));
    let even = EvenEvaluator::new(Size(8, 8));
    let weak = WeakEvaluator::new(Size(8, 8));
    assert!(matches!(even.evaluate(&opening, Side::Black), Score::Running(-16, 40)));
    assert!(matches!(weak.evaluate(&opening, Side::Black), Score::Running(-16, 40)));
    assert!(matches!(weak.evaluate(&opening, Side::White), Score::Running(16, 40)));
}

#[test]
fn score_bounds() {
    for &(n, d) in &[(0i64, 1i64), (1_000_000_000, 1), (-1_000_000_000, 1), (7, 3)] {
        let r = Score::Running(n, d);
        assert_eq!(MIN_SCORE.compare(&r), Ordering::Less);
        assert_eq!(r.compare(&MAX_SCORE), Ordering::Less);
        assert_eq!(Score::Ended(1).compare(&r), Ordering::Greater);
        assert_eq!(r.compare(&Score::Ended(-1)), Ordering::Greater);
    }
    assert_eq!(MIN_SCORE.compare(&MIN_SCORE), Ordering::Equal);
    assert_eq!(MAX_SCORE.compare(&MIN_SCORE), Ordering::Greater);
}

#[test]
fn score_comparisons() {
    assert_eq!(Score::Running(1, 2).compare(&Score::Running(2, 4)), Ordering::Equal);
    assert_eq!(Score::Running(1, 3).compare(&Score::Running(1, 2)), Ordering::Less);
    assert_eq!(Score::Running(-5, 2).compare(&Score::Running(-2, 1)), Ordering::Less);
    assert_eq!(Score::Ended(3).compare(&Score::Ended(-2)), Ordering::Greater);
    assert_eq!(Score::Ended(0).compare(&Score::Running(1, 10)), Ordering::Less);
    assert_eq!(Score::Ended(0).compare(&Score::Running(-1, 10)), Ordering::Greater);
    assert_eq!(Score::Ended(0).compare(&Score::Running(0, 10)), Ordering::Equal);
    assert!(matches!(Score::Running(1, 2).max(Score::Running(2, 4)), Score::Running(2, 4)));
    assert!(matches!(Score::Running(1, 2).min(Score::Running(2, 4)), Score::Running(1, 2)));
    assert!(matches!(Score::Ended(-3).max(Score::Running(-100, 1)), Score::Running(-100, 1)));
}
