use othello::{
    next_action, receive, AiKind, AiPower, AlphaBetaPlayer, Board, BoardSize, EvenEvaluator,
    FindMove, GameConfig, Message, Point, PlayerKind, RandomPlayer, Received, Side, Size,
    StrongEvaluator, WeakEvaluator, WorkerAction,
};

#[test]
fn alpha_beta_breaks_ties_by_first_candidate() {
    let board = Board::new(Size(8, 8));
    let mut player = AlphaBetaPlayer::new(Side::Black, 1, StrongEvaluator::new(Size(8, 8)));
    assert_eq!(player.find_move(board), Point(3, 2));
}

#[test]
fn alpha_beta_plays_legal_moves_to_the_end() {
    let size = Size(6, 6);
    let mut board = Board::new(size);
    let mut black = AlphaBetaPlayer::new(Side::Black, 2000, StrongEvaluator::new(size));
    let mut white = AlphaBetaPlayer::new(Side::White, 2000, EvenEvaluator::new(size));
    let mut moves = 0;
    while let Some(turn) = board.turn() {
        let pt = match turn {
            Side::Black => black.find_move(board),
            Side::White => white.find_move(board),
        };
        assert!(board.move_candidates().contains(pt, size));
        board = board.make_move(pt).unwrap();
        moves += 1;
    }
    assert!(moves <= 32);
}

#[test]
fn alpha_beta_takes_a_winning_corner() {
    // 4x4 after four moves; a budget large enough to search to the end
    let mut board = Board::new(Size(4, 4));
    for &(x, y) in &[(1, 0), (2, 0), (3, 0), (0, 0), (0, 2)] {
        board = board.make_move(Point(x, y)).unwrap();
    }
    assert_eq!(board.turn(), Some(Side::Black));
    let mut player = AlphaBetaPlayer::new(Side::Black, 1_000_000, WeakEvaluator::new(Size(4, 4)));
    let pt = player.find_move(board);
    assert!(board.move_candidates().contains(pt, Size(4, 4)));
}

#[test]
fn random_player_picks_a_candidate() {
    let size = Size(8, 8);
    let board = Board::new(size);
    let mut player = RandomPlayer::new();
    for _ in 0..50 {
        let pt = player.find_move(board);
        assert!(board.move_candidates().contains(pt, size));
    }
}

#[test]
fn player_kinds_round_trip() {
    let kinds = PlayerKind::all_values();
    assert_eq!(kinds.len(), 11);
    for (i, k) in kinds.iter().enumerate() {
        assert_eq!(k.to_index(), i);
    }
    assert_eq!(PlayerKind::default(), PlayerKind::Human);
    assert_eq!(PlayerKind::Ai(AiKind::AlphaBetaEven(AiPower::Medium)).as_str(), "AI: alpha-beta even M");
    assert_eq!(AiPower::Small.to_alpha_beta_power(), 1_000_000);
    assert_eq!(AiPower::Large.to_alpha_beta_power(), 100_000_000);
}

#[test]
fn board_sizes() {
    let sizes = BoardSize::all_values();
    for (i, s) in sizes.iter().enumerate() {
        assert_eq!(s.to_index(), i);
        assert_eq!(s.to_value(), i as u32 + 2);
        assert_eq!(s.as_str(), format!("{}", i + 2));
    }
    let cfg = GameConfig::default();
    assert_eq!(cfg.rows, BoardSize::N8);
    assert_eq!(cfg.cols, BoardSize::N8);
    assert_eq!(cfg.black_player, PlayerKind::Human);
}

#[test]
fn worker_steps_follow_the_turn() {
    let board = Board::new(Size(8, 8));
    assert_eq!(next_action(&board, Side::Black), WorkerAction::Play);
    assert_eq!(next_action(&board, Side::White), WorkerAction::AwaitMove);
    match receive(&board, Message::MakeMove(Side::Black, Point(3, 2))) {
        Received::Moved(next) => {
            assert_eq!(next.turn(), Some(Side::White));
            assert_eq!(next.num_disk(Side::Black), 4);
            assert_eq!(next_action(&next, Side::White), WorkerAction::Play);
        }
        other => panic!("unexpected {:?}", other),
    }
    assert!(matches!(receive(&board, Message::MakeMove(Side::Black, Point(0, 0))), Received::Rejected));
    assert!(matches!(receive(&board, Message::MakeMove(Side::Black, Point(9, 0))), Received::Rejected));
    assert!(matches!(receive(&board, Message::Exit), Received::Exit));
}

#[test]
fn worker_waits_for_exit_after_the_game() {
    let mut board = Board::new(Size(4, 4));
    for &(x, y) in &[(1, 0), (2, 0), (3, 0), (0, 0), (0, 2), (3, 3)] {
        board = board.make_move(Point(x, y)).unwrap();
    }
    assert_eq!(next_action(&board, Side::Black), WorkerAction::AwaitExit);
    assert_eq!(next_action(&board, Side::White), WorkerAction::AwaitExit);
    assert!(matches!(receive(&board, Message::MakeMove(Side::White, Point(1, 1))), Received::Rejected));
}
