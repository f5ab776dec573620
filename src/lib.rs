//! A variable-size Othello engine: bit-set boards, move generation and
//! flipping, turn and pass rules, a positional evaluator and an alpha-beta
//! move search bounded by an evaluation budget.

pub mod alpha_beta;
pub mod bit_board;
pub mod board;
pub mod even;
pub mod evaluator;
pub mod geometry;
pub mod multi_direction;
pub mod player;
pub mod random;
pub mod rules;
pub mod setup;
pub mod strong;
pub mod weak;

pub use alpha_beta::Player as AlphaBetaPlayer;
pub use bit_board::BitBoard;
pub use board::Board;
pub use even::Evaluator as EvenEvaluator;
pub use evaluator::{Evaluate, Score, MAX_SCORE, MIN_SCORE};
pub use geometry::{Point, Side, Size, MAX_SIZE, MIN_SIZE};
pub use player::{
    next_action, receive, AiKind, AiPower, FindMove, Message, PlayerKind, Received, WorkerAction,
};
pub use random::Player as RandomPlayer;
pub use setup::{BoardSize, GameConfig};
pub use strong::Evaluator as StrongEvaluator;
pub use weak::Evaluator as WeakEvaluator;
