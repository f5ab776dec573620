//! The choices made before a game starts: board dimensions and who plays
//! each side.

use crate::geometry::{MAX_SIZE, MIN_SIZE};
use crate::player::PlayerKind;
use vstd::prelude::*;

verus! {

/// A board dimension that can be chosen.
#[derive(Copy, Clone, Debug, PartialEq, Eq, Structural)]
pub enum BoardSize {
    N2,
    N3,
    N4,
    N5,
    N6,
    N7,
    N8,
}

/// Every choosable dimension, smallest first.
pub open spec fn all_board_sizes() -> Seq<BoardSize> {
    seq![
        BoardSize::N2,
        BoardSize::N3,
        BoardSize::N4,
        BoardSize::N5,
        BoardSize::N6,
        BoardSize::N7,
        BoardSize::N8,
    ]
}

impl BoardSize {
    /// Every choosable dimension, smallest first.
    pub fn all_values() -> (r: [Self; 7])
        ensures
            r@ == all_board_sizes(),
    {
        let r = [
            BoardSize::N2,
            BoardSize::N3,
            BoardSize::N4,
            BoardSize::N5,
            BoardSize::N6,
            BoardSize::N7,
            BoardSize::N8,
        ];
        assert(r@ =~= all_board_sizes());
        r
    }

    /// The position of the dimension in `all_values`.
    pub fn to_index(&self) -> (r: usize)
        ensures
            r < 7,
            all_board_sizes()[r as int] == *self,
            r + MIN_SIZE == self.spec_value(),
    {
        match *self {
            BoardSize::N2 => 0,
            BoardSize::N3 => 1,
            BoardSize::N4 => 2,
            BoardSize::N5 => 3,
            BoardSize::N6 => 4,
            BoardSize::N7 => 5,
            BoardSize::N8 => 6,
        }
    }

    pub open spec fn spec_value(&self) -> u32 {
        match *self {
            BoardSize::N2 => 2,
            BoardSize::N3 => 3,
            BoardSize::N4 => 4,
            BoardSize::N5 => 5,
            BoardSize::N6 => 6,
            BoardSize::N7 => 7,
            BoardSize::N8 => 8,
        }
    }

    /// The number of cells along the dimension.
    pub fn to_value(&self) -> (r: u32)
        ensures
            r == self.spec_value(),
            MIN_SIZE <= r <= MAX_SIZE,
    {
        match *self {
            BoardSize::N2 => 2,
            BoardSize::N3 => 3,
            BoardSize::N4 => 4,
            BoardSize::N5 => 5,
            BoardSize::N6 => 6,
            BoardSize::N7 => 7,
            BoardSize::N8 => 8,
        }
    }

    /// The menu label of the dimension.
    pub fn as_str(&self) -> &'static str {
        match *self {
            BoardSize::N2 => "2",
            BoardSize::N3 => "3",
            BoardSize::N4 => "4",
            BoardSize::N5 => "5",
            BoardSize::N6 => "6",
            BoardSize::N7 => "7",
            BoardSize::N8 => "8",
        }
    }
}

/// The settings of a new game.
#[derive(Copy, Clone, Debug)]
pub struct GameConfig {
    pub rows: BoardSize,
    pub cols: BoardSize,
    pub black_player: PlayerKind,
    pub white_player: PlayerKind,
}

impl Default for GameConfig {
    /// Eight by eight, two human players.
    fn default() -> (r: GameConfig)
        ensures
            r.rows == BoardSize::N8,
            r.cols == BoardSize::N8,
            r.black_player == PlayerKind::Human,
            r.white_player == PlayerKind::Human,
    {
        GameConfig {
            rows: BoardSize::N8,
            cols: BoardSize::N8,
            black_player: PlayerKind::Human,
            white_player: PlayerKind::Human,
        }
    }
}

} // verus!
