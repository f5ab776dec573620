//! The kinds of players, the messages a computer player exchanges with its
//! host, and the interface of move selectors.

use crate::board::Board;
use crate::geometry::{Point, Side};
use vstd::prelude::*;

verus! {

/// What a host tells a computer player.
#[derive(Clone, Debug)]
pub enum Message {
    /// `side` played at the point.
    MakeMove(Side, Point),
    /// Stop.
    Exit,
}

/// Who plays one side.
#[derive(Copy, Clone, Debug, PartialEq, Eq, Structural)]
pub enum PlayerKind {
    Human,
    Ai(AiKind),
}

/// The kinds of computer player.
#[derive(Copy, Clone, Debug, PartialEq, Eq, Structural)]
pub enum AiKind {
    Random,
    AlphaBetaStrong(AiPower),
    AlphaBetaEven(AiPower),
    AlphaBetaWeak(AiPower),
}

/// The search budget of a computer player.
#[derive(Copy, Clone, Debug, PartialEq, Eq, Structural)]
pub enum AiPower {
    Small,
    Medium,
    Large,
}

impl AiPower {
    /// The number of evaluations an alpha-beta search may spend per move.
    pub fn to_alpha_beta_power(&self) -> (r: u32)
        ensures
            r == match *self {
                AiPower::Small => 1_000_000u32,
                AiPower::Medium => 10_000_000u32,
                AiPower::Large => 100_000_000u32,
            },
    {
        match *self {
            AiPower::Small => 1_000_000,
            AiPower::Medium => 10_000_000,
            AiPower::Large => 100_000_000,
        }
    }
}

impl Default for PlayerKind {
    fn default() -> (r: PlayerKind)
        ensures
            r == PlayerKind::Human,
    {
        PlayerKind::Human
    }
}

/// Every player kind, in menu order.
pub open spec fn all_player_kinds() -> Seq<PlayerKind> {
    seq![
        PlayerKind::Human,
        PlayerKind::Ai(AiKind::Random),
        PlayerKind::Ai(AiKind::AlphaBetaStrong(AiPower::Small)),
        PlayerKind::Ai(AiKind::AlphaBetaStrong(AiPower::Medium)),
        PlayerKind::Ai(AiKind::AlphaBetaStrong(AiPower::Large)),
        PlayerKind::Ai(AiKind::AlphaBetaEven(AiPower::Small)),
        PlayerKind::Ai(AiKind::AlphaBetaEven(AiPower::Medium)),
        PlayerKind::Ai(AiKind::AlphaBetaEven(AiPower::Large)),
        PlayerKind::Ai(AiKind::AlphaBetaWeak(AiPower::Small)),
        PlayerKind::Ai(AiKind::AlphaBetaWeak(AiPower::Medium)),
        PlayerKind::Ai(AiKind::AlphaBetaWeak(AiPower::Large)),
    ]
}

impl PlayerKind {
    /// Every player kind, in menu order.
    pub fn all_values() -> (r: [Self; 11])
        ensures
            r@ == all_player_kinds(),
    {
        let r = [
            PlayerKind::Human,
            PlayerKind::Ai(AiKind::Random),
            PlayerKind::Ai(AiKind::AlphaBetaStrong(AiPower::Small)),
            PlayerKind::Ai(AiKind::AlphaBetaStrong(AiPower::Medium)),
            PlayerKind::Ai(AiKind::AlphaBetaStrong(AiPower::Large)),
            PlayerKind::Ai(AiKind::AlphaBetaEven(AiPower::Small)),
            PlayerKind::Ai(AiKind::AlphaBetaEven(AiPower::Medium)),
            PlayerKind::Ai(AiKind::AlphaBetaEven(AiPower::Large)),
            PlayerKind::Ai(AiKind::AlphaBetaWeak(AiPower::Small)),
            PlayerKind::Ai(AiKind::AlphaBetaWeak(AiPower::Medium)),
            PlayerKind::Ai(AiKind::AlphaBetaWeak(AiPower::Large)),
        ];
        assert(r@ =~= all_player_kinds());
        r
    }

    /// The position of the kind in `all_values`.
    pub fn to_index(&self) -> (r: usize)
        ensures
            r < 11,
            all_player_kinds()[r as int] == *self,
    {
        match *self {
            PlayerKind::Human => 0,
            PlayerKind::Ai(AiKind::Random) => 1,
            PlayerKind::Ai(AiKind::AlphaBetaStrong(AiPower::Small)) => 2,
            PlayerKind::Ai(AiKind::AlphaBetaStrong(AiPower::Medium)) => 3,
            PlayerKind::Ai(AiKind::AlphaBetaStrong(AiPower::Large)) => 4,
            PlayerKind::Ai(AiKind::AlphaBetaEven(AiPower::Small)) => 5,
            PlayerKind::Ai(AiKind::AlphaBetaEven(AiPower::Medium)) => 6,
            PlayerKind::Ai(AiKind::AlphaBetaEven(AiPower::Large)) => 7,
            PlayerKind::Ai(AiKind::AlphaBetaWeak(AiPower::Small)) => 8,
            PlayerKind::Ai(AiKind::AlphaBetaWeak(AiPower::Medium)) => 9,
            PlayerKind::Ai(AiKind::AlphaBetaWeak(AiPower::Large)) => 10,
        }
    }

    /// The menu label of the kind.
    pub fn as_str(&self) -> &'static str {
        match *self {
            PlayerKind::Human => "Human",
            PlayerKind::Ai(AiKind::Random) => "AI: random",
            PlayerKind::Ai(AiKind::AlphaBetaStrong(AiPower::Small)) => "AI: alpha-beta strong S",
            PlayerKind::Ai(AiKind::AlphaBetaStrong(AiPower::Medium)) => "AI: alpha-beta strong M",
            PlayerKind::Ai(AiKind::AlphaBetaStrong(AiPower::Large)) => "AI: alpha-beta strong L",
            PlayerKind::Ai(AiKind::AlphaBetaEven(AiPower::Small)) => "AI: alpha-beta even S",
            PlayerKind::Ai(AiKind::AlphaBetaEven(AiPower::Medium)) => "AI: alpha-beta even M",
            PlayerKind::Ai(AiKind::AlphaBetaEven(AiPower::Large)) => "AI: alpha-beta even L",
            PlayerKind::Ai(AiKind::AlphaBetaWeak(AiPower::Small)) => "AI: alpha-beta weak S",
            PlayerKind::Ai(AiKind::AlphaBetaWeak(AiPower::Medium)) => "AI: alpha-beta weak M",
            PlayerKind::Ai(AiKind::AlphaBetaWeak(AiPower::Large)) => "AI: alpha-beta weak L",
        }
    }
}

/// A move selector: given a board on which it is to move, picks a legal
/// move.
pub trait FindMove {
    /// The selector may be asked for a move on `board`.
    spec fn can_play(&self, board: Board) -> bool;

    /// Which of the legal moves of `board` the selector may pick.
    spec fn chosen(&self, board: Board, pt: Point) -> bool;

    /// One of the board's legal moves, as the selector chooses it.
    fn find_move(&mut self, board: Board) -> (r: Point)
        requires
            old(self).can_play(board),
            board.wf(),
            board@.candidates() != Set::<int>::empty(),
        ensures
            r.within(board@.size),
            board@.candidates().contains(r.spec_offset(board@.size)),
            old(self).chosen(board, r),
    ;
}

/// What the worker of a computer player does next.
#[derive(Copy, Clone, Debug, PartialEq, Eq, Structural)]
pub enum WorkerAction {
    /// The game is over: wait for `Exit`.
    AwaitExit,
    /// The opponent is to move: wait for its move.
    AwaitMove,
    /// Choose a move and play it.
    Play,
}

/// The next step of the worker playing `side` on `board`.
pub fn next_action(board: &Board, side: Side) -> (r: WorkerAction)
    ensures
        r == match board@.turn {
            None => WorkerAction::AwaitExit,
            Some(turn) => if turn == side {
                WorkerAction::Play
            } else {
                WorkerAction::AwaitMove
            },
        },
{
    match board.turn() {
        None => WorkerAction::AwaitExit,
        Some(turn) => {
            if turn == side {
                WorkerAction::Play
            } else {
                WorkerAction::AwaitMove
            }
        },
    }
}

/// What a message does to the worker's board.
#[derive(Copy, Clone, Debug)]
pub enum Received {
    /// Stop.
    Exit,
    /// The board after the reported move.
    Moved(Board),
    /// The reported move is off the board or not legal here.
    Rejected,
}

/// Applies a message to the worker's board: a reported move is played if
/// it is legal, and rejected otherwise.
pub fn receive(board: &Board, msg: Message) -> (r: Received)
    requires
        board.wf(),
    ensures
        match msg {
            Message::Exit => r is Exit,
            Message::MakeMove(_, pt) => if pt.within(board@.size) && board@.candidates().contains(
                pt.spec_offset(board@.size),
            ) {
                r is Moved && r->Moved_0.wf() && r->Moved_0@ == board@.play(
                    pt.spec_offset(board@.size),
                )
            } else {
                r is Rejected
            },
        },
{
    match msg {
        Message::Exit => Received::Exit,
        Message::MakeMove(_, pt) => {
            let size = board.size();
            if pt.0 < size.0 && pt.1 < size.1 {
                match board.make_move(pt) {
                    Some(next) => Received::Moved(next),
                    None => Received::Rejected,
                }
            } else {
                Received::Rejected
            }
        },
    }
}

} // verus!
