//! A computer player that searches the game tree with alpha-beta pruning,
//! bounded by a budget of evaluations rather than by a depth.

use crate::bit_board::ascending;
use crate::board::Board;
use crate::evaluator::{Evaluate, Score, MAX_SCORE, MIN_SCORE};
use crate::geometry::{Point, Side};
use crate::player::FindMove;
use crate::rules::{
    lemma_disk_count_bound,
    lemma_moves_leave_room,
    lemma_play_adds_one_disk,
    Position,
};
use core::cmp::Ordering;
use vstd::prelude::*;

verus! {

/// The number of empty cells: how many moves the game can still last.
pub open spec fn empty_cells(pos: Position) -> int {
    pos.size.num_cells() - pos.disk_count()
}

/// The alpha-beta value of `pos` for `side` in the window `(alpha, beta)`
/// with a budget of `total / divisor` evaluations; `fuel` bounds the moves
/// still to come.
///
/// At a budget of at most one, or once the game is over, it is the
/// evaluator's score. Otherwise the budget is shared evenly among the legal
/// moves, tried in ascending order: a node where `side` is to move raises
/// `alpha`, one where the opponent is lowers `beta`, and the search cuts off
/// when the window closes.
pub open spec fn search_value<E: Evaluate>(
    ev: E,
    side: Side,
    pos: Position,
    total: int,
    divisor: int,
    alpha: Score,
    beta: Score,
    fuel: nat,
) -> Score
    decreases fuel, 0int,
{
    if total <= divisor || pos.turn is None {
        ev.score_of(pos, side)
    } else if fuel == 0 {
        if pos.turn == Some(side) {
            alpha
        } else {
            beta
        }
    } else {
        let moves = ascending(pos.candidates(), pos.size.num_cells());
        let child_divisor = divisor * pos.candidates().len();
        if pos.turn == Some(side) {
            max_node(ev, side, pos, moves, 0, total, child_divisor, alpha, beta, (fuel - 1) as nat)
        } else {
            min_node(ev, side, pos, moves, 0, total, child_divisor, alpha, beta, (fuel - 1) as nat)
        }
    }
}

/// The moves from index `i` on of a node where `side` is to move.
pub open spec fn max_node<E: Evaluate>(
    ev: E,
    side: Side,
    pos: Position,
    moves: Seq<int>,
    i: int,
    total: int,
    divisor: int,
    alpha: Score,
    beta: Score,
    fuel: nat,
) -> Score
    decreases fuel, moves.len() - i,
{
    if i < 0 || i >= moves.len() {
        alpha
    } else {
        let score = search_value(ev, side, pos.play(moves[i]), total, divisor, alpha, beta, fuel);
        let raised = if alpha.order(score) > 0 {
            alpha
        } else {
            score
        };
        if raised.order(beta) >= 0 {
            beta
        } else {
            max_node(ev, side, pos, moves, i + 1, total, divisor, raised, beta, fuel)
        }
    }
}

/// The moves from index `i` on of a node where the opponent is to move.
pub open spec fn min_node<E: Evaluate>(
    ev: E,
    side: Side,
    pos: Position,
    moves: Seq<int>,
    i: int,
    total: int,
    divisor: int,
    alpha: Score,
    beta: Score,
    fuel: nat,
) -> Score
    decreases fuel, moves.len() - i,
{
    if i < 0 || i >= moves.len() {
        beta
    } else {
        let score = search_value(ev, side, pos.play(moves[i]), total, divisor, alpha, beta, fuel);
        let lowered = if beta.order(score) > 0 {
            score
        } else {
            beta
        };
        if alpha.order(lowered) >= 0 {
            alpha
        } else {
            min_node(ev, side, pos, moves, i + 1, total, divisor, alpha, lowered, fuel)
        }
    }
}

/// Scans the moves from index `i` on, keeping the first move of the best
/// score seen; each move is scored by a full-window search with the budget
/// `num_eval / divisor`.
pub open spec fn pick_move<E: Evaluate>(
    ev: E,
    side: Side,
    pos: Position,
    moves: Seq<int>,
    i: int,
    num_eval: int,
    divisor: int,
    best: int,
    best_score: Score,
) -> int
    decreases moves.len() - i,
{
    if i < 0 || i >= moves.len() {
        best
    } else {
        let child = pos.play(moves[i]);
        let score = search_value(
            ev,
            side,
            child,
            num_eval,
            divisor,
            Score::NegInfinity,
            Score::Infinity,
            empty_cells(child) as nat,
        );
        if i == 0 || score.order(best_score) > 0 {
            pick_move(ev, side, pos, moves, i + 1, num_eval, divisor, moves[i], score)
        } else {
            pick_move(ev, side, pos, moves, i + 1, num_eval, divisor, best, best_score)
        }
    }
}

/// The move that the search picks on `pos`: the first legal move, in
/// ascending order, of the highest alpha-beta score, the budget `num_eval`
/// shared evenly among the legal moves.
pub open spec fn best_move<E: Evaluate>(ev: E, side: Side, pos: Position, num_eval: int) -> int {
    pick_move(
        ev,
        side,
        pos,
        ascending(pos.candidates(), pos.size.num_cells()),
        0,
        num_eval,
        pos.candidates().len() as int,
        -1,
        Score::NegInfinity,
    )
}

/// Chooses moves for `side` by an alpha-beta search that spends at most
/// `num_eval` evaluations per move.
#[derive(Clone, Debug)]
pub struct Player<E> {
    side: Side,
    num_eval: u32,
    evaluator: E,
}

impl<E> Player<E> {
    /// The side the player chooses moves for.
    pub closed spec fn spec_side(&self) -> Side {
        self.side
    }

    /// The evaluation budget per move.
    pub closed spec fn spec_num_eval(&self) -> u32 {
        self.num_eval
    }

    /// The evaluator of leaf positions.
    pub closed spec fn spec_evaluator(&self) -> E {
        self.evaluator
    }

    /// A player for `side` spending `num_eval` evaluations per move.
    pub fn new(side: Side, num_eval: u32, evaluator: E) -> (r: Self)
        ensures
            r.spec_side() == side,
            r.spec_num_eval() == num_eval,
            r.spec_evaluator() == evaluator,
    {
        Player { side, num_eval, evaluator }
    }
}

impl<E: Evaluate> Player<E> {
    fn get_score(&self, board: &Board, total: u64, divisor: u64) -> (r: Score)
        requires
            self.evaluator.wf(),
            board.wf(),
            total <= u32::MAX,
        ensures
            r.valid(),
            r == search_value(
                self.evaluator,
                self.side,
                board@,
                total as int,
                divisor as int,
                Score::NegInfinity,
                Score::Infinity,
                empty_cells(board@) as nat,
            ),
    {
        self.alphabeta(board, total, divisor, MIN_SCORE, MAX_SCORE)
    }

    /// The alpha-beta value of `board` for `self.side` within the window
    /// `(alpha, beta)`, with a budget of `total / divisor` evaluations. The
    /// budget is shared evenly among the moves at each node; at a budget of
    /// at most one, or when the game is over, the position is evaluated.
    /// Whether a node maximises or minimises follows the board's own turn.
    fn alphabeta(&self, board: &Board, total: u64, divisor: u64, alpha: Score, beta: Score) -> (r:
        Score)
        requires
            self.evaluator.wf(),
            board.wf(),
            total <= u32::MAX,
            alpha.valid(),
            beta.valid(),
        ensures
            r.valid(),
            r == search_value(
                self.evaluator,
                self.side,
                board@,
                total as int,
                divisor as int,
                alpha,
                beta,
                empty_cells(board@) as nat,
            ),
        decreases empty_cells(board@),
    {
        proof {
            board.lemma_wf();
            lemma_disk_count_bound(board@);
        }
        if total <= divisor || board.turn().is_none() {
            return self.evaluator.evaluate(board, self.side);
        }
        let cands = board.move_candidates();
        let size = board.size();
        let num_cands = cands.num_bits();
        proof {
            assert(divisor * num_cands <= 0xffff_ffffu64 * 64) by (nonlinear_arith)
                requires
                    divisor < total <= 0xffff_ffffu64,
                    num_cands <= 64,
            ;
        }
        let child_divisor = divisor * num_cands as u64;
        let pts = cands.points(size);
        let ghost moves = ascending(board@.candidates(), size.num_cells());
        let ghost fuel = empty_cells(board@) as nat;
        let ghost ev = self.evaluator;
        let ghost side = self.side;
        proof {
            assert(pts@.map_values(|p: Point| p.spec_offset(size)) == moves);
            assert(pts.len() == moves.len());
            if fuel == 0 && pts.len() > 0 {
                assert(pts[0].within(size));
                lemma_moves_leave_room(board@, pts[0].spec_offset(size));
            }
        }

        let ghost alpha_start = alpha;
        let ghost beta_start = beta;
        if board.turn() == Some(self.side) {
            let mut raised = alpha;
            let mut i: usize = 0;
            while i < pts.len()
                invariant
                    self.evaluator.wf(),
                    ev == self.evaluator,
                    side == self.side,
                    board.wf(),
                    board@.wf(),
                    board@.turn == Some(side),
                    size == board@.size,
                    total <= u32::MAX,
                    total > divisor,
                    raised.valid(),
                    beta.valid(),
                    fuel == empty_cells(board@),
                    alpha_start == alpha,
                    beta_start == beta,
                    pts.len() == moves.len(),
                    pts.len() > 0 ==> fuel > 0,
                    child_divisor == divisor * board@.candidates().len(),
                    moves == ascending(board@.candidates(), size.num_cells()),
                    forall|k: int| 0 <= k < pts.len() ==> pts[k].spec_offset(size) == #[trigger] moves[k],
                    forall|k: int|
                        0 <= k < pts.len() ==> (#[trigger] pts[k]).within(size)
                            && board@.candidates().contains(pts[k].spec_offset(size)),
                    search_value(ev, side, board@, total as int, divisor as int, alpha_start, beta, fuel)
                        == max_node(ev, side, board@, moves, i as int, total as int, child_divisor as int, raised, beta, (fuel - 1) as nat),
                decreases pts.len() - i,
            {
                proof {
                    assert(pts[i as int].within(size));
                    assert(pts[i as int].spec_offset(size) == moves[i as int]);
                    lemma_play_adds_one_disk(board@, pts[i as int].spec_offset(size));
                }
                let next = board.make_move(pts[i]).unwrap();
                proof {
                    next.lemma_wf();
                    lemma_disk_count_bound(next@);
                }
                let score = self.alphabeta(&next, total, child_divisor, raised, beta);
                raised = raised.max(score);
                if !matches!(raised.compare(&beta), Ordering::Less) {
                    return beta;
                }
                i = i + 1;
            }
            raised
        } else {
            let mut lowered = beta;
            let mut i: usize = 0;
            while i < pts.len()
                invariant
                    self.evaluator.wf(),
                    ev == self.evaluator,
                    side == self.side,
                    board.wf(),
                    board@.wf(),
                    board@.turn is Some,
                    board@.turn != Some(side),
                    size == board@.size,
                    total <= u32::MAX,
                    total > divisor,
                    alpha.valid(),
                    lowered.valid(),
                    fuel == empty_cells(board@),
                    alpha_start == alpha,
                    beta_start == beta,
                    pts.len() == moves.len(),
                    pts.len() > 0 ==> fuel > 0,
                    child_divisor == divisor * board@.candidates().len(),
                    moves == ascending(board@.candidates(), size.num_cells()),
                    forall|k: int| 0 <= k < pts.len() ==> pts[k].spec_offset(size) == #[trigger] moves[k],
                    forall|k: int|
                        0 <= k < pts.len() ==> (#[trigger] pts[k]).within(size)
                            && board@.candidates().contains(pts[k].spec_offset(size)),
                    search_value(ev, side, board@, total as int, divisor as int, alpha, beta_start, fuel)
                        == min_node(ev, side, board@, moves, i as int, total as int, child_divisor as int, alpha, lowered, (fuel - 1) as nat),
                decreases pts.len() - i,
            {
                proof {
                    assert(pts[i as int].within(size));
                    assert(pts[i as int].spec_offset(size) == moves[i as int]);
                    lemma_play_adds_one_disk(board@, pts[i as int].spec_offset(size));
                }
                let next = board.make_move(pts[i]).unwrap();
                proof {
                    next.lemma_wf();
                    lemma_disk_count_bound(next@);
                }
                let score = self.alphabeta(&next, total, child_divisor, alpha, lowered);
                lowered = lowered.min(score);
                if !matches!(alpha.compare(&lowered), Ordering::Less) {
                    return alpha;
                }
                i = i + 1;
            }
            lowered
        }
    }
}

impl<E: Evaluate> FindMove for Player<E> {
    open spec fn can_play(&self, board: Board) -> bool {
        self.spec_evaluator().wf() && board@.turn == Some(self.spec_side())
    }

    /// The first legal move of the best alpha-beta score.
    open spec fn chosen(&self, board: Board, pt: Point) -> bool {
        pt.spec_offset(board@.size) == best_move(
            self.spec_evaluator(),
            self.spec_side(),
            board@,
            self.spec_num_eval() as int,
        )
    }

    /// Scores each legal move by an alpha-beta search with the budget shared
    /// evenly among the moves, and plays the first move of the best score.
    fn find_move(&mut self, board: Board) -> (r: Point) {
        let cands = board.move_candidates();
        let size = board.size();
        let num_cands = cands.num_bits();
        proof {
            board.lemma_wf();
            assert(exists|o: int| board@.candidates().contains(o)) by {
                if !(exists|o: int| board@.candidates().contains(o)) {
                    assert(board@.candidates() =~= Set::<int>::empty());
                }
            }
            let o = choose|o: int| board@.candidates().contains(o);
            assert(board@.candidates().contains(o));
        }
        let pts = cands.points(size);
        let ghost moves = ascending(board@.candidates(), size.num_cells());
        let ghost ev = self.evaluator;
        let ghost side = self.side;
        let ghost num_eval = self.num_eval as int;
        proof {
            assert(pts[0].within(size));
            assert(pts@.map_values(|p: Point| p.spec_offset(size)) == moves);
        }
        let mut best_pt = pts[0];
        let mut best_score = MIN_SCORE;
        let mut i: usize = 0;
        while i < pts.len()
            invariant
                self.evaluator.wf(),
                ev == self.evaluator,
                side == self.side,
                num_eval == self.num_eval,
                board.wf(),
                board@.wf(),
                size == board@.size,
                best_score.valid(),
                pts.len() >= 1,
                pts.len() == moves.len(),
                num_cands == board@.candidates().len(),
                moves == ascending(board@.candidates(), size.num_cells()),
                best_pt.within(size),
                board@.candidates().contains(best_pt.spec_offset(size)),
                forall|k: int| 0 <= k < pts.len() ==> pts[k].spec_offset(size) == #[trigger] moves[k],
                forall|k: int|
                    0 <= k < pts.len() ==> (#[trigger] pts[k]).within(size)
                        && board@.candidates().contains(pts[k].spec_offset(size)),
                i == 0 ==> pick_move(ev, side, board@, moves, 0, num_eval, num_cands as int, -1, Score::NegInfinity)
                    == pick_move(ev, side, board@, moves, 0, num_eval, num_cands as int, best_pt.spec_offset(size), best_score),
                pick_move(ev, side, board@, moves, 0, num_eval, num_cands as int, -1, Score::NegInfinity)
                    == pick_move(ev, side, board@, moves, i as int, num_eval, num_cands as int, best_pt.spec_offset(size), best_score),
            decreases pts.len() - i,
        {
            let pt = pts[i];
            proof {
                assert(pts[i as int].within(size));
                assert(pts[i as int].spec_offset(size) == moves[i as int]);
            }
            let next = board.make_move(pt).unwrap();
            let score = self.get_score(&next, self.num_eval as u64, num_cands as u64);
            if i == 0 || matches!(score.compare(&best_score), Ordering::Greater) {
                best_pt = pt;
                best_score = score;
            }
            i = i + 1;
        }
        best_pt
    }
}

} // verus!
