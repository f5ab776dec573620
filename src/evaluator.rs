//! Scores of positions and the interface of position evaluators.

use crate::board::Board;
use crate::geometry::Side;
use crate::rules::Position;
use core::cmp::Ordering;
use vstd::prelude::*;

verus! {

/// The largest magnitude of a score's numbers.
pub const SCORE_LIMIT: i64 = 1_000_000_000;

/// The value of a position for one side.
///
/// `Running(num, den)` is the heuristic estimate `num / den` of a game still
/// going on; `Ended(d)` is the final disk difference of a finished game.
/// `NegInfinity` and `Infinity` only bound search windows.
#[derive(Copy, Clone, Debug)]
pub enum Score {
    NegInfinity,
    Infinity,
    Running(i64, i64),
    Ended(i32),
}

/// The lowest score.
pub const MIN_SCORE: Score = Score::NegInfinity;

/// The highest score.
pub const MAX_SCORE: Score = Score::Infinity;

/// The sign of `v`: `-1`, `0` or `1`.
pub open spec fn sign(v: int) -> int {
    if v < 0 {
        -1
    } else if v > 0 {
        1
    } else {
        0
    }
}

impl Score {
    /// A positive denominator, and every number within `SCORE_LIMIT`.
    pub open spec fn valid(self) -> bool {
        match self {
            Score::Running(num, den) => 0 < den <= SCORE_LIMIT && -SCORE_LIMIT <= num
                <= SCORE_LIMIT,
            Score::Ended(d) => -SCORE_LIMIT <= d <= SCORE_LIMIT,
            _ => true,
        }
    }

    /// How `self` compares with `other`: `-1` below, `0` level, `1` above.
    /// The infinities bound everything; running scores compare as numbers,
    /// as do ended ones; a won or lost game beats or yields to any running
    /// score, and a drawn one compares with it by the running score's sign.
    pub open spec fn order(self, other: Score) -> int {
        match self {
            Score::NegInfinity => match other {
                Score::NegInfinity => 0,
                _ => -1,
            },
            Score::Infinity => match other {
                Score::Infinity => 0,
                _ => 1,
            },
            Score::Running(a, b) => match other {
                Score::NegInfinity => 1,
                Score::Infinity => -1,
                Score::Running(c, d) => sign(a * d - c * b),
                Score::Ended(e) => if e < 0 {
                    1
                } else if e > 0 {
                    -1
                } else {
                    sign(a as int)
                },
            },
            Score::Ended(s) => match other {
                Score::NegInfinity => 1,
                Score::Infinity => -1,
                Score::Running(c, _) => if s < 0 {
                    -1
                } else if s > 0 {
                    1
                } else {
                    -sign(c as int)
                },
                Score::Ended(e) => sign(s - e),
            },
        }
    }

    /// Compares two scores by `order`.
    pub fn compare(&self, other: &Score) -> (r: Ordering)
        requires
            self.valid(),
            other.valid(),
        ensures
            (r == Ordering::Less) == (self.order(*other) < 0),
            (r == Ordering::Equal) == (self.order(*other) == 0),
            (r == Ordering::Greater) == (self.order(*other) > 0),
    {
        match (*self, *other) {
            (Score::NegInfinity, Score::NegInfinity) => Ordering::Equal,
            (Score::Infinity, Score::Infinity) => Ordering::Equal,
            (Score::NegInfinity, _) => Ordering::Less,
            (_, Score::Infinity) => Ordering::Less,
            (_, Score::NegInfinity) => Ordering::Greater,
            (Score::Infinity, _) => Ordering::Greater,
            (Score::Running(a, b), Score::Running(c, d)) => {
                proof {
                    assert(-SCORE_LIMIT * SCORE_LIMIT <= a * d <= SCORE_LIMIT * SCORE_LIMIT)
                        by (nonlinear_arith)
                        requires
                            0 < d <= SCORE_LIMIT,
                            -SCORE_LIMIT <= a <= SCORE_LIMIT,
                    ;
                    assert(-SCORE_LIMIT * SCORE_LIMIT <= c * b <= SCORE_LIMIT * SCORE_LIMIT)
                        by (nonlinear_arith)
                        requires
                            0 < b <= SCORE_LIMIT,
                            -SCORE_LIMIT <= c <= SCORE_LIMIT,
                    ;
                }
                let lhs = a * d;
                let rhs = c * b;
                if lhs < rhs {
                    Ordering::Less
                } else if lhs > rhs {
                    Ordering::Greater
                } else {
                    Ordering::Equal
                }
            },
            (Score::Ended(s), Score::Ended(o)) => {
                if s < o {
                    Ordering::Less
                } else if s > o {
                    Ordering::Greater
                } else {
                    Ordering::Equal
                }
            },
            (Score::Running(a, _), Score::Ended(o)) => {
                if o < 0 {
                    Ordering::Greater
                } else if o > 0 {
                    Ordering::Less
                } else if a < 0 {
                    Ordering::Less
                } else if a > 0 {
                    Ordering::Greater
                } else {
                    Ordering::Equal
                }
            },
            (Score::Ended(s), Score::Running(c, _)) => {
                if s < 0 {
                    Ordering::Less
                } else if s > 0 {
                    Ordering::Greater
                } else if c > 0 {
                    Ordering::Less
                } else if c < 0 {
                    Ordering::Greater
                } else {
                    Ordering::Equal
                }
            },
        }
    }

    /// The larger of two scores; `other` when they are level.
    pub fn max(self, other: Score) -> (r: Score)
        requires
            self.valid(),
            other.valid(),
        ensures
            r == if self.order(other) > 0 {
                self
            } else {
                other
            },
    {
        match self.compare(&other) {
            Ordering::Greater => self,
            _ => other,
        }
    }

    /// The smaller of two scores; `self` when they are level.
    pub fn min(self, other: Score) -> (r: Score)
        requires
            self.valid(),
            other.valid(),
        ensures
            r == if self.order(other) > 0 {
                other
            } else {
                self
            },
    {
        match self.compare(&other) {
            Ordering::Greater => other,
            _ => self,
        }
    }
}

/// The infinities bound every running score, and a won game (`Ended(1)`)
/// ranks above any running score, however large.
pub proof fn lemma_score_bounds(num: i64, den: i64)
    requires
        Score::Running(num, den).valid(),
    ensures
        Score::NegInfinity.order(Score::Running(num, den)) < 0,
        Score::Running(num, den).order(Score::Infinity) < 0,
        Score::Ended(1).order(Score::Running(num, den)) > 0,
        Score::Running(num, den).order(Score::Ended(1)) < 0,
{
}

/// A position evaluator.
pub trait Evaluate {
    /// The evaluator is ready for use.
    spec fn wf(&self) -> bool;

    /// The score that the evaluator gives a position, seen from `myside`.
    spec fn score_of(&self, pos: Position, myside: Side) -> Score;

    /// Scores a board from the point of view of `myside`.
    fn evaluate(&self, board: &Board, myside: Side) -> (r: Score)
        requires
            self.wf(),
            board.wf(),
        ensures
            r == self.score_of(board@, myside),
            r.valid(),
            board@.turn is Some ==> r is Running,
            board@.turn is None ==> r is Ended && -board@.size.num_cells() <= r->Ended_0
                <= board@.size.num_cells(),
    ;
}

} // verus!
