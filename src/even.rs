//! An evaluator that seeks level games: any advantage, for either side,
//! counts against the position.

use crate::board::Board;
use crate::evaluator::{Evaluate, Score};
use crate::geometry::{Side, Size};
use crate::rules::Position;
use crate::strong::Evaluator as StrongEvaluator;
use vstd::prelude::*;

verus! {

/// `score` with its number made non-positive: `-|v|`.
pub open spec fn levelled(score: Score) -> Score {
    match score {
        Score::Running(num, den) => Score::Running(
            (if num < 0 {
                num as int
            } else {
                -num
            }) as i64,
            den,
        ),
        Score::Ended(d) => Score::Ended(
            (if d < 0 {
                d as int
            } else {
                -d
            }) as i32,
        ),
        other => other,
    }
}

/// Scores a position by how far it is from a level game.
#[derive(Clone, Debug)]
pub struct Evaluator {
    strong: StrongEvaluator,
}

impl Evaluator {
    /// The evaluator for a grid of the given size.
    pub fn new(size: Size) -> (r: Self)
        requires
            size.valid(),
        ensures
            r.wf(),
    {
        Evaluator { strong: StrongEvaluator::new(size) }
    }
}

impl Evaluate for Evaluator {
    closed spec fn wf(&self) -> bool {
        self.strong.wf()
    }

    closed spec fn score_of(&self, pos: Position, myside: Side) -> Score {
        levelled(self.strong.score_of(pos, myside))
    }

    fn evaluate(&self, board: &Board, myside: Side) -> (r: Score) {
        match self.strong.evaluate(board, myside) {
            Score::Infinity => Score::Infinity,
            Score::NegInfinity => Score::NegInfinity,
            Score::Running(v, d) => Score::Running(
                if v < 0 {
                    v
                } else {
                    -v
                },
                d,
            ),
            Score::Ended(v) => Score::Ended(
                if v < 0 {
                    v
                } else {
                    -v
                },
            ),
        }
    }
}

} // verus!
