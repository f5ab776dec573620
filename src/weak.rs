//! An evaluator that plays to lose: it scores positions for the opponent.

use crate::board::Board;
use crate::evaluator::{Evaluate, Score};
use crate::geometry::{Side, Size};
use crate::rules::Position;
use crate::strong::Evaluator as StrongEvaluator;
use vstd::prelude::*;

verus! {

/// Scores a position as the positional evaluator would for the other side.
#[derive(Clone, Debug)]
pub struct Evaluator {
    strong: StrongEvaluator,
}

impl Evaluator {
    /// The evaluator for a grid of the given size.
    pub fn new(size: Size) -> (r: Self)
        requires
            size.valid(),
        ensures
            r.wf(),
    {
        Evaluator { strong: StrongEvaluator::new(size) }
    }
}

impl Evaluate for Evaluator {
    closed spec fn wf(&self) -> bool {
        self.strong.wf()
    }

    closed spec fn score_of(&self, pos: Position, myside: Side) -> Score {
        self.strong.score_of(pos, myside.opponent())
    }

    fn evaluate(&self, board: &Board, myside: Side) -> (r: Score) {
        self.strong.evaluate(board, myside.flip())
    }
}

} // verus!
