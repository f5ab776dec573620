//! A computer player that picks one of its legal moves at random.

use crate::board::Board;
use crate::geometry::Point;
use crate::player::FindMove;
use rand::Rng;
use vstd::prelude::*;

verus! {

/// Relies on `rand::thread_rng` and `Rng::gen_range`: a number drawn from
/// `0 .. n`, which must not be empty.
#[verifier::external_body]
fn random_below(n: usize) -> (r: usize)
    requires
        n > 0,
    ensures
        r < n,
{
    rand::thread_rng().gen_range(0..n)
}

/// Plays a uniformly random legal move.
#[derive(Clone, Debug)]
pub struct Player {}

impl Player {
    /// A random player.
    pub fn new() -> Self {
        Player {  }
    }
}

impl FindMove for Player {
    open spec fn can_play(&self, board: Board) -> bool {
        true
    }

    /// Any legal move.
    open spec fn chosen(&self, board: Board, pt: Point) -> bool {
        true
    }

    fn find_move(&mut self, board: Board) -> (r: Point) {
        let size = board.size();
        proof {
            board.lemma_wf();
        }
        let pts = board.move_candidates().points(size);
        proof {
            assert(exists|o: int| board@.candidates().contains(o)) by {
                if !(exists|o: int| board@.candidates().contains(o)) {
                    assert(board@.candidates() =~= Set::<int>::empty());
                }
            }
            let o = choose|o: int| board@.candidates().contains(o);
            assert(board@.candidates().contains(o));
        }
        let i = random_below(pts.len());
        proof {
            assert(pts[i as int].within(size));
        }
        pts[i]
    }
}

} // verus!
