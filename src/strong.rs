//! The positional evaluator: classic Othello cell weights mirrored into the
//! four corners of the grid, plus mobility.

use crate::bit_board::BitBoard;
use crate::board::Board;
use crate::evaluator::{Evaluate, Score};
use crate::geometry::{Point, Side, Size};
use crate::multi_direction::lemma_region_cells;
use crate::rules::{lemma_disk_count_bound, Position};
use vstd::prelude::*;

verus! {

/// The coordinate `c` of a line of `n` cells folded onto its first half.
pub open spec fn fold(c: int, n: int) -> int {
    if c <= n - 1 - c {
        c
    } else {
        n - 1 - c
    }
}

/// The cells whose image in the upper-left quarter of the grid (under the
/// horizontal and vertical mirrors) lies in `mask`.
pub open spec fn mirrored(mask: Set<int>, size: Size) -> Set<int> {
    Set::new(
        |o: int|
            0 <= o < size.num_cells() && mask.contains(
                size.off(fold(size.col(o), size.0 as int), fold(size.row(o), size.1 as int)),
            ),
    )
}

/// The cells of the grid among the given coordinates.
pub open spec fn point_set(size: Size, pts: Set<(int, int)>) -> Set<int> {
    Set::new(|o: int| 0 <= o < size.num_cells() && pts.contains((size.col(o), size.row(o))))
}

/// The weight classes: corners +30; far edge and box cells -1; inner edge
/// cells -3; edge cells next to a corner -12; the diagonal neighbour of a
/// corner -15.
pub open spec fn standard_weights(size: Size) -> Seq<(int, Set<int>)> {
    seq![
        (30, mirrored(point_set(size, set![(0, 0)]), size)),
        (
            -1,
            mirrored(point_set(size, set![(0, 3), (3, 0)]), size).union(
                mirrored(point_set(size, set![(3, 2), (2, 3)]), size),
            ).union(mirrored(point_set(size, set![(3, 3)]), size)),
        ),
        (
            -3,
            mirrored(point_set(size, set![(2, 1), (1, 2)]), size).union(
                mirrored(point_set(size, set![(3, 1), (1, 3)]), size),
            ),
        ),
        (-12, mirrored(point_set(size, set![(0, 1), (1, 0)]), size)),
        (-15, mirrored(point_set(size, set![(1, 1)]), size)),
    ]
}

/// `Σ weight * |mask ∩ s|` over the weights.
pub open spec fn weighted_count(ws: Seq<(i32, BitBoard)>, s: Set<int>) -> int
    decreases ws.len(),
{
    if ws.len() == 0 {
        0
    } else {
        weighted_count(ws.drop_last(), s) + ws.last().0 * ws.last().1@.intersect(s).len()
    }
}

/// The evaluation of a position for `myside` under the weights `ws`.
///
/// While the game goes on it is `disk / n + mobility / 10` as an exact
/// fraction, with `disk` the weighted disks of black less those of white,
/// `n` the number of disks and `mobility` the number of legal moves, counted
/// for black when black is to move and against it otherwise; the sign is
/// turned for white. Once the game is over it is the disk difference.
pub open spec fn strong_score(ws: Seq<(i32, BitBoard)>, pos: Position, myside: Side) -> Score {
    match pos.turn {
        Some(turn) => {
            let num_disk = pos.black.union(pos.white).len() as int;
            let disk = weighted_count(ws, pos.black) - weighted_count(ws, pos.white);
            let cand = if turn == Side::Black {
                pos.candidates().len() as int
            } else {
                -(pos.candidates().len() as int)
            };
            let black_num = 10 * disk + num_disk * cand;
            Score::Running(
                (if myside == Side::Black {
                    black_num
                } else {
                    -black_num
                }) as i64,
                (10 * num_disk) as i64,
            )
        },
        None => {
            let d = pos.black.len() - pos.white.len();
            Score::Ended(
                (if myside == Side::Black {
                    d
                } else {
                    -d
                }) as i32,
            )
        },
    }
}

/// Scores positions by weighted disk placement and mobility.
#[derive(Clone, Debug)]
pub struct Evaluator {
    weights: Vec<(i32, BitBoard)>,
}

/// The cell `(x, y)` alone, or nothing when it is off the grid.
fn cell_mask(x: u32, y: u32, size: Size) -> (r: BitBoard)
    requires
        size.valid(),
    ensures
        r@ == point_set(size, set![(x as int, y as int)]),
{
    proof {
        lemma_region_cells(size);
    }
    if x < size.0 && y < size.1 {
        let r = BitBoard::from_point(Point(x, y), size);
        assert(r@ =~= point_set(size, set![(x as int, y as int)]));
        r
    } else {
        let r = BitBoard::empty();
        assert(r@ =~= point_set(size, set![(x as int, y as int)]));
        r
    }
}

/// The cells whose folded image, taken in column-major order, comes before
/// `(x, y)` and lies in `mask`.
spec fn folded_before(mask: Set<int>, size: Size, x: int, y: int) -> Set<int> {
    Set::new(
        |o: int|
            {
                let fx = fold(size.col(o), size.0 as int);
                let fy = fold(size.row(o), size.1 as int);
                &&& 0 <= o < size.num_cells()
                &&& fx < x || (fx == x && fy < y)
                &&& mask.contains(size.off(fx, fy))
            },
    )
}

proof fn lemma_fold(c: int, n: int, x: int)
    requires
        0 <= c < n,
        0 <= x < n - n / 2,
    ensures
        (fold(c, n) == x) == (c == x || c == n - 1 - x),
        0 <= fold(c, n) < n - n / 2,
{
}

/// `mask` mirrored onto the whole grid from its upper-left quarter.
fn weight_mask(mask: BitBoard, size: Size) -> (r: BitBoard)
    requires
        size.valid(),
    ensures
        r@ == mirrored(mask@, size),
{
    let mut out_mask = BitBoard::empty();
    let w = size.0;
    let h = size.1;
    let ul_size = (w / 2, h / 2);
    let dr_size = (w - ul_size.0, h - ul_size.1);
    proof {
        lemma_region_cells(size);
        assert(out_mask@ =~= folded_before(mask@, size, 0, 0));
    }
    let mut x: u32 = 0;
    while x < dr_size.0
        invariant
            size.valid(),
            w == size.0,
            h == size.1,
            dr_size.0 == w - w / 2,
            dr_size.1 == h - h / 2,
            x <= dr_size.0,
            out_mask@ == folded_before(mask@, size, x as int, 0),
        decreases dr_size.0 - x,
    {
        let rx = w - x - 1;
        let mut y: u32 = 0;
        while y < dr_size.1
            invariant
                size.valid(),
                w == size.0,
                h == size.1,
                dr_size.0 == w - w / 2,
                dr_size.1 == h - h / 2,
                x < dr_size.0,
                rx == w - x - 1,
                y <= dr_size.1,
                out_mask@ == folded_before(mask@, size, x as int, y as int),
            decreases dr_size.1 - y,
        {
            let ry = h - y - 1;
            if mask.contains(Point(x, y), size) {
                let four = BitBoard::from_point(Point(x, y), size).union(
                    BitBoard::from_point(Point(rx, y), size),
                ).union(BitBoard::from_point(Point(x, ry), size)).union(
                    BitBoard::from_point(Point(rx, ry), size),
                );
                let ghost before = out_mask@;
                out_mask = out_mask.union(four);
                proof {
                    lemma_region_cells(size);
                    let next = folded_before(mask@, size, x as int, y + 1);
                    assert forall|o: int| out_mask@.contains(o) <==> next.contains(o) by {
                        if 0 <= o < size.num_cells() {
                            lemma_fold(size.col(o), w as int, x as int);
                            lemma_fold(size.row(o), h as int, y as int);
                        }
                        if four@.contains(o) {
                            lemma_fold(size.col(o), w as int, x as int);
                            lemma_fold(size.row(o), h as int, y as int);
                        }
                    }
                    assert(out_mask@ =~= next);
                }
            } else {
                proof {
                    lemma_region_cells(size);
                    let next = folded_before(mask@, size, x as int, y + 1);
                    assert forall|o: int| out_mask@.contains(o) <==> next.contains(o) by {
                        if 0 <= o < size.num_cells() {
                            lemma_fold(size.col(o), w as int, x as int);
                            lemma_fold(size.row(o), h as int, y as int);
                        }
                    }
                    assert(out_mask@ =~= next);
                }
            }
            y = y + 1;
        }
        proof {
            lemma_region_cells(size);
            let next = folded_before(mask@, size, x + 1, 0);
            assert forall|o: int| out_mask@.contains(o) <==> next.contains(o) by {
                if 0 <= o < size.num_cells() {
                    crate::geometry::lemma_offset_cell(size, o);
                    lemma_fold(size.row(o), h as int, 0);
                }
            }
            assert(out_mask@ =~= next);
        }
        x = x + 1;
    }
    proof {
        lemma_region_cells(size);
        assert forall|o: int| out_mask@.contains(o) <==> mirrored(mask@, size).contains(o) by {
            if 0 <= o < size.num_cells() {
                lemma_fold(size.col(o), w as int, 0);
            }
        }
        assert(out_mask@ =~= mirrored(mask@, size));
    }
    out_mask
}

impl Evaluator {
    /// The weights, each with the set of cells it applies to.
    pub closed spec fn spec_weights(&self) -> Seq<(i32, BitBoard)> {
        self.weights@
    }

    /// The evaluator for a grid of the given size.
    pub fn new(size: Size) -> (r: Self)
        requires
            size.valid(),
        ensures
            r.wf(),
            r.spec_weights().len() == 5,
            forall|i: int|
                0 <= i < 5 ==> #[trigger] r.spec_weights()[i].0 == standard_weights(size)[i].0
                    && r.spec_weights()[i].1@ == standard_weights(size)[i].1,
    {
        // c  : corner
        // e? : edge
        // i? : iedge
        // b? : box
        //    0  1  2  3  .. |
        // 0: c  eC eA eB    |  30 -12  0 -1
        // 1: eC eX iC iA    | -12 -15 -3 -3
        // 2: eA iC iX bC    |   0 - 3  0 -1
        // 3: eB iA bC bX    | - 1 - 3 -1 -1
        // ..
        let corner_mask = weight_mask(cell_mask(0, 0, size), size);
        let edge_c_mask = weight_mask(cell_mask(0, 1, size).union(cell_mask(1, 0, size)), size);
        let edge_b_mask = weight_mask(cell_mask(0, 3, size).union(cell_mask(3, 0, size)), size);
        let edge_x_mask = weight_mask(cell_mask(1, 1, size), size);
        let iedge_c_mask = weight_mask(cell_mask(2, 1, size).union(cell_mask(1, 2, size)), size);
        let iedge_a_mask = weight_mask(cell_mask(3, 1, size).union(cell_mask(1, 3, size)), size);
        let box_c_mask = weight_mask(cell_mask(3, 2, size).union(cell_mask(2, 3, size)), size);
        let box_x_mask = weight_mask(cell_mask(3, 3, size), size);

        let weights = vec![
            (30i32, corner_mask),
            (-1i32, edge_b_mask.union(box_c_mask).union(box_x_mask)),
            (-3i32, iedge_c_mask.union(iedge_a_mask)),
            (-12i32, edge_c_mask),
            (-15i32, edge_x_mask),
        ];
        proof {
            assert(set![(0int, 1int)].union(set![(1int, 0int)]) =~= set![(0int, 1int), (1int, 0int)]);
            assert(set![(0int, 3int)].union(set![(3int, 0int)]) =~= set![(0int, 3int), (3int, 0int)]);
            assert(set![(2int, 1int)].union(set![(1int, 2int)]) =~= set![(2int, 1int), (1int, 2int)]);
            assert(set![(3int, 1int)].union(set![(1int, 3int)]) =~= set![(3int, 1int), (1int, 3int)]);
            assert(set![(3int, 2int)].union(set![(2int, 3int)]) =~= set![(3int, 2int), (2int, 3int)]);
            assert(point_set(size, set![(0, 1)]).union(point_set(size, set![(1, 0)])) =~= point_set(size, set![(0, 1), (1, 0)]));
            assert(point_set(size, set![(0, 3)]).union(point_set(size, set![(3, 0)])) =~= point_set(size, set![(0, 3), (3, 0)]));
            assert(point_set(size, set![(2, 1)]).union(point_set(size, set![(1, 2)])) =~= point_set(size, set![(2, 1), (1, 2)]));
            assert(point_set(size, set![(3, 1)]).union(point_set(size, set![(1, 3)])) =~= point_set(size, set![(3, 1), (1, 3)]));
            assert(point_set(size, set![(3, 2)]).union(point_set(size, set![(2, 3)])) =~= point_set(size, set![(3, 2), (2, 3)]));
        }
        Evaluator { weights }
    }

    /// Five weights, each between -30 and 30.
    pub closed spec fn wf_weights(&self) -> bool {
        &&& self.weights@.len() == 5
        &&& forall|i: int| 0 <= i < 5 ==> -30 <= #[trigger] self.weights@[i].0 <= 30
    }

    /// `Σ weight * |mask ∩ black|` less the same for white.
    fn eval_disk_place(&self, board: &Board) -> (r: i64)
        requires
            self.wf_weights(),
        ensures
            r == weighted_count(self.weights@, board@.black) - weighted_count(
                self.weights@,
                board@.white,
            ),
            -20000 <= r <= 20000,
    {
        let black_cells = board.black_cells();
        let white_cells = board.white_cells();
        let mut black: i64 = 0;
        let mut white: i64 = 0;
        let mut i: usize = 0;
        while i < self.weights.len()
            invariant
                self.wf_weights(),
                black_cells@ == board@.black,
                white_cells@ == board@.white,
                i <= self.weights@.len(),
                black == weighted_count(self.weights@.take(i as int), board@.black),
                white == weighted_count(self.weights@.take(i as int), board@.white),
                -1920 * i <= black <= 1920 * i,
                -1920 * i <= white <= 1920 * i,
            decreases self.weights@.len() - i,
        {
            let (val, mask) = self.weights[i];
            let nb = mask.intersection(black_cells).num_bits();
            let nw = mask.intersection(white_cells).num_bits();
            proof {
                assert(-30 <= val <= 30);
                assert(-1920 <= val * nb <= 1920) by (nonlinear_arith)
                    requires
                        -30 <= val <= 30,
                        0 <= nb <= 64,
                ;
                assert(-1920 <= val * nw <= 1920) by (nonlinear_arith)
                    requires
                        -30 <= val <= 30,
                        0 <= nw <= 64,
                ;
                assert(self.weights@.take(i + 1).drop_last() =~= self.weights@.take(i as int));
            }
            black = black + val as i64 * nb as i64;
            white = white + val as i64 * nw as i64;
            i = i + 1;
        }
        proof {
            assert(self.weights@.take(5) =~= self.weights@);
        }
        black - white
    }

    /// The number of legal moves, counted for black when black is to move
    /// and against it when white is.
    fn eval_move_candidates(&self, board: &Board) -> (r: i64)
        requires
            board.wf(),
        ensures
            r == match board@.turn {
                Some(Side::Black) => board@.candidates().len() as int,
                Some(Side::White) => -(board@.candidates().len() as int),
                None => 0,
            },
            -64 <= r <= 64,
    {
        let num_cand = board.move_candidates().num_bits() as i64;
        match board.turn() {
            Some(Side::Black) => num_cand,
            Some(Side::White) => -num_cand,
            None => 0,
        }
    }
}

impl Evaluate for Evaluator {
    open spec fn wf(&self) -> bool {
        self.wf_weights()
    }

    open spec fn score_of(&self, pos: Position, myside: Side) -> Score {
        strong_score(self.spec_weights(), pos, myside)
    }

    fn evaluate(&self, board: &Board, myside: Side) -> (r: Score) {
        proof {
            board.lemma_wf();
            lemma_disk_count_bound(board@);
            vstd::set_lib::lemma_set_disjoint_lens(board@.black, board@.white);
        }
        match board.turn() {
            Some(_) => {
                let num_disk = board.black_cells().union(board.white_cells()).num_bits() as i64;
                let disk_score = self.eval_disk_place(board);
                let cand_score = self.eval_move_candidates(board);
                proof {
                    assert(board@.black.union(board@.white) == board@.black + board@.white);
                    assert(-4096 <= num_disk * cand_score <= 4096) by (nonlinear_arith)
                        requires
                            0 <= num_disk <= 64,
                            -64 <= cand_score <= 64,
                    ;
                }
                let black_score = 10 * disk_score + num_disk * cand_score;
                let score = match myside {
                    Side::Black => black_score,
                    Side::White => -black_score,
                };
                Score::Running(score, 10 * num_disk)
            },
            None => {
                let black = board.black_cells().num_bits() as i32;
                let white = board.white_cells().num_bits() as i32;
                let black_score = black - white;
                let score = match myside {
                    Side::Black => black_score,
                    Side::White => -black_score,
                };
                Score::Ended(score)
            },
        }
    }
}

} // verus!
