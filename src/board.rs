//! The game state: the disks of both sides, the side to move and its legal
//! moves, with the move and turn rules over bit-sets.

use crate::bit_board::{lemma_view_finite, region, BitBoard};
use crate::geometry::{Point, Side, Size, MAX_SIZE};
use crate::multi_direction::{
    dir_dx,
    dir_dy,
    lemma_moved_succ,
    lemma_moved_zero,
    lemma_region_cells,
    moved,
    step,
    MdMask,
    MdOffset,
};
use crate::rules::{
    captured,
    flanks,
    holds,
    is_direction,
    legal_moves,
    lemma_dir_index,
    lemma_play_adds_one_disk,
    lemma_play_wf,
    Position,
};
use vstd::prelude::*;

verus! {

/// `s` holds the cell `n` steps from the cell at offset `o`, going against
/// direction `k`.
spec fn back_holds(size: Size, s: Set<int>, o: int, k: int, n: int) -> bool {
    holds(size, s, step(size.col(o), dir_dx(k), -n), step(size.row(o), dir_dy(k), -n))
}

/// Empty cells behind which, against direction `k`, lie `i` disks of `you`.
spec fn behind_run(size: Size, me: Set<int>, you: Set<int>, k: int, i: int) -> Set<int> {
    Set::new(
        |o: int|
            0 <= o < size.num_cells() && !me.contains(o) && !you.contains(o) && forall|j: int|
                1 <= j <= i ==> #[trigger] back_holds(size, you, o, k, j),
    )
}

/// Against direction `k`, the empty cell `o` sees `n >= 1` disks of `you`
/// and then one of `me`.
spec fn run_back(size: Size, me: Set<int>, you: Set<int>, o: int, k: int, n: int) -> bool {
    &&& 0 <= k < 8
    &&& 1 <= n
    &&& behind_run(size, me, you, k, n).contains(o)
    &&& back_holds(size, me, o, k, n + 1)
}

/// Empty cells that close, in some direction, a run of at most `i` disks.
spec fn closing_cells(size: Size, me: Set<int>, you: Set<int>, i: int) -> Set<int> {
    Set::new(
        |o: int| exists|k: int, n: int| n <= i && #[trigger] run_back(size, me, you, o, k, n),
    )
}

proof fn lemma_behind_run_succ(size: Size, me: Set<int>, you: Set<int>, k: int, i: int)
    requires
        size.valid(),
        0 <= k < 8,
        0 <= i,
    ensures
        behind_run(size, me, you, k, i).intersect(moved(you, size, k, i + 1)) == behind_run(
            size,
            me,
            you,
            k,
            i + 1,
        ),
{
    let lhs = behind_run(size, me, you, k, i).intersect(moved(you, size, k, i + 1));
    let rhs = behind_run(size, me, you, k, i + 1);
    assert forall|o: int| lhs.contains(o) <==> rhs.contains(o) by {
        if lhs.contains(o) {
            assert forall|j: int| 1 <= j <= i + 1 implies #[trigger] back_holds(
                size,
                you,
                o,
                k,
                j,
            ) by {
                if j <= i {
                    assert(behind_run(size, me, you, k, i).contains(o));
                }
            }
        }
        if rhs.contains(o) {
            assert(back_holds(size, you, o, k, i + 1));
        }
    }
    assert(lhs =~= rhs);
}

proof fn lemma_closing_succ(size: Size, me: Set<int>, you: Set<int>, i: int, hit: Set<int>)
    requires
        size.valid(),
        0 <= i,
        hit == Set::new(
            |o: int|
                exists|k: int|
                    0 <= k < 8 && #[trigger] behind_run(size, me, you, k, i + 1).intersect(
                        moved(me, size, k, i + 2),
                    ).contains(o),
        ),
    ensures
        closing_cells(size, me, you, i).union(hit) == closing_cells(size, me, you, i + 1),
{
    let lhs = closing_cells(size, me, you, i).union(hit);
    let rhs = closing_cells(size, me, you, i + 1);
    assert forall|o: int| lhs.contains(o) <==> rhs.contains(o) by {
        if hit.contains(o) {
            let k = choose|k: int|
                0 <= k < 8 && #[trigger] behind_run(size, me, you, k, i + 1).intersect(
                    moved(me, size, k, i + 2),
                ).contains(o);
            assert(run_back(size, me, you, o, k, i + 1));
        }
        if rhs.contains(o) {
            let (k, n) = choose|k: int, n: int| n <= i + 1 && #[trigger] run_back(size, me, you, o, k, n);
            if n == i + 1 {
                assert(behind_run(size, me, you, k, i + 1).intersect(moved(me, size, k, i + 2)).contains(o));
            } else {
                assert(closing_cells(size, me, you, i).contains(o));
            }
        }
    }
    assert(lhs =~= rhs);
}

/// On a grid of at most eight columns and rows a run holds at most six
/// disks, so the cells closing runs of up to six are the legal moves.
proof fn lemma_closing_is_legal(size: Size, me: Set<int>, you: Set<int>)
    requires
        size.valid(),
    ensures
        closing_cells(size, me, you, (MAX_SIZE - 2) as int) == legal_moves(size, me, you),
{
    lemma_region_cells(size);
    let lhs = closing_cells(size, me, you, (MAX_SIZE - 2) as int);
    let rhs = legal_moves(size, me, you);
    assert forall|o: int| lhs.contains(o) implies rhs.contains(o) by {
        let (k, n) = choose|k: int, n: int| n <= 6 && #[trigger] run_back(size, me, you, o, k, n);
        let x = size.col(o);
        let y = size.row(o);
        let dx = -dir_dx(k);
        let dy = -dir_dy(k);
        assert forall|j: int| 1 <= j <= n implies #[trigger] holds(
            size,
            you,
            step(x, dx, j),
            step(y, dy, j),
        ) by {
            assert(back_holds(size, you, o, k, j));
        }
        assert(back_holds(size, me, o, k, n + 1));
        assert(flanks(size, me, you, x, y, dx, dy, n));
    }
    assert forall|o: int| rhs.contains(o) implies lhs.contains(o) by {
        let x = size.col(o);
        let y = size.row(o);
        let (dx, dy, n) = choose|dx: int, dy: int, n: int|
            is_direction(dx, dy) && #[trigger] flanks(size, me, you, x, y, dx, dy, n);
        let k = lemma_dir_index(-dx, -dy);
        assert(holds(size, me, step(x, dx, n + 1), step(y, dy, n + 1)));
        assert(n <= 6);
        assert forall|j: int| 1 <= j <= n implies #[trigger] back_holds(size, you, o, k, j) by {
            assert(holds(size, you, step(x, dx, j), step(y, dy, j)));
        }
        assert(behind_run(size, me, you, k, n).contains(o));
        assert(run_back(size, me, you, o, k, n));
    }
    assert(lhs =~= rhs);
}


/// The cells `1 ..= i` steps from `(x, y)` in direction `k`.
spec fn segment(size: Size, x: int, y: int, k: int, i: int) -> Set<int> {
    Set::new(
        |o: int|
            exists|j: int|
                1 <= j <= i && o == #[trigger] size.off(step(x, dir_dx(k), j), step(y, dir_dy(k), j)),
    )
}

/// The runs in direction `k` from `(x, y)` that are closed within `i` steps.
spec fn closed_runs(size: Size, me: Set<int>, you: Set<int>, x: int, y: int, k: int, i: int) -> Set<
    int,
> {
    Set::new(
        |o: int|
            exists|n: int|
                n + 1 <= i && #[trigger] flanks(size, me, you, x, y, dir_dx(k), dir_dy(k), n)
                    && segment(size, x, y, k, n).contains(o),
    )
}

/// The cell `(x, y)` moved one step in direction `k`, if it stays on the
/// grid.
proof fn lemma_moved_single(size: Size, x: int, y: int, k: int)
    requires
        size.valid(),
        0 <= k < 8,
        size.in_bounds(x, y),
    ensures
        moved(set![size.off(x, y)], size, k, 1) == if size.in_bounds(
            step(x, dir_dx(k), 1),
            step(y, dir_dy(k), 1),
        ) {
            set![size.off(step(x, dir_dx(k), 1), step(y, dir_dy(k), 1))]
        } else {
            Set::<int>::empty()
        },
{
    lemma_region_cells(size);
    let lhs = moved(set![size.off(x, y)], size, k, 1);
    let nx = step(x, dir_dx(k), 1);
    let ny = step(y, dir_dy(k), 1);
    assert forall|o: int| lhs.contains(o) implies size.in_bounds(nx, ny) && o == size.off(nx, ny) by {
        let sx = step(size.col(o), dir_dx(k), -1);
        let sy = step(size.row(o), dir_dy(k), -1);
        assert(size.off(sx, sy) == size.off(x, y));
        assert(size.col(size.off(sx, sy)) == sx);
        assert(size.row(size.off(sx, sy)) == sy);
    }
    if size.in_bounds(nx, ny) {
        assert(lhs.contains(size.off(nx, ny)));
        assert(lhs =~= set![size.off(nx, ny)]);
    } else {
        assert(lhs =~= Set::<int>::empty());
    }
}

/// A run closed from `(x, y)` ends on the grid, so a walk of `cnt` steps,
/// `cnt` at least the distance to the farthest edge, reaches its end.
proof fn lemma_run_within(
    size: Size,
    me: Set<int>,
    you: Set<int>,
    x: int,
    y: int,
    k: int,
    n: int,
    cnt: int,
)
    requires
        size.valid(),
        0 <= k < 8,
        size.in_bounds(x, y),
        flanks(size, me, you, x, y, dir_dx(k), dir_dy(k), n),
        cnt >= x,
        cnt >= MAX_SIZE - x - 1,
        cnt >= y,
        cnt >= MAX_SIZE - y - 1,
    ensures
        n + 1 <= cnt,
{
    assert(holds(size, me, step(x, dir_dx(k), n + 1), step(y, dir_dy(k), n + 1)));
}

/// A game position: the disks of both sides, the side to move, and the
/// legal moves of that side, kept up to date on every move.
#[derive(Copy, Clone, Debug)]
pub struct Board {
    size: Size,
    turn: Option<Side>,
    offset: MdOffset,
    black_cells: BitBoard,
    white_cells: BitBoard,
    move_cand: BitBoard,
}

impl View for Board {
    type V = Position;

    closed spec fn view(&self) -> Position {
        Position {
            size: self.size,
            turn: self.turn,
            black: self.black_cells@,
            white: self.white_cells@,
        }
    }
}

impl Board {
    /// The board's invariant: a well-formed position holding at least the
    /// four opening disks, the direction table of its size, and the legal
    /// moves of the side to move as its candidates.
    pub closed spec fn wf(self) -> bool {
        &&& self@.wf()
        &&& self@.disk_count() >= 4
        &&& self.offset.wf()
        &&& self.offset.spec_size() == self.size
        &&& self.move_cand@ == self@.candidates()
    }

    /// What the invariant says of the position.
    pub proof fn lemma_wf(self)
        requires
            self.wf(),
        ensures
            self@.wf(),
            self@.disk_count() >= 4,
            self@.black.finite(),
            self@.white.finite(),
    {
        lemma_view_finite(self.black_cells);
        lemma_view_finite(self.white_cells);
    }

    /// The opening position of a grid of the given size.
    pub fn new(size: Size) -> (r: Self)
        requires
            size.valid(),
        ensures
            r.wf(),
            r@ == Position::opening(size),
    {
        let x = size.0 / 2 - 1;
        let y = size.1 / 2 - 1;
        let mut board = Board {
            size,
            turn: Some(Side::Black),
            offset: MdOffset::from_size(size),
            black_cells: BitBoard::from_point(Point(x + 1, y), size).union(
                BitBoard::from_point(Point(x, y + 1), size),
            ),
            white_cells: BitBoard::from_point(Point(x, y), size).union(
                BitBoard::from_point(Point(x + 1, y + 1), size),
            ),
            move_cand: BitBoard::empty(),
        };
        proof {
            lemma_region_cells(size);
            let a = size.off(x + 1, y as int);
            let b = size.off(x as int, y + 1);
            let c = size.off(x as int, y as int);
            let d = size.off(x + 1, y + 1);
            assert(a != b && a != c && a != d && b != c && b != d && c != d);
            assert(board@.black =~= Position::opening(size).black);
            assert(board@.white =~= Position::opening(size).white);
            assert(board@ == Position::opening(size));
            assert(board@.black.len() == 2);
            assert(board@.white.len() == 2);
        }
        board.move_cand = board.compute_move_cand();
        board
    }

    /// The grid size.
    pub fn size(&self) -> (r: Size)
        ensures
            r == self@.size,
    {
        self.size
    }

    /// The side to move; `None` once the game is over.
    pub fn turn(&self) -> (r: Option<Side>)
        ensures
            r == self@.turn,
    {
        self.turn
    }

    /// The black disks.
    pub fn black_cells(&self) -> (r: BitBoard)
        ensures
            r@ == self@.black,
    {
        self.black_cells
    }

    /// The white disks.
    pub fn white_cells(&self) -> (r: BitBoard)
        ensures
            r@ == self@.white,
    {
        self.white_cells
    }

    /// The cells where the side to move may play.
    pub fn move_candidates(&self) -> (r: BitBoard)
        requires
            self.wf(),
        ensures
            r@ == self@.candidates(),
    {
        self.move_cand
    }

    /// The number of disks of one side.
    pub fn num_disk(&self, side: Side) -> (r: u32)
        ensures
            r == self@.cells(side).len(),
    {
        match side {
            Side::Black => self.black_cells.num_bits(),
            Side::White => self.white_cells.num_bits(),
        }
    }

    /// The side whose disk lies at `pt`, if any.
    pub fn get(&self, pt: Point) -> (r: Option<Side>)
        requires
            self.wf(),
            pt.within(self@.size),
        ensures
            r == Some(Side::Black) <==> self@.black.contains(pt.spec_offset(self@.size)),
            r == Some(Side::White) <==> self@.white.contains(pt.spec_offset(self@.size)),
            r is None <==> !self@.black.contains(pt.spec_offset(self@.size))
                && !self@.white.contains(pt.spec_offset(self@.size)),
    {
        if self.black_cells.contains(pt, self.size) {
            Some(Side::Black)
        } else if self.white_cells.contains(pt, self.size) {
            Some(Side::White)
        } else {
            None
        }
    }

    /// The position after the side to move plays at `pt`; `None` when the
    /// game is over or `pt` is not one of its legal moves. The board itself
    /// is left as it is.
    pub fn make_move(&self, pt: Point) -> (r: Option<Board>)
        requires
            self.wf(),
            pt.within(self@.size),
        ensures
            r is Some <==> self@.candidates().contains(pt.spec_offset(self@.size)),
            r is Some ==> r.unwrap().wf() && r.unwrap()@ == self@.play(pt.spec_offset(self@.size)),
    {
        let (turn, flip) = match self.flip_disks(pt) {
            Some(found) => found,
            None => {
                return None;
            },
        };
        let ghost o = pt.spec_offset(self.size);
        let ghost target = self@.play(o);
        proof {
            lemma_play_wf(self@, o);
            lemma_play_adds_one_disk(self@, o);
        }

        let mut board = *self;
        match turn {
            Side::Black => {
                board.black_cells = board.black_cells.union(flip);
                board.white_cells = board.white_cells.difference(flip);
            },
            Side::White => {
                board.white_cells = board.white_cells.union(flip);
                board.black_cells = board.black_cells.difference(flip);
            },
        }
        proof {
            assert(board@.black == target.black);
            assert(board@.white == target.white);
        }

        board.turn = Some(turn.flip());
        board.move_cand = board.compute_move_cand();
        if board.move_cand.is_empty() {
            board.turn = Some(turn);
            board.move_cand = board.compute_move_cand();
            if board.move_cand.is_empty() {
                board.turn = None;
                board.move_cand = board.compute_move_cand();
            }
        }
        proof {
            assert(board@ == target);
        }
        Some(board)
    }

    /// For a legal move at `pt`, the side to move and the cells that take
    /// its colour: `pt` and every run of opposing disks that the move closes.
    fn flip_disks(&self, pt: Point) -> (r: Option<(Side, BitBoard)>)
        requires
            self.wf(),
            pt.within(self.size),
        ensures
            r is Some <==> self@.candidates().contains(pt.spec_offset(self.size)),
            r is Some ==> self@.turn == Some(r.unwrap().0) && r.unwrap().1@ == self@.flips(
                pt.spec_offset(self.size),
            ),
    {
        let turn = match self.turn {
            Some(t) => t,
            None => {
                return None;
            },
        };
        if !self.move_cand.contains(pt, self.size) {
            return None;
        }
        let (me, you) = match turn {
            Side::Black => (self.black_cells, self.white_cells),
            Side::White => (self.white_cells, self.black_cells),
        };
        let size = self.size;
        let offset = self.offset;
        let ghost x = pt.0 as int;
        let ghost y = pt.1 as int;
        let ghost p = pt.spec_offset(size);
        proof {
            lemma_region_cells(size);
        }

        let mut flip = BitBoard::from_point(pt, size);
        let cx = if pt.0 > MAX_SIZE - pt.0 - 1 {
            pt.0
        } else {
            MAX_SIZE - pt.0 - 1
        };
        let cy = if pt.1 > MAX_SIZE - pt.1 - 1 {
            pt.1
        } else {
            MAX_SIZE - pt.1 - 1
        };
        let cnt = if cx > cy {
            cx
        } else {
            cy
        };

        let mut k: usize = 0;
        while k < 8
            invariant
                k <= 8,
                size == self.size,
                offset == self.offset,
                size.valid(),
                offset.wf(),
                offset.spec_size() == size,
                me@.subset_of(region(size)),
                you@.subset_of(region(size)),
                me@.disjoint(you@),
                size.in_bounds(x, y),
                p == size.off(x, y),
                x == pt.0,
                y == pt.1,
                cnt >= x && cnt >= MAX_SIZE - x - 1 && cnt >= y && cnt >= MAX_SIZE - y - 1,
                flip@ == Set::new(
                    |o: int|
                        o == p || exists|kk: int|
                            0 <= kk < k && #[trigger] closed_runs(size, me@, you@, x, y, kk, cnt as int).contains(o),
                ),
            decreases 8 - k,
        {
            let ghost flip_before = flip@;
            let ghost kk = k as int;
            let ghost dx = dir_dx(kk);
            let ghost dy = dir_dy(kk);
            let mut mask = BitBoard::from_point(pt, size);
            let mut cand = BitBoard::empty();
            let mut i: u32 = 0;
            proof {
                assert(segment(size, x, y, kk, 0) =~= Set::<int>::empty());
                assert(closed_runs(size, me@, you@, x, y, kk, 0) =~= Set::<int>::empty());
                assert(flip@ =~= flip_before.union(closed_runs(size, me@, you@, x, y, kk, 0)));
            }
            while i < cnt
                invariant
                    k < 8,
                    kk == k,
                    dx == dir_dx(kk),
                    dy == dir_dy(kk),
                    i <= cnt,
                    size == self.size,
                    offset == self.offset,
                    size.valid(),
                    offset.wf(),
                    offset.spec_size() == size,
                    me@.subset_of(region(size)),
                    you@.subset_of(region(size)),
                    me@.disjoint(you@),
                    size.in_bounds(x, y),
                    p == size.off(x, y),
                    x == pt.0,
                    y == pt.1,
                    mask.within(size),
                    (forall|j: int| 1 <= j <= i ==> #[trigger] holds(size, you@, step(x, dx, j), step(y, dy, j)))
                        ==> size.in_bounds(step(x, dx, i as int), step(y, dy, i as int))
                        && mask@ == set![size.off(step(x, dx, i as int), step(y, dy, i as int))]
                        && cand@ == segment(size, x, y, kk, i as int),
                    !(forall|j: int| 1 <= j <= i ==> #[trigger] holds(size, you@, step(x, dx, j), step(y, dy, j)))
                        ==> mask@ == Set::<int>::empty(),
                    flip@ == flip_before.union(closed_runs(size, me@, you@, x, y, kk, i as int)),
                decreases cnt - i,
            {
                let ghost alive = forall|j: int| 1 <= j <= i ==> #[trigger] holds(size, you@, step(x, dx, j), step(y, dy, j));
                let ghost cur_x = step(x, dx, i as int);
                let ghost cur_y = step(y, dy, i as int);
                let ghost nx = step(x, dx, i + 1);
                let ghost ny = step(y, dy, i + 1);
                let ghost old_cand = cand@;
                let ghost old_flip = flip@;
                mask = offset.shift_dir(mask, k);
                proof {
                    if alive {
                        lemma_moved_single(size, cur_x, cur_y, kk);
                        assert(step(cur_x, dx, 1) == nx && step(cur_y, dy, 1) == ny);
                    } else {
                        assert(moved(Set::<int>::empty(), size, kk, 1) =~= Set::<int>::empty());
                    }
                }
                let on_you = mask.intersection(you);
                if !on_you.is_empty() {
                    cand = cand.union(mask);
                    proof {
                        assert(alive) by {
                            if !alive {
                                assert(on_you@ =~= Set::<int>::empty());
                            }
                        }
                        if !size.in_bounds(nx, ny) {
                            assert(on_you@ =~= Set::<int>::empty());
                        }
                        if !you@.contains(size.off(nx, ny)) {
                            assert(on_you@ =~= Set::<int>::empty());
                        }
                        assert forall|j: int| 1 <= j <= i + 1 implies #[trigger] holds(size, you@, step(x, dx, j), step(y, dy, j)) by {}
                        assert forall|o: int| cand@.contains(o) <==> segment(size, x, y, kk, i + 1).contains(o) by {
                            if old_cand.contains(o) {
                                let j = choose|j: int| 1 <= j <= i && o == #[trigger] size.off(step(x, dir_dx(kk), j), step(y, dir_dy(kk), j));
                                assert(segment(size, x, y, kk, i + 1).contains(o));
                            }
                            if o == size.off(nx, ny) {
                                assert(segment(size, x, y, kk, i + 1).contains(o));
                            }
                            if segment(size, x, y, kk, i + 1).contains(o) {
                                let j = choose|j: int| 1 <= j <= i + 1 && o == #[trigger] size.off(step(x, dir_dx(kk), j), step(y, dir_dy(kk), j));
                                if j <= i {
                                    assert(old_cand.contains(o));
                                }
                            }
                        }
                        assert(cand@ =~= segment(size, x, y, kk, i + 1));
                        assert forall|o: int| closed_runs(size, me@, you@, x, y, kk, i + 1).contains(o)
                            implies closed_runs(size, me@, you@, x, y, kk, i as int).contains(o) by {
                            let n = choose|n: int| n + 1 <= i + 1 && #[trigger] flanks(size, me@, you@, x, y, dir_dx(kk), dir_dy(kk), n)
                                && segment(size, x, y, kk, n).contains(o);
                            if n == i {
                                assert(holds(size, me@, nx, ny));
                            }
                        }
                        assert(closed_runs(size, me@, you@, x, y, kk, i + 1) =~= closed_runs(size, me@, you@, x, y, kk, i as int));
                    }
                } else {
                    let on_me = mask.intersection(me);
                    if !on_me.is_empty() {
                        flip = flip.union(cand);
                        proof {
                            assert(alive) by {
                                if !alive {
                                    assert(on_me@ =~= Set::<int>::empty());
                                }
                            }
                            if !size.in_bounds(nx, ny) || !me@.contains(size.off(nx, ny)) {
                                assert(on_me@ =~= Set::<int>::empty());
                            }
                            assert(holds(size, me@, nx, ny));
                            assert(!you@.contains(size.off(nx, ny)));
                            let cr = closed_runs(size, me@, you@, x, y, kk, i + 1);
                            let cr0 = closed_runs(size, me@, you@, x, y, kk, i as int);
                            if i >= 1 {
                                assert(flanks(size, me@, you@, x, y, dx, dy, i as int));
                            }
                            assert forall|o: int| cr.contains(o) <==> cr0.contains(o) || old_cand.contains(o) by {
                                if cr.contains(o) {
                                    let n = choose|n: int| n + 1 <= i + 1 && #[trigger] flanks(size, me@, you@, x, y, dir_dx(kk), dir_dy(kk), n)
                                        && segment(size, x, y, kk, n).contains(o);
                                }
                                if old_cand.contains(o) {
                                    assert(flanks(size, me@, you@, x, y, dx, dy, i as int));
                                }
                                if cr0.contains(o) {
                                    let n = choose|n: int| n + 1 <= i && #[trigger] flanks(size, me@, you@, x, y, dir_dx(kk), dir_dy(kk), n)
                                        && segment(size, x, y, kk, n).contains(o);
                                    assert(n + 1 <= i + 1);
                                }
                            }
                            assert(flip@ =~= flip_before.union(cr));
                        }
                    } else {
                        proof {
                            let cr = closed_runs(size, me@, you@, x, y, kk, i + 1);
                            let cr0 = closed_runs(size, me@, you@, x, y, kk, i as int);
                            assert forall|o: int| cr.contains(o) implies cr0.contains(o) by {
                                let n = choose|n: int| n + 1 <= i + 1 && #[trigger] flanks(size, me@, you@, x, y, dir_dx(kk), dir_dy(kk), n)
                                    && segment(size, x, y, kk, n).contains(o);
                                if n == i {
                                    assert forall|j: int| 1 <= j <= i implies #[trigger] holds(size, you@, step(x, dx, j), step(y, dy, j)) by {}
                                    assert(alive);
                                    assert(holds(size, me@, nx, ny));
                                    assert(mask@.contains(size.off(nx, ny)));
                                    assert(on_me@.contains(size.off(nx, ny)));
                                }
                            }
                            assert(cr =~= cr0);
                        }
                    }
                    mask = BitBoard::empty();
                    proof {
                        assert(!(forall|j: int| 1 <= j <= i + 1 ==> #[trigger] holds(size, you@, step(x, dx, j), step(y, dy, j)))) by {
                            if alive {
                                if size.in_bounds(nx, ny) && you@.contains(size.off(nx, ny)) {
                                    assert(on_you@.contains(size.off(nx, ny)));
                                }
                                assert(!holds(size, you@, nx, ny));
                            } else {
                                let j = choose|j: int| !(1 <= j <= i ==> #[trigger] holds(size, you@, step(x, dx, j), step(y, dy, j)));
                                assert(!holds(size, you@, step(x, dx, j), step(y, dy, j)));
                            }
                        }
                    }
                }
                i = i + 1;
            }
            proof {
                assert forall|o: int| closed_runs(size, me@, you@, x, y, kk, i as int).contains(o) <==> closed_runs(size, me@, you@, x, y, kk, cnt as int).contains(o) by {}
                assert(flip@ =~= Set::new(
                    |o: int|
                        o == p || exists|k2: int|
                            0 <= k2 < k + 1 && #[trigger] closed_runs(size, me@, you@, x, y, k2, cnt as int).contains(o),
                )) by {
                    assert forall|o: int| #[trigger] flip@.contains(o) implies o == p || exists|k2: int|
                            0 <= k2 < k + 1 && #[trigger] closed_runs(size, me@, you@, x, y, k2, cnt as int).contains(o) by {
                        if closed_runs(size, me@, you@, x, y, kk, cnt as int).contains(o) {
                        } else {
                            assert(flip_before.contains(o));
                        }
                    }
                }
            }
            k = k + 1;
        }
        proof {
            let mover = turn;
            assert(me@ == self@.cells(mover));
            assert(you@ == self@.cells(mover.opponent()));
            let want = self@.flips(p);
            assert(size.col(p) == x && size.row(p) == y);
            assert forall|o: int| flip@.contains(o) <==> want.contains(o) by {
                if flip@.contains(o) && o != p {
                    let k2 = choose|k2: int| 0 <= k2 < 8 && #[trigger] closed_runs(size, me@, you@, x, y, k2, cnt as int).contains(o);
                    let n = choose|n: int| n + 1 <= cnt && #[trigger] flanks(size, me@, you@, x, y, dir_dx(k2), dir_dy(k2), n)
                        && segment(size, x, y, k2, n).contains(o);
                    let j = choose|j: int| 1 <= j <= n && o == #[trigger] size.off(step(x, dir_dx(k2), j), step(y, dir_dy(k2), j));
                    assert(is_direction(dir_dx(k2), dir_dy(k2)));
                    assert(captured(size, me@, you@, x, y).contains(o));
                }
                if want.contains(o) && o != p {
                    let (dx, dy, n, j) = choose|dx: int, dy: int, n: int, j: int|
                        #![trigger flanks(size, me@, you@, x, y, dx, dy, n), size.off(step(x, dx, j), step(y, dy, j))]
                        is_direction(dx, dy) && flanks(size, me@, you@, x, y, dx, dy, n) && 1 <= j <= n && o
                            == size.off(step(x, dx, j), step(y, dy, j));
                    let k2 = lemma_dir_index(dx, dy);
                    lemma_run_within(size, me@, you@, x, y, k2, n, cnt as int);
                    assert(segment(size, x, y, k2, n).contains(o));
                    assert(closed_runs(size, me@, you@, x, y, k2, cnt as int).contains(o));
                }
            }
            assert(flip@ =~= want);
        }
        Some((turn, flip))
    }

    /// The legal moves of the side to move, found for all directions and
    /// all run lengths at once by shifting bit-sets.
    fn compute_move_cand(&self) -> (r: BitBoard)
        requires
            self@.wf(),
            self.offset.wf(),
            self.offset.spec_size() == self.size,
        ensures
            r@ == self@.candidates(),
            r.within(self.size),
    {
        let (me, you) = match self.turn {
            Some(Side::Black) => (self.black_cells, self.white_cells),
            Some(Side::White) => (self.white_cells, self.black_cells),
            None => {
                return BitBoard::empty();
            },
        };
        let size = self.size;
        let offset = self.offset;
        let mut cand = BitBoard::empty();

        // Search: E Y Y Y M
        let empty = MdMask::new(me.complement(size).intersection(you.complement(size)));

        let mut you_mask = MdMask::new(you);
        let mut me_mask = MdMask::new(me).shift(offset);
        let mut you_cont_mask = empty;
        proof {
            assert forall|k: int| 0 <= k < 8 implies #[trigger] you_mask@[k] == moved(
                you@,
                size,
                k,
                0,
            ) by {
                lemma_moved_zero(you@, size, k);
            }
            assert forall|k: int| 0 <= k < 8 implies #[trigger] you_cont_mask@[k] == behind_run(
                size,
                me@,
                you@,
                k,
                0,
            ) by {
                assert(you_cont_mask@[k] =~= behind_run(size, me@, you@, k, 0));
            }
            assert forall|k: int| 0 <= k < 8 implies #[trigger] me_mask@[k] == moved(
                me@,
                size,
                k,
                1,
            ) by {
                lemma_moved_zero(me@, size, k);
            }
            assert(cand@ =~= closing_cells(size, me@, you@, 0));
        }

        let mut i: u32 = 0;
        while i < MAX_SIZE - 2
            invariant
                i <= MAX_SIZE - 2,
                size == self.size,
                offset == self.offset,
                size.valid(),
                offset.wf(),
                offset.spec_size() == size,
                you_mask@.len() == 8,
                me_mask@.len() == 8,
                you_cont_mask@.len() == 8,
                forall|k: int| 0 <= k < 8 ==> #[trigger] you_mask@[k] == moved(you@, size, k, i as int),
                forall|k: int|
                    0 <= k < 8 ==> #[trigger] me_mask@[k] == moved(me@, size, k, i + 1),
                forall|k: int|
                    0 <= k < 8 ==> #[trigger] you_cont_mask@[k] == behind_run(
                        size,
                        me@,
                        you@,
                        k,
                        i as int,
                    ),
                cand@ == closing_cells(size, me@, you@, i as int),
            decreases MAX_SIZE - 2 - i,
        {
            proof {
                assert forall|k: int| 0 <= k < 8 implies (#[trigger] you_mask@[k]).subset_of(
                    region(size),
                ) by {}
                assert forall|k: int| 0 <= k < 8 implies (#[trigger] me_mask@[k]).subset_of(
                    region(size),
                ) by {}
            }
            let ghost prev_you = you_mask;
            let ghost prev_me = me_mask;
            let ghost prev_cont = you_cont_mask;
            you_mask = you_mask.shift(offset);
            me_mask = me_mask.shift(offset);
            you_cont_mask = you_cont_mask.intersection(you_mask);
            let both = you_cont_mask.intersection(me_mask);
            let hit = both.or_all();
            proof {
                assert forall|k: int| 0 <= k < 8 implies #[trigger] you_mask@[k] == moved(
                    you@,
                    size,
                    k,
                    i + 1,
                ) by {
                    lemma_moved_succ(you@, size, k, i as int);
                }
                assert forall|k: int| 0 <= k < 8 implies #[trigger] me_mask@[k] == moved(
                    me@,
                    size,
                    k,
                    i + 2,
                ) by {
                    lemma_moved_succ(me@, size, k, i + 1);
                }
                assert forall|k: int| 0 <= k < 8 implies #[trigger] you_cont_mask@[k]
                    == behind_run(size, me@, you@, k, i + 1) by {
                    lemma_behind_run_succ(size, me@, you@, k, i as int);
                }
                let h = Set::new(
                    |o: int|
                        exists|k: int|
                            0 <= k < 8 && #[trigger] behind_run(size, me@, you@, k, i + 1).intersect(
                                moved(me@, size, k, i + 2),
                            ).contains(o),
                );
                assert forall|o: int| hit@.contains(o) <==> h.contains(o) by {
                    if hit@.contains(o) {
                        let k = choose|k: int| 0 <= k < 8 && #[trigger] both@[k].contains(o);
                        assert(behind_run(size, me@, you@, k, i + 1).intersect(
                            moved(me@, size, k, i + 2),
                        ).contains(o));
                    }
                    if h.contains(o) {
                        let k = choose|k: int|
                            0 <= k < 8 && #[trigger] behind_run(size, me@, you@, k, i + 1).intersect(
                                moved(me@, size, k, i + 2),
                            ).contains(o);
                        assert(both@[k].contains(o));
                    }
                }
                assert(hit@ =~= h);
                lemma_closing_succ(size, me@, you@, i as int, h);
            }
            cand = cand.union(hit);
            i = i + 1;
        }
        proof {
            lemma_closing_is_legal(size, me@, you@);
        }
        cand
    }
}

} // verus!
