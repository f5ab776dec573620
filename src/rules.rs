//! The rules of the game over a mathematical model of a board: which cells
//! are legal moves, which disks a move flips, and whose turn follows.

use crate::bit_board::region;
use crate::geometry::{Side, Size};
use crate::multi_direction::{dir_dx, dir_dy, step};
use vstd::prelude::*;

verus! {

/// A board as the rules see it: its size, the side to move (none once the
/// game is over) and the offsets of the black and of the white disks.
pub struct Position {
    pub size: Size,
    pub turn: Option<Side>,
    pub black: Set<int>,
    pub white: Set<int>,
}

/// `(dx, dy)` is one of the eight compass directions.
pub open spec fn is_direction(dx: int, dy: int) -> bool {
    -1 <= dx <= 1 && -1 <= dy <= 1 && (dx != 0 || dy != 0)
}

/// The cell `(x, y)` is on the grid and `s` holds it.
pub open spec fn holds(size: Size, s: Set<int>, x: int, y: int) -> bool {
    size.in_bounds(x, y) && s.contains(size.off(x, y))
}

/// Seen from `(x, y)` in direction `(dx, dy)`, the next `n >= 1` cells hold
/// disks of `you` and the one after them a disk of `me`.
pub open spec fn flanks(
    size: Size,
    me: Set<int>,
    you: Set<int>,
    x: int,
    y: int,
    dx: int,
    dy: int,
    n: int,
) -> bool {
    &&& 1 <= n
    &&& forall|j: int|
        1 <= j <= n ==> #[trigger] holds(size, you, step(x, dx, j), step(y, dy, j))
    &&& holds(size, me, step(x, dx, n + 1), step(y, dy, n + 1))
}

/// `me` may play at the empty cell `(x, y)`: in some direction a run of
/// disks of `you` lies between it and a disk of `me`.
pub open spec fn legal(size: Size, me: Set<int>, you: Set<int>, x: int, y: int) -> bool {
    &&& size.in_bounds(x, y)
    &&& !me.contains(size.off(x, y))
    &&& !you.contains(size.off(x, y))
    &&& exists|dx: int, dy: int, n: int|
        is_direction(dx, dy) && #[trigger] flanks(size, me, you, x, y, dx, dy, n)
}

/// The offsets of the cells where `me` may play.
pub open spec fn legal_moves(size: Size, me: Set<int>, you: Set<int>) -> Set<int> {
    Set::new(|o: int| 0 <= o < size.num_cells() && legal(size, me, you, size.col(o), size.row(o)))
}

/// The disks of `you` that a move of `me` at `(x, y)` flips: every run that
/// the move closes.
pub open spec fn captured(size: Size, me: Set<int>, you: Set<int>, x: int, y: int) -> Set<int> {
    Set::new(
        |o: int|
            exists|dx: int, dy: int, n: int, j: int|
                #![trigger flanks(size, me, you, x, y, dx, dy, n), size.off(step(x, dx, j), step(y, dy, j))]
                is_direction(dx, dy) && flanks(size, me, you, x, y, dx, dy, n) && 1 <= j <= n && o
                    == size.off(step(x, dx, j), step(y, dy, j)),
    )
}

/// Each compass direction has its index among the eight of a direction
/// table.
pub proof fn lemma_dir_index(dx: int, dy: int) -> (k: int)
    requires
        is_direction(dx, dy),
    ensures
        0 <= k < 8,
        dir_dx(k) == dx,
        dir_dy(k) == dy,
{
    if dx == 1 && dy == 0 {
        0
    } else if dx == 0 && dy == 1 {
        1
    } else if dx == -1 && dy == 1 {
        2
    } else if dx == 1 && dy == 1 {
        3
    } else if dx == -1 && dy == 0 {
        4
    } else if dx == 0 && dy == -1 {
        5
    } else if dx == 1 && dy == -1 {
        6
    } else {
        7
    }
}

impl Position {
    /// The disks of one side.
    pub open spec fn cells(self, side: Side) -> Set<int> {
        match side {
            Side::Black => self.black,
            Side::White => self.white,
        }
    }

    /// A valid size; both sides' disks on the grid and never on one cell.
    pub open spec fn wf(self) -> bool {
        &&& self.size.valid()
        &&& self.black.subset_of(region(self.size))
        &&& self.white.subset_of(region(self.size))
        &&& self.black.disjoint(self.white)
    }

    /// The number of disks on the board.
    pub open spec fn disk_count(self) -> int {
        (self.black.len() + self.white.len()) as int
    }

    /// Where `side` could play if it were its turn.
    pub open spec fn moves_for(self, side: Side) -> Set<int> {
        legal_moves(self.size, self.cells(side), self.cells(side.opponent()))
    }

    /// The legal moves of the side to move; none once the game is over.
    pub open spec fn candidates(self) -> Set<int> {
        match self.turn {
            Some(side) => self.moves_for(side),
            None => Set::empty(),
        }
    }

    /// The side to move after `mover` has moved: the opponent if it can
    /// move, else `mover` again if it can, else nobody.
    pub open spec fn next_turn(self, mover: Side) -> Option<Side> {
        if self.moves_for(mover.opponent()) != Set::<int>::empty() {
            Some(mover.opponent())
        } else if self.moves_for(mover) != Set::<int>::empty() {
            Some(mover)
        } else {
            None
        }
    }

    /// The cells that change to the mover's colour when it plays at `o`:
    /// the captured disks and `o` itself.
    pub open spec fn flips(self, o: int) -> Set<int> {
        let mover = self.turn.unwrap();
        captured(
            self.size,
            self.cells(mover),
            self.cells(mover.opponent()),
            self.size.col(o),
            self.size.row(o),
        ).insert(o)
    }

    /// The position after the side to move plays at offset `o`.
    pub open spec fn play(self, o: int) -> Position {
        let mover = self.turn.unwrap();
        let f = self.flips(o);
        let placed = match mover {
            Side::Black => Position {
                size: self.size,
                turn: None,
                black: self.black.union(f),
                white: self.white.difference(f),
            },
            Side::White => Position {
                size: self.size,
                turn: None,
                black: self.black.difference(f),
                white: self.white.union(f),
            },
        };
        Position { turn: placed.next_turn(mover), ..placed }
    }

    /// The opening position: four disks around the centre, black to move.
    pub open spec fn opening(size: Size) -> Position {
        let x = size.0 / 2 - 1;
        let y = size.1 / 2 - 1;
        Position {
            size,
            turn: Some(Side::Black),
            black: set![size.off(x + 1, y), size.off(x, y + 1)],
            white: set![size.off(x, y), size.off(x + 1, y + 1)],
        }
    }
}

/// A legal move lands on an empty cell of the grid, and what it captures
/// are disks of the opponent.
pub proof fn lemma_move_shape(pos: Position, o: int)
    requires
        pos.wf(),
        pos.candidates().contains(o),
    ensures
        pos.turn is Some,
        0 <= o < pos.size.num_cells(),
        !pos.black.contains(o),
        !pos.white.contains(o),
        captured(
            pos.size,
            pos.cells(pos.turn.unwrap()),
            pos.cells(pos.turn.unwrap().opponent()),
            pos.size.col(o),
            pos.size.row(o),
        ).subset_of(pos.cells(pos.turn.unwrap().opponent())),
{
    let mover = pos.turn.unwrap();
    let size = pos.size;
    let me = pos.cells(mover);
    let you = pos.cells(mover.opponent());
    let x = size.col(o);
    let y = size.row(o);
    crate::geometry::lemma_offset_cell(size, o);
    assert forall|q: int| captured(size, me, you, x, y).contains(q) implies you.contains(q) by {
        let (dx, dy, n, j) = choose|dx: int, dy: int, n: int, j: int|
            #![trigger flanks(size, me, you, x, y, dx, dy, n), size.off(step(x, dx, j), step(y, dy, j))]
            is_direction(dx, dy) && flanks(size, me, you, x, y, dx, dy, n) && 1 <= j <= n && q
                == size.off(step(x, dx, j), step(y, dy, j));
        assert(holds(size, you, step(x, dx, j), step(y, dy, j)));
    }
}

/// After a legal move the position is still well formed: in particular no
/// cell holds a black and a white disk at once.
pub proof fn lemma_play_wf(pos: Position, o: int)
    requires
        pos.wf(),
        pos.candidates().contains(o),
    ensures
        pos.play(o).wf(),
        pos.play(o).size == pos.size,
        pos.play(o).black.disjoint(pos.play(o).white),
{
    lemma_move_shape(pos, o);
    let next = pos.play(o);
    assert(next.black.subset_of(region(pos.size)));
    assert(next.white.subset_of(region(pos.size)));
}

/// A legal move adds exactly one disk to the board: it places one, and
/// flipping changes colours, not the count.
pub proof fn lemma_play_adds_one_disk(pos: Position, o: int)
    requires
        pos.wf(),
        pos.candidates().contains(o),
    ensures
        pos.play(o).disk_count() == pos.disk_count() + 1,
{
    lemma_move_shape(pos, o);
    let mover = pos.turn.unwrap();
    let me = pos.cells(mover);
    let you = pos.cells(mover.opponent());
    let cap = captured(pos.size, me, you, pos.size.col(o), pos.size.row(o));
    let f = pos.flips(o);
    crate::bit_board::lemma_region(pos.size);
    vstd::set_lib::lemma_len_subset(me, region(pos.size));
    vstd::set_lib::lemma_len_subset(you, region(pos.size));
    vstd::set_lib::lemma_len_subset(cap, you);
    assert(f == cap.insert(o));
    assert(!cap.contains(o));
    assert(f.len() == cap.len() + 1);
    assert(me.disjoint(f));
    vstd::set_lib::lemma_set_disjoint_lens(me, f);
    assert(you.intersect(f) =~= cap);
    vstd::set_lib::lemma_set_difference_len(you, f);
    assert(me.union(f) == me + f);
}

/// `b` follows from `a` by one legal move.
pub open spec fn follows(a: Position, b: Position) -> bool {
    exists|o: int| a.candidates().contains(o) && b == #[trigger] a.play(o)
}

/// A game: positions each reached from the one before by a legal move,
/// starting from a well-formed one.
pub open spec fn is_game(games: Seq<Position>) -> bool {
    &&& games.len() >= 1
    &&& games[0].wf()
    &&& forall|i: int| 0 <= i < games.len() - 1 ==> follows(#[trigger] games[i], games[i + 1])
}

/// A well-formed position holds at most one disk per cell.
pub proof fn lemma_disk_count_bound(pos: Position)
    requires
        pos.wf(),
    ensures
        0 <= pos.disk_count() <= pos.size.num_cells(),
        pos.black.finite(),
        pos.white.finite(),
{
    crate::bit_board::lemma_region(pos.size);
    vstd::set_lib::lemma_len_subset(pos.black, region(pos.size));
    vstd::set_lib::lemma_len_subset(pos.white, region(pos.size));
    vstd::set_lib::lemma_set_disjoint_lens(pos.black, pos.white);
    vstd::set_lib::lemma_len_subset(pos.black + pos.white, region(pos.size));
}

/// After a move, a side that is given the turn has a legal move.
pub proof fn lemma_play_turn_can_move(pos: Position, o: int)
    requires
        pos.wf(),
        pos.candidates().contains(o),
    ensures
        pos.play(o).turn is Some ==> pos.play(o).candidates() != Set::<int>::empty(),
{
}

/// The opening position is well formed with four disks.
pub proof fn lemma_opening(size: Size)
    requires
        size.valid(),
    ensures
        Position::opening(size).wf(),
        Position::opening(size).disk_count() == 4,
{
    crate::multi_direction::lemma_region_cells(size);
    let x = size.0 / 2 - 1;
    let y = size.1 / 2 - 1;
    let a = size.off(x + 1, y);
    let b = size.off(x, y + 1);
    let c = size.off(x, y);
    let d = size.off(x + 1, y + 1);
    assert(a != b && a != c && a != d && b != c && b != d && c != d);
    assert(Position::opening(size).black.len() == 2);
    assert(Position::opening(size).white.len() == 2);
}

/// Every move of a game adds one disk, so a game that starts with `d` disks
/// lasts at most `width * height - d` moves (from the opening, at most
/// `width * height - 4`). If its first position offers a move, every side
/// given the turn can move, so a game can only stop where the turn is
/// `None`.
pub proof fn lemma_game_length(games: Seq<Position>)
    requires
        is_game(games),
    ensures
        forall|i: int|
            0 <= i < games.len() ==> (#[trigger] games[i]).wf() && games[i].disk_count()
                == games[0].disk_count() + i && games[i].size == games[0].size,
        games.len() - 1 <= games[0].size.num_cells() - games[0].disk_count(),
        games[0] == Position::opening(games[0].size) ==> games.len() - 1
            <= games[0].size.num_cells() - 4,
        games[0].candidates() != Set::<int>::empty() ==> forall|i: int|
            0 <= i < games.len() && (#[trigger] games[i]).turn is Some ==> games[i].candidates()
                != Set::<int>::empty(),
    decreases games.len(),
{
    if games.len() > 1 {
        let prefix = games.drop_last();
        assert forall|i: int| 0 <= i < prefix.len() - 1 implies follows(
            #[trigger] prefix[i],
            prefix[i + 1],
        ) by {
            assert(follows(games[i], games[i + 1]));
        }
        lemma_game_length(prefix);
        let n = games.len() - 1;
        assert(prefix[n - 1] == games[n - 1]);
        assert(follows(games[n - 1], games[n]));
        let o = choose|o: int| games[n - 1].candidates().contains(o) && games[n] == #[trigger] games[
            n - 1].play(o);
        lemma_play_wf(games[n - 1], o);
        lemma_play_adds_one_disk(games[n - 1], o);
        lemma_play_turn_can_move(games[n - 1], o);
        lemma_disk_count_bound(games[n]);
        assert forall|i: int| 0 <= i < games.len() implies (#[trigger] games[i]).wf()
            && games[i].disk_count() == games[0].disk_count() + i && games[i].size
            == games[0].size by {
            if i < n {
                assert(prefix[i] == games[i]);
            }
        }
        if games[0].candidates() != Set::<int>::empty() {
            assert forall|i: int| 0 <= i < games.len() && (#[trigger] games[i]).turn is Some
                implies games[i].candidates() != Set::<int>::empty() by {
                if i < n {
                    assert(prefix[i] == games[i]);
                }
            }
        }
    } else {
        lemma_disk_count_bound(games[0]);
    }
    if games[0] == Position::opening(games[0].size) {
        lemma_opening(games[0].size);
    }
}

/// A position with a legal move has an empty cell: fewer disks than cells.
pub proof fn lemma_moves_leave_room(pos: Position, o: int)
    requires
        pos.wf(),
        pos.candidates().contains(o),
    ensures
        pos.disk_count() < pos.size.num_cells(),
{
    lemma_move_shape(pos, o);
    lemma_disk_count_bound(pos);
    crate::bit_board::lemma_region(pos.size);
    vstd::set_lib::lemma_set_disjoint_lens(pos.black, pos.white);
    let rest = region(pos.size).remove(o);
    assert((pos.black + pos.white).subset_of(rest));
    vstd::set_lib::lemma_len_subset(pos.black + pos.white, rest);
}

} // verus!
