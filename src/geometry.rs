//! Grid coordinates, board sizes and the two sides.

use vstd::prelude::*;

verus! {

/// The smallest allowed width or height of a board.
pub const MIN_SIZE: u32 = 2;

/// The largest allowed width or height of a board.
pub const MAX_SIZE: u32 = 8;

/// A cell `(x, y)`: column `x`, row `y`, both counted from zero.
#[derive(Copy, Clone, Debug, PartialEq, Eq, Structural)]
pub struct Point(pub u32, pub u32);

/// A board size: `Size(width, height)`.
#[derive(Copy, Clone, Debug, PartialEq, Eq, Structural)]
pub struct Size(pub u32, pub u32);

/// One of the two players.
#[derive(Copy, Clone, Debug, PartialEq, Eq, Structural)]
pub enum Side {
    Black,
    White,
}

impl Size {
    /// Width and height both lie in `[MIN_SIZE, MAX_SIZE]`.
    pub open spec fn valid(self) -> bool {
        &&& MIN_SIZE <= self.0 <= MAX_SIZE
        &&& MIN_SIZE <= self.1 <= MAX_SIZE
    }

    pub open spec fn width(self) -> int {
        self.0 as int
    }

    pub open spec fn height(self) -> int {
        self.1 as int
    }

    /// Number of cells of the grid.
    pub open spec fn num_cells(self) -> int {
        self.0 * self.1
    }

    /// `(x, y)` lies on the grid.
    pub open spec fn in_bounds(self, x: int, y: int) -> bool {
        0 <= x < self.0 && 0 <= y < self.1
    }

    /// Row-major offset of the cell `(x, y)`.
    pub open spec fn off(self, x: int, y: int) -> int {
        x + self.0 * y
    }

    /// Column of the cell at offset `o`.
    pub open spec fn col(self, o: int) -> int {
        o % (self.0 as int)
    }

    /// Row of the cell at offset `o`.
    pub open spec fn row(self, o: int) -> int {
        o / (self.0 as int)
    }
}

impl Point {
    /// The point lies on a grid of the given size.
    pub open spec fn within(self, size: Size) -> bool {
        self.0 < size.0 && self.1 < size.1
    }

    pub open spec fn spec_offset(self, size: Size) -> int {
        size.off(self.0 as int, self.1 as int)
    }

    /// The point at row-major offset `off` of a grid of the given size.
    pub fn from_offset(off: u32, size: Size) -> (r: Point)
        requires
            size.valid(),
            off < size.num_cells(),
        ensures
            r.within(size),
            r.spec_offset(size) == off,
            r.0 == size.col(off as int),
            r.1 == size.row(off as int),
    {
        proof {
            lemma_offset_cell(size, off as int);
        }
        Point(off % size.0, off / size.0)
    }

    /// Row-major offset of the point: `x + width * y`.
    pub fn offset(self, size: Size) -> (r: u32)
        requires
            size.valid(),
            self.within(size),
        ensures
            r == self.spec_offset(size),
            r < size.num_cells(),
    {
        proof {
            lemma_cell_offset(size, self.0 as int, self.1 as int);
            assert(size.0 * self.1 <= 64) by (nonlinear_arith)
                requires
                    size.0 <= 8,
                    self.1 < 8,
            ;
        }
        self.0 + size.0 * self.1
    }
}

impl Side {
    pub open spec fn opponent(self) -> Side {
        match self {
            Side::Black => Side::White,
            Side::White => Side::Black,
        }
    }

    /// The other side.
    pub fn flip(self) -> (r: Side)
        ensures
            r == self.opponent(),
            r != self,
    {
        match self {
            Side::Black => Side::White,
            Side::White => Side::Black,
        }
    }
}

/// A cell on the grid has an offset below the cell count, and the offset
/// gives its column and row back.
pub proof fn lemma_cell_offset(size: Size, x: int, y: int)
    requires
        size.valid(),
        size.in_bounds(x, y),
    ensures
        0 <= size.off(x, y) < size.num_cells(),
        size.col(size.off(x, y)) == x,
        size.row(size.off(x, y)) == y,
{
    let w = size.0 as int;
    let h = size.1 as int;
    assert(0 <= x + w * y < w * h) by (nonlinear_arith)
        requires
            0 <= x < w,
            0 <= y < h,
    ;
    vstd::arithmetic::div_mod::lemma_fundamental_div_mod_converse(x + w * y, w, y, x);
}

/// An offset below the cell count names a cell on the grid.
pub proof fn lemma_offset_cell(size: Size, o: int)
    requires
        size.valid(),
        0 <= o < size.num_cells(),
    ensures
        size.in_bounds(size.col(o), size.row(o)),
        size.off(size.col(o), size.row(o)) == o,
{
    let w = size.0 as int;
    let h = size.1 as int;
    vstd::arithmetic::div_mod::lemma_fundamental_div_mod(o, w);
    vstd::arithmetic::div_mod::lemma_mod_bound(o, w);
    vstd::arithmetic::div_mod::lemma_div_pos_is_pos(o, w);
    let q = o / w;
    let r = o % w;
    assert(q < h) by (nonlinear_arith)
        requires
            o == w * q + r,
            0 <= r,
            o < w * h,
            w > 0,
    ;
}

} // verus!
