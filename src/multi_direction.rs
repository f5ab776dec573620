//! The eight compass directions over a bit-set grid: shift distances, the
//! edge masks that keep a shift from wrapping into the next row, and a bundle
//! of one bit-set per direction.

use crate::bit_board::{region, BitBoard};
use crate::geometry::{lemma_cell_offset, lemma_offset_cell, Point, Size};
use vstd::prelude::*;

verus! {

/// Column step of direction `k`: east, south, south-west, south-east, then
/// the four opposites (west, north, north-east, north-west).
pub open spec fn dir_dx(k: int) -> int {
    if k == 0 || k == 3 || k == 6 {
        1
    } else if k == 1 || k == 5 {
        0
    } else {
        -1
    }
}

/// Row step of direction `k` (rows grow southwards).
pub open spec fn dir_dy(k: int) -> int {
    if k == 0 || k == 4 {
        0
    } else if k <= 3 {
        1
    } else {
        -1
    }
}

/// The coordinate `c` moved `j` steps along a direction component `d` in
/// `{-1, 0, 1}`.
pub open spec fn step(c: int, d: int, j: int) -> int {
    if d > 0 {
        c + j
    } else if d < 0 {
        c - j
    } else {
        c
    }
}

/// The cells of the grid whose neighbour in direction `k` is on the grid.
pub open spec fn edge_mask(size: Size, k: int) -> Set<int> {
    Set::new(
        |o: int|
            0 <= o < size.num_cells() && size.in_bounds(
                size.col(o) + dir_dx(k),
                size.row(o) + dir_dy(k),
            ),
    )
}

/// The cells of `s` moved `n` steps in direction `k`; what leaves the grid
/// is lost.
pub open spec fn moved(s: Set<int>, size: Size, k: int, n: int) -> Set<int> {
    Set::new(
        |o: int|
            {
                let sx = step(size.col(o), dir_dx(k), -n);
                let sy = step(size.row(o), dir_dy(k), -n);
                &&& 0 <= o < size.num_cells()
                &&& size.in_bounds(sx, sy)
                &&& s.contains(size.off(sx, sy))
            },
    )
}

/// Every offset of the region names its cell: column and row lie on the
/// grid and give the offset back.
pub proof fn lemma_region_cells(size: Size)
    requires
        size.valid(),
    ensures
        forall|o: int|
            0 <= o < size.num_cells() ==> {
                &&& 0 <= #[trigger] size.col(o) < size.0
                &&& 0 <= #[trigger] size.row(o) < size.1
                &&& size.off(size.col(o), size.row(o)) == o
            },
        forall|x: int, y: int|
            size.in_bounds(x, y) ==> {
                &&& 0 <= #[trigger] size.off(x, y) < size.num_cells()
                &&& size.col(size.off(x, y)) == x
                &&& size.row(size.off(x, y)) == y
            },
{
    assert forall|o: int| 0 <= o < size.num_cells() implies {
        &&& 0 <= #[trigger] size.col(o) < size.0
        &&& 0 <= #[trigger] size.row(o) < size.1
        &&& size.off(size.col(o), size.row(o)) == o
    } by {
        lemma_offset_cell(size, o);
    }
    assert forall|x: int, y: int| size.in_bounds(x, y) implies {
        &&& 0 <= #[trigger] size.off(x, y) < size.num_cells()
        &&& size.col(size.off(x, y)) == x
        &&& size.row(size.off(x, y)) == y
    } by {
        lemma_cell_offset(size, x, y);
    }
}

/// Moving a cell by a direction adds `dx + width * dy` to its offset.
pub proof fn lemma_off_step(size: Size, x: int, y: int, dx: int, dy: int)
    ensures
        size.off(x + dx, y + dy) == size.off(x, y) + dx + size.0 * dy,
{
    let w = size.0 as int;
    assert(w * (y + dy) == w * y + w * dy) by (nonlinear_arith);
}

/// Moving `n` steps and then one more is moving `n + 1` steps.
pub proof fn lemma_moved_succ(s: Set<int>, size: Size, k: int, n: int)
    requires
        size.valid(),
        0 <= k < 8,
        0 <= n,
    ensures
        moved(moved(s, size, k, n), size, k, 1) == moved(s, size, k, n + 1),
{
    lemma_region_cells(size);
    let lhs = moved(moved(s, size, k, n), size, k, 1);
    let rhs = moved(s, size, k, n + 1);
    assert forall|o: int| lhs.contains(o) <==> rhs.contains(o) by {
        if 0 <= o < size.num_cells() {
            let x = size.col(o);
            let y = size.row(o);
            let x1 = step(x, dir_dx(k), -1);
            let y1 = step(y, dir_dy(k), -1);
            if size.in_bounds(x1, y1) {
                let o1 = size.off(x1, y1);
                assert(size.col(o1) == x1 && size.row(o1) == y1);
            }
        }
    }
    assert(lhs =~= rhs);
}

/// Moving a set of the grid by no step leaves it as it is.
pub proof fn lemma_moved_zero(s: Set<int>, size: Size, k: int)
    requires
        size.valid(),
        s.subset_of(region(size)),
    ensures
        moved(s, size, k, 0) == s,
{
    lemma_region_cells(size);
    assert(moved(s, size, k, 0) =~= s);
}

proof fn lemma_shift_left(size: Size, s: Set<int>, k: int, delta: int)
    requires
        size.valid(),
        0 <= k < 4,
        s.subset_of(region(size)),
        delta == dir_dx(k) + size.0 * dir_dy(k),
    ensures
        Set::new(|i: int| delta <= i < 64 && s.intersect(edge_mask(size, k)).contains(i - delta))
            == moved(s, size, k, 1),
{
    let lhs = Set::new(
        |i: int| delta <= i < 64 && s.intersect(edge_mask(size, k)).contains(i - delta),
    );
    let rhs = moved(s, size, k, 1);
    let dx = dir_dx(k);
    let dy = dir_dy(k);
    assert(size.num_cells() <= 64) by (nonlinear_arith)
        requires
            size.0 <= 8,
            size.1 <= 8,
    ;
    assert forall|i: int| lhs.contains(i) implies rhs.contains(i) by {
        let src = i - delta;
        lemma_offset_cell(size, src);
        let sx = size.col(src);
        let sy = size.row(src);
        lemma_off_step(size, sx, sy, dx, dy);
        lemma_cell_offset(size, sx + dx, sy + dy);
    }
    assert forall|o: int| rhs.contains(o) implies lhs.contains(o) by {
        lemma_offset_cell(size, o);
        let x = size.col(o);
        let y = size.row(o);
        lemma_off_step(size, x - dx, y - dy, dx, dy);
        lemma_cell_offset(size, x - dx, y - dy);
    }
    assert(lhs =~= rhs);
}

proof fn lemma_shift_right(size: Size, s: Set<int>, k: int, delta: int)
    requires
        size.valid(),
        4 <= k < 8,
        s.subset_of(region(size)),
        delta == -(dir_dx(k) + size.0 * dir_dy(k)),
    ensures
        Set::new(|i: int| 0 <= i && s.intersect(edge_mask(size, k)).contains(i + delta)) == moved(
            s,
            size,
            k,
            1,
        ),
{
    let lhs = Set::new(|i: int| 0 <= i && s.intersect(edge_mask(size, k)).contains(i + delta));
    let rhs = moved(s, size, k, 1);
    let dx = dir_dx(k);
    let dy = dir_dy(k);
    assert forall|i: int| lhs.contains(i) implies rhs.contains(i) by {
        let src = i + delta;
        lemma_offset_cell(size, src);
        let sx = size.col(src);
        let sy = size.row(src);
        lemma_off_step(size, sx, sy, dx, dy);
        lemma_cell_offset(size, sx + dx, sy + dy);
    }
    assert forall|o: int| rhs.contains(o) implies lhs.contains(o) by {
        lemma_offset_cell(size, o);
        let x = size.col(o);
        let y = size.row(o);
        lemma_off_step(size, x - dx, y - dy, dx, dy);
        lemma_cell_offset(size, x - dx, y - dy);
    }
    assert(lhs =~= rhs);
}

/// Shift distances and edge masks of the eight directions on a grid.
#[derive(Copy, Clone, Debug)]
pub struct MdOffset {
    size: Size,
    offs: [u32; 4],
    masks: [BitBoard; 8],
}

impl MdOffset {
    /// The grid size the table was built for.
    pub closed spec fn spec_size(self) -> Size {
        self.size
    }

    /// The table is the one of its size.
    pub closed spec fn wf(self) -> bool {
        let w = self.size.0;
        &&& self.size.valid()
        &&& self.offs@ == seq![1u32, w, (w - 1) as u32, (w + 1) as u32]
        &&& forall|k: int| 0 <= k < 8 ==> #[trigger] self.masks@[k]@ == edge_mask(self.size, k)
    }

    /// The table of a grid of the given size.
    pub fn from_size(size: Size) -> (r: Self)
        requires
            size.valid(),
        ensures
            r.wf(),
            r.spec_size() == size,
    {
        let r = MdOffset { size, offs: Self::offs(size), masks: Self::masks(size) };
        assert(r.offs@ =~= seq![1u32, size.0, (size.0 - 1) as u32, (size.0 + 1) as u32]);
        r
    }

    fn offs(size: Size) -> (r: [u32; 4])
        requires
            size.valid(),
        ensures
            r@ == seq![1u32, size.0, (size.0 - 1) as u32, (size.0 + 1) as u32],
    {
        let r = Point(1, 0).offset(size);
        let d = Point(0, 1).offset(size);
        let r_off = r;
        let d_off = d;
        let dl_off = d - r;
        let dr_off = d + r;
        let out = [r_off, d_off, dl_off, dr_off];
        assert(out@ =~= seq![1u32, size.0, (size.0 - 1) as u32, (size.0 + 1) as u32]);
        out
    }

    fn masks(size: Size) -> (r: [BitBoard; 8])
        requires
            size.valid(),
        ensures
            forall|k: int| 0 <= k < 8 ==> #[trigger] r@[k]@ == edge_mask(size, k),
    {
        let w = size.0;
        let h = size.1;
        let all_mask = BitBoard::all_filled(size);
        let mut r_mask = all_mask;
        let mut l_mask = all_mask;
        let mut y: u32 = 0;
        while y < h
            invariant
                size.valid(),
                w == size.0,
                h == size.1,
                y <= h,
                r_mask@ == Set::new(
                    |o: int| 0 <= o < size.num_cells() && !(size.col(o) == w - 1 && size.row(o) < y),
                ),
                l_mask@ == Set::new(
                    |o: int| 0 <= o < size.num_cells() && !(size.col(o) == 0 && size.row(o) < y),
                ),
            decreases h - y,
        {
            let ghost ro = size.off(w - 1, y as int);
            let ghost lo = size.off(0, y as int);
            proof {
                lemma_cell_offset(size, w - 1, y as int);
                lemma_cell_offset(size, 0, y as int);
            }
            r_mask = r_mask.symmetric_difference(BitBoard::from_point(Point(w - 1, y), size));
            l_mask = l_mask.symmetric_difference(BitBoard::from_point(Point(0, y), size));
            proof {
                lemma_region_cells(size);
                assert(r_mask@ =~= Set::new(
                    |o: int|
                        0 <= o < size.num_cells() && !(size.col(o) == w - 1 && size.row(o) < y
                            + 1),
                ));
                assert(l_mask@ =~= Set::new(
                    |o: int| 0 <= o < size.num_cells() && !(size.col(o) == 0 && size.row(o) < y + 1),
                ));
            }
            y = y + 1;
        }

        let mut d_mask = all_mask;
        let mut u_mask = all_mask;
        let mut x: u32 = 0;
        while x < w
            invariant
                size.valid(),
                w == size.0,
                h == size.1,
                x <= w,
                d_mask@ == Set::new(
                    |o: int| 0 <= o < size.num_cells() && !(size.row(o) == h - 1 && size.col(o) < x),
                ),
                u_mask@ == Set::new(
                    |o: int| 0 <= o < size.num_cells() && !(size.row(o) == 0 && size.col(o) < x),
                ),
            decreases w - x,
        {
            proof {
                lemma_cell_offset(size, x as int, h - 1);
                lemma_cell_offset(size, x as int, 0);
            }
            d_mask = d_mask.symmetric_difference(BitBoard::from_point(Point(x, h - 1), size));
            u_mask = u_mask.symmetric_difference(BitBoard::from_point(Point(x, 0), size));
            proof {
                lemma_region_cells(size);
                assert(d_mask@ =~= Set::new(
                    |o: int|
                        0 <= o < size.num_cells() && !(size.row(o) == h - 1 && size.col(o) < x
                            + 1),
                ));
                assert(u_mask@ =~= Set::new(
                    |o: int| 0 <= o < size.num_cells() && !(size.row(o) == 0 && size.col(o) < x + 1),
                ));
            }
            x = x + 1;
        }

        let dl_mask = d_mask.intersection(l_mask);
        let dr_mask = d_mask.intersection(r_mask);
        let ur_mask = u_mask.intersection(r_mask);
        let ul_mask = u_mask.intersection(l_mask);

        let out = [r_mask, d_mask, dl_mask, dr_mask, l_mask, u_mask, ur_mask, ul_mask];
        proof {
            lemma_region_cells(size);
            assert(out@[0]@ =~= edge_mask(size, 0));
            assert(out@[1]@ =~= edge_mask(size, 1));
            assert(out@[2]@ =~= edge_mask(size, 2));
            assert(out@[3]@ =~= edge_mask(size, 3));
            assert(out@[4]@ =~= edge_mask(size, 4));
            assert(out@[5]@ =~= edge_mask(size, 5));
            assert(out@[6]@ =~= edge_mask(size, 6));
            assert(out@[7]@ =~= edge_mask(size, 7));
        }
        out
    }

    /// The set `b` moved one step in direction `k`.
    pub fn shift_dir(self, b: BitBoard, k: usize) -> (r: BitBoard)
        requires
            self.wf(),
            b.within(self.spec_size()),
            k < 8,
        ensures
            r@ == moved(b@, self.spec_size(), k as int, 1),
            r.within(self.spec_size()),
    {
        let m = b.intersection(self.masks[k]);
        proof {
            assert(self.masks@[k as int]@ == edge_mask(self.size, k as int));
            let w = self.size.0 as int;
            assert(self.offs@[0] == 1 && self.offs@[1] == w && self.offs@[2] == w - 1
                && self.offs@[3] == w + 1);
            if k == 0 || k == 4 {
            } else if k == 1 || k == 5 {
            } else if k == 2 || k == 6 {
            } else {
            }
        }
        let r = if k < 4 {
            proof {
                lemma_shift_left(self.size, b@, k as int, self.offs@[k as int] as int);
            }
            m.shift_left(self.offs[k])
        } else {
            proof {
                lemma_shift_right(self.size, b@, k as int, self.offs@[k - 4] as int);
            }
            m.shift_right(self.offs[k - 4])
        };
        r
    }
}

/// One bit-set for each of the eight directions.
#[derive(Copy, Clone, Debug)]
pub struct MdMask {
    masks: [BitBoard; 8],
}

impl View for MdMask {
    type V = Seq<Set<int>>;

    closed spec fn view(&self) -> Seq<Set<int>> {
        self.masks@.map_values(|b: BitBoard| b@)
    }
}

impl MdMask {
    /// Each of the eight sets lies in the region of the grid.
    pub open spec fn within(self, size: Size) -> bool {
        forall|k: int| 0 <= k < 8 ==> (#[trigger] self@[k]).subset_of(region(size))
    }

    /// The same set in every direction.
    pub fn new(mask: BitBoard) -> (r: Self)
        ensures
            r@.len() == 8,
            forall|k: int| 0 <= k < 8 ==> #[trigger] r@[k] == mask@,
    {
        let r = MdMask { masks: [mask, mask, mask, mask, mask, mask, mask, mask] };
        assert forall|k: int| 0 <= k < 8 implies #[trigger] r@[k] == mask@ by {
            assert(r.masks@[k] == mask);
        }
        r
    }

    /// The set of direction `k`.
    pub fn get(&self, k: usize) -> (r: BitBoard)
        requires
            k < 8,
        ensures
            r@ == self@[k as int],
    {
        self.masks[k]
    }

    /// Each set moved one step in its own direction.
    pub fn shift(self, offset: MdOffset) -> (r: Self)
        requires
            offset.wf(),
            self.within(offset.spec_size()),
        ensures
            r@.len() == 8,
            forall|k: int|
                0 <= k < 8 ==> #[trigger] r@[k] == moved(self@[k], offset.spec_size(), k, 1),
            r.within(offset.spec_size()),
    {
        proof {
            assert forall|k: int| 0 <= k < 8 implies #[trigger] self.masks@[k].within(
                offset.spec_size(),
            ) by {
                assert(self@[k] == self.masks@[k]@);
            }
        }
        let r = MdMask {
            masks: [
                offset.shift_dir(self.masks[0], 0),
                offset.shift_dir(self.masks[1], 1),
                offset.shift_dir(self.masks[2], 2),
                offset.shift_dir(self.masks[3], 3),
                offset.shift_dir(self.masks[4], 4),
                offset.shift_dir(self.masks[5], 5),
                offset.shift_dir(self.masks[6], 6),
                offset.shift_dir(self.masks[7], 7),
            ],
        };
        r
    }

    /// The direction-wise intersection of two bundles.
    pub fn intersection(self, rhs: Self) -> (r: Self)
        ensures
            r@.len() == 8,
            forall|k: int| 0 <= k < 8 ==> #[trigger] r@[k] == self@[k].intersect(rhs@[k]),
    {
        MdMask {
            masks: [
                self.masks[0].intersection(rhs.masks[0]),
                self.masks[1].intersection(rhs.masks[1]),
                self.masks[2].intersection(rhs.masks[2]),
                self.masks[3].intersection(rhs.masks[3]),
                self.masks[4].intersection(rhs.masks[4]),
                self.masks[5].intersection(rhs.masks[5]),
                self.masks[6].intersection(rhs.masks[6]),
                self.masks[7].intersection(rhs.masks[7]),
            ],
        }
    }

    /// The union of the eight sets.
    pub fn or_all(self) -> (r: BitBoard)
        ensures
            r@ == Set::new(|o: int| exists|k: int| 0 <= k < 8 && #[trigger] self@[k].contains(o)),
    {
        let r = self.masks[0].union(self.masks[1]).union(self.masks[2]).union(
            self.masks[3],
        ).union(self.masks[4]).union(self.masks[5]).union(self.masks[6]).union(self.masks[7]);
        proof {
            let u = Set::new(|o: int| exists|k: int| 0 <= k < 8 && #[trigger] self@[k].contains(o));
            assert forall|o: int| u.contains(o) implies r@.contains(o) by {
                let k = choose|k: int| 0 <= k < 8 && #[trigger] self@[k].contains(o);
                assert(self.masks@[k]@.contains(o));
            }
            assert forall|o: int| r@.contains(o) implies u.contains(o) by {
                if self.masks@[0]@.contains(o) {
                    assert(self@[0].contains(o));
                } else if self.masks@[1]@.contains(o) {
                    assert(self@[1].contains(o));
                } else if self.masks@[2]@.contains(o) {
                    assert(self@[2].contains(o));
                } else if self.masks@[3]@.contains(o) {
                    assert(self@[3].contains(o));
                } else if self.masks@[4]@.contains(o) {
                    assert(self@[4].contains(o));
                } else if self.masks@[5]@.contains(o) {
                    assert(self@[5].contains(o));
                } else if self.masks@[6]@.contains(o) {
                    assert(self@[6].contains(o));
                } else {
                    assert(self@[7].contains(o));
                }
            }
            assert(r@ =~= u);
        }
        r
    }
}

} // verus!
