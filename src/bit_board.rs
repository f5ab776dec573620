//! A set of cells of a grid of at most 64 cells, held in one `u64`.

use crate::geometry::{Point, Size};
use vstd::prelude::*;

verus! {

/// Bit `i` of `v` is set.
pub open spec fn has_bit(v: u64, i: u64) -> bool {
    (v >> i) & 1u64 == 1u64
}

/// The offsets `0 .. width * height` of a grid.
pub open spec fn region(size: Size) -> Set<int> {
    Set::new(|o: int| 0 <= o < size.num_cells())
}

/// The cells of a grid, as offsets, held in a 64-bit set.
#[derive(Copy, Clone, Debug, PartialEq, Eq, Structural)]
pub struct BitBoard {
    bits: u64,
}

impl View for BitBoard {
    type V = Set<int>;

    /// The offsets whose bit is set.
    closed spec fn view(&self) -> Set<int> {
        Set::new(|i: int| 0 <= i < 64 && has_bit(self.bits, i as u64))
    }
}

proof fn lemma_bits_logic()
    by (bit_vector)
    ensures
        forall|a: u64, b: u64, i: u64|
            i < 64 ==> #[trigger] has_bit(a & b, i) == (has_bit(a, i) && has_bit(b, i)),
        forall|a: u64, b: u64, i: u64|
            i < 64 ==> #[trigger] has_bit(a | b, i) == (has_bit(a, i) || has_bit(b, i)),
        forall|a: u64, b: u64, i: u64|
            i < 64 ==> #[trigger] has_bit(a ^ b, i) == (has_bit(a, i) != has_bit(b, i)),
        forall|a: u64, i: u64| i < 64 ==> #[trigger] has_bit(!a, i) == !has_bit(a, i),
        forall|i: u64| i < 64 ==> !#[trigger] has_bit(0u64, i),
{
}

proof fn lemma_bits_shift()
    by (bit_vector)
    ensures
        forall|a: u64, n: u64, i: u64|
            n < 64 && i < 64 ==> #[trigger] has_bit(a << n, i) == (i >= n && has_bit(
                a,
                (i - n) as u64,
            )),
        forall|a: u64, n: u64, i: u64|
            n < 64 && i < 64 ==> #[trigger] has_bit(a >> n, i) == (i + n < 64 && has_bit(
                a,
                (i + n) as u64,
            )),
{
}

proof fn lemma_bits_prefix()
    by (bit_vector)
    ensures
        forall|n: u64, i: u64| n < 64 && i < 64 ==> #[trigger] has_bit(1u64 << n, i) == (i == n),
        forall|n: u64, i: u64|
            n < 64 && i < 64 ==> #[trigger] has_bit(((1u64 << n) - 1u64) as u64, i) == (i < n),
        forall|i: u64| i < 64 ==> #[trigger] has_bit(0xffff_ffff_ffff_ffffu64, i),
        forall|n: u64| n < 64 ==> #[trigger] (1u64 << n) >= 1u64,
{
}

/// The members of `s` below `n`, in ascending order.
pub open spec fn ascending(s: Set<int>, n: int) -> Seq<int>
    decreases n,
{
    if n <= 0 {
        seq![]
    } else if s.contains(n - 1) {
        ascending(s, n - 1).push(n - 1)
    } else {
        ascending(s, n - 1)
    }
}

/// The set of a bit-set is finite: it lies in `0 .. 64`.
pub proof fn lemma_view_finite(b: BitBoard)
    ensures
        b@.finite(),
        b@.subset_of(vstd::set_lib::set_int_range(0, 64)),
{
    vstd::set_lib::lemma_int_range(0, 64);
    vstd::set_lib::lemma_len_subset(b@, vstd::set_lib::set_int_range(0, 64));
}

/// The region of a grid is finite, of `width * height` cells.
pub proof fn lemma_region(size: Size)
    requires
        size.valid(),
    ensures
        region(size).finite(),
        region(size).len() == size.num_cells(),
        region(size) == vstd::set_lib::set_int_range(0, size.num_cells()),
{
    vstd::set_lib::lemma_int_range(0, size.num_cells());
    assert(region(size) =~= vstd::set_lib::set_int_range(0, size.num_cells()));
}

impl BitBoard {
    /// The set lies in the region of the grid.
    pub open spec fn within(self, size: Size) -> bool {
        self@.subset_of(region(size))
    }

    /// The empty set.
    pub fn empty() -> (r: BitBoard)
        ensures
            r@ == Set::<int>::empty(),
    {
        proof {
            lemma_bits_logic();
        }
        let r = BitBoard { bits: 0 };
        assert(r@ =~= Set::<int>::empty());
        r
    }

    /// Every cell of a grid of the given size.
    pub fn all_filled(size: Size) -> (r: BitBoard)
        requires
            size.valid(),
        ensures
            r@ == region(size),
    {
        proof {
            lemma_bits_prefix();
            assert(size.0 * size.1 <= 64) by (nonlinear_arith)
                requires
                    size.0 <= 8,
                    size.1 <= 8,
            ;
        }
        let num_cell = size.0 * size.1;
        let r = if num_cell == 64 {
            BitBoard { bits: 0xffff_ffff_ffff_ffffu64 }
        } else {
            BitBoard { bits: (1u64 << num_cell as u64) - 1 }
        };
        assert(r@ =~= region(size));
        r
    }

    /// The set of the one cell `pt`.
    pub fn from_point(pt: Point, size: Size) -> (r: BitBoard)
        requires
            size.valid(),
            pt.within(size),
        ensures
            r@ == set![pt.spec_offset(size)],
            r.within(size),
    {
        proof {
            lemma_bits_prefix();
            assert(size.0 * size.1 <= 64) by (nonlinear_arith)
                requires
                    size.0 <= 8,
                    size.1 <= 8,
            ;
        }
        let off = pt.offset(size);
        let r = BitBoard { bits: 1u64 << off as u64 };
        assert(r@ =~= set![pt.spec_offset(size)]);
        r
    }

    /// The cells of either set.
    pub fn union(self, other: BitBoard) -> (r: BitBoard)
        ensures
            r@ == self@.union(other@),
    {
        proof {
            lemma_bits_logic();
        }
        let r = BitBoard { bits: self.bits | other.bits };
        assert(r@ =~= self@.union(other@));
        r
    }

    /// The cells of both sets.
    pub fn intersection(self, other: BitBoard) -> (r: BitBoard)
        ensures
            r@ == self@.intersect(other@),
    {
        proof {
            lemma_bits_logic();
        }
        let r = BitBoard { bits: self.bits & other.bits };
        assert(r@ =~= self@.intersect(other@));
        r
    }

    /// The cells of `self` that are not in `other`.
    pub fn difference(self, other: BitBoard) -> (r: BitBoard)
        ensures
            r@ == self@.difference(other@),
    {
        proof {
            lemma_bits_logic();
        }
        let r = BitBoard { bits: self.bits & !other.bits };
        assert(r@ =~= self@.difference(other@));
        r
    }

    /// The cells of exactly one of the two sets.
    pub fn symmetric_difference(self, other: BitBoard) -> (r: BitBoard)
        ensures
            r@ == self@.union(other@).difference(self@.intersect(other@)),
    {
        proof {
            lemma_bits_logic();
        }
        let r = BitBoard { bits: self.bits ^ other.bits };
        assert(r@ =~= self@.union(other@).difference(self@.intersect(other@)));
        r
    }

    /// The cells of the grid that are not in the set.
    pub fn complement(self, size: Size) -> (r: BitBoard)
        requires
            size.valid(),
        ensures
            r@ == region(size).difference(self@),
    {
        proof {
            lemma_bits_logic();
        }
        let all = Self::all_filled(size);
        let r = BitBoard { bits: all.bits & !self.bits };
        assert(r@ =~= region(size).difference(self@));
        r
    }

    /// Every offset moved up by `n`; what passes bit 63 is lost.
    pub fn shift_left(self, n: u32) -> (r: BitBoard)
        requires
            n < 64,
        ensures
            r@ == Set::new(|i: int| n <= i < 64 && self@.contains(i - n)),
    {
        proof {
            lemma_bits_shift();
        }
        let r = BitBoard { bits: self.bits << n as u64 };
        assert(r@ =~= Set::new(|i: int| n <= i < 64 && self@.contains(i - n)));
        r
    }

    /// Every offset moved down by `n`; what passes bit 0 is lost.
    pub fn shift_right(self, n: u32) -> (r: BitBoard)
        requires
            n < 64,
        ensures
            r@ == Set::new(|i: int| 0 <= i && self@.contains(i + n)),
    {
        proof {
            lemma_bits_shift();
        }
        let r = BitBoard { bits: self.bits >> n as u64 };
        assert(r@ =~= Set::new(|i: int| 0 <= i && self@.contains(i + n)));
        r
    }

    /// The set holds no cell.
    pub fn is_empty(self) -> (r: bool)
        ensures
            r == (self@ == Set::<int>::empty()),
    {
        proof {
            lemma_bits_logic();
            if self.bits == 0 {
                assert(self@ =~= Set::<int>::empty());
            } else {
                vstd::std_specs::bits::axiom_u64_trailing_zeros(self.bits);
                let t = vstd::std_specs::bits::u64_trailing_zeros(self.bits);
                assert(self@.contains(t as int));
            }
        }
        self.bits == 0
    }

    /// The number of cells in the set.
    pub fn num_bits(self) -> (r: u32)
        ensures
            r == self@.len(),
            r <= 64,
    {
        let mut count: u32 = 0;
        let mut i: u32 = 0;
        proof {
            assert(Set::new(|j: int| 0 <= j < 0 && has_bit(self.bits, j as u64)) =~= Set::<
                int,
            >::empty());
        }
        while i < 64
            invariant
                i <= 64,
                count <= i,
                Set::new(|j: int| 0 <= j < i && has_bit(self.bits, j as u64)).finite(),
                count == Set::new(|j: int| 0 <= j < i && has_bit(self.bits, j as u64)).len(),
            decreases 64 - i,
        {
            let ghost before = Set::new(|j: int| 0 <= j < i && has_bit(self.bits, j as u64));
            let ghost after = Set::new(|j: int| 0 <= j < i + 1 && has_bit(self.bits, j as u64));
            if (self.bits >> i as u64) & 1 == 1 {
                assert(after =~= before.insert(i as int));
                count = count + 1;
            } else {
                assert(after =~= before);
            }
            i = i + 1;
        }
        proof {
            assert(self@ =~= Set::new(|j: int| 0 <= j < 64 && has_bit(self.bits, j as u64)));
        }
        count
    }

    /// The cell `pt` is in the set.
    pub fn contains(self, pt: Point, size: Size) -> (r: bool)
        requires
            size.valid(),
            pt.within(size),
        ensures
            r == self@.contains(pt.spec_offset(size)),
    {
        let cell = Self::from_point(pt, size);
        let both = self.intersection(cell);
        proof {
            let o = pt.spec_offset(size);
            if self@.contains(o) {
                assert(both@.contains(o));
            } else {
                assert(both@ =~= Set::<int>::empty());
            }
        }
        !both.is_empty()
    }

    /// The cell of lowest offset in the set, if any.
    pub fn lowest(self, size: Size) -> (r: Option<Point>)
        requires
            size.valid(),
            self.within(size),
        ensures
            r is None <==> self@ == Set::<int>::empty(),
            r is Some ==> r.unwrap().within(size) && self@.contains(r.unwrap().spec_offset(size))
                && forall|o: int| self@.contains(o) ==> r.unwrap().spec_offset(size) <= o,
    {
        if self.is_empty() {
            return None;
        }
        let off = self.bits.trailing_zeros();
        proof {
            lemma_bits_logic();
            if self.bits == 0 {
                assert(self@ =~= Set::<int>::empty());
            }
            vstd::std_specs::bits::axiom_u64_trailing_zeros(self.bits);
            assert(off < 64);
            assert(self@.contains(off as int));
            assert forall|o: int| self@.contains(o) implies off <= o by {
                if o < off {
                    assert((self.bits >> (o as u64)) & 1u64 == 0u64);
                }
            }
        }
        Some(Point::from_offset(off, size))
    }

    /// The cell of highest offset in the set, if any.
    pub fn highest(self, size: Size) -> (r: Option<Point>)
        requires
            size.valid(),
            self.within(size),
        ensures
            r is None <==> self@ == Set::<int>::empty(),
            r is Some ==> r.unwrap().within(size) && self@.contains(r.unwrap().spec_offset(size))
                && forall|o: int| self@.contains(o) ==> o <= r.unwrap().spec_offset(size),
    {
        if self.is_empty() {
            return None;
        }
        let lz = self.bits.leading_zeros();
        proof {
            lemma_bits_logic();
            if self.bits == 0 {
                assert(self@ =~= Set::<int>::empty());
            }
            vstd::std_specs::bits::axiom_u64_leading_zeros(self.bits);
            assert(lz < 64);
            let top = (63 - lz) as u64;
            let v = self.bits;
            assert((v >> top) & 1u64 != 0u64);
            assert(((v >> top) & 1u64) == 1u64) by (bit_vector)
                requires
                    (v >> top) & 1u64 != 0u64,
            ;
            assert(self@.contains(top as int));
            assert forall|o: int| self@.contains(o) implies o <= top by {
                if o > top {
                    assert((self.bits >> (o as u64)) & 1u64 == 0u64);
                }
            }
        }
        Some(Point::from_offset(63 - lz, size))
    }

    /// The cells of the set in ascending order of offset.
    pub fn points(self, size: Size) -> (r: Vec<Point>)
        requires
            size.valid(),
            self.within(size),
        ensures
            forall|k: int|
                0 <= k < r.len() ==> (#[trigger] r[k]).within(size) && self@.contains(
                    r[k].spec_offset(size),
                ),
            forall|k: int, l: int|
                0 <= k < l < r.len() ==> r[k].spec_offset(size) < r[l].spec_offset(size),
            forall|o: int|
                self@.contains(o) ==> exists|k: int|
                    0 <= k < r.len() && #[trigger] r[k].spec_offset(size) == o,
            r@.map_values(|p: Point| p.spec_offset(size)) == ascending(self@, size.num_cells()),
    {
        proof {
            assert(size.0 * size.1 <= 64) by (nonlinear_arith)
                requires
                    size.0 <= 8,
                    size.1 <= 8,
            ;
        }
        let num_cell = size.0 * size.1;
        let mut out: Vec<Point> = Vec::new();
        proof {
            assert(out@.map_values(|p: Point| p.spec_offset(size)) =~= ascending(self@, 0));
        }
        let mut off: u32 = 0;
        while off < num_cell
            invariant
                off <= num_cell,
                num_cell == size.num_cells(),
                size.valid(),
                self.within(size),
                forall|k: int|
                    0 <= k < out.len() ==> #[trigger] out[k].within(size) && self@.contains(
                        out[k].spec_offset(size),
                    ) && out[k].spec_offset(size) < off,
                forall|k: int, l: int|
                    0 <= k < l < out.len() ==> out[k].spec_offset(size) < out[l].spec_offset(
                        size,
                    ),
                forall|o: int|
                    0 <= o < off && self@.contains(o) ==> exists|k: int|
                        0 <= k < out.len() && #[trigger] out[k].spec_offset(size) == o,
                out@.map_values(|p: Point| p.spec_offset(size)) == ascending(self@, off as int),
            decreases num_cell - off,
        {
            let pt = Point::from_offset(off, size);
            if self.contains(pt, size) {
                let ghost old_out = out@;
                out.push(pt);
                proof {
                    assert forall|k: int| 0 <= k < out.len() implies #[trigger] out[k].within(size)
                        && self@.contains(out[k].spec_offset(size)) && out[k].spec_offset(size) < off
                        + 1 by {
                        if k < old_out.len() {
                            assert(out[k] == old_out[k]);
                            assert(old_out[k].within(size));
                        }
                    }
                    assert(out@.map_values(|p: Point| p.spec_offset(size)) =~= old_out.map_values(
                        |p: Point| p.spec_offset(size),
                    ).push(off as int));
                    assert forall|k: int, l: int|
                        0 <= k < l < out.len() implies out[k].spec_offset(size) < out[l].spec_offset(
                        size,
                    ) by {
                        if l < out.len() - 1 {
                            assert(out[k] == old_out[k] && out[l] == old_out[l]);
                        } else {
                            assert(out[k] == old_out[k]);
                            assert(old_out[k].within(size));
                            assert(out[l] == pt);
                        }
                    }
                    assert forall|o: int|
                        0 <= o < off + 1 && self@.contains(o) implies exists|k: int|
                        0 <= k < out.len() && #[trigger] out[k].spec_offset(size) == o by {
                        if o < off {
                            let k = choose|k: int|
                                0 <= k < old_out.len() && #[trigger] old_out[k].spec_offset(size)
                                    == o;
                            assert(out[k] == old_out[k]);
                        } else {
                            assert(out[out.len() - 1].spec_offset(size) == o);
                        }
                    }
                }
            }
            off = off + 1;
        }
        assert forall|k: int| 0 <= k < out.len() implies (#[trigger] out[k]).within(size)
            && self@.contains(out[k].spec_offset(size)) by {
            assert(out[k].within(size));
        }
        out
    }
}

} // verus!
