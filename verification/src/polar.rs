use vstd::prelude::*;

use crate::geometry::{spec_col, spec_row};

verus! {

/// Position of the square `j` in the square-spiral scan of a board of
/// width `w`.  Its ring is the larger of its row and column; a ring is
/// entered at the top of its last column, walked down that column, then
/// leftward along its last row.
pub open spec fn polar_pos(j: int, w: int) -> int {
    let rw = spec_row(j, w);
    let cl = spec_col(j, w);
    let ring = vstd::math::max(rw, cl);
    if cl == ring {
        ring * ring + rw
    } else {
        ring * ring + ring + (ring - cl)
    }
}

/// `p` is the spiral position of the earliest member of `qs`.
pub open spec fn is_first_rank(qs: Set<int>, w: int, p: int) -> bool {
    &&& exists|q: int| #[trigger] qs.contains(q) && polar_pos(q, w) == p
    &&& forall|q: int| #[trigger] qs.contains(q) ==> polar_pos(q, w) >= p
}

/// A set has at most one first rank.
pub proof fn lemma_first_rank_unique(qs: Set<int>, w: int, p1: int, p2: int)
    requires
        is_first_rank(qs, w, p1),
        is_first_rank(qs, w, p2),
    ensures
        p1 == p2,
{
    let q1 = choose|q: int| #[trigger] qs.contains(q) && polar_pos(q, w) == p1;
    let q2 = choose|q: int| #[trigger] qs.contains(q) && polar_pos(q, w) == p2;
    assert(polar_pos(q1, w) >= p2);
    assert(polar_pos(q2, w) >= p1);
}

/// Every in-bounds square has an in-bounds spiral position.
pub proof fn lemma_polar_pos_bounds(j: int, w: int)
    requires
        1 <= w,
        0 <= j < w * w,
    ensures
        0 <= polar_pos(j, w) < w * w,
{
    vstd::arithmetic::div_mod::lemma_fundamental_div_mod(j, w);
    vstd::arithmetic::div_mod::lemma_mod_bound(j, w);
    let rw = spec_row(j, w);
    let cl = spec_col(j, w);
    assert(0 <= rw && rw < w) by (nonlinear_arith)
        requires
            1 <= w,
            0 <= j < w * w,
            j == w * rw + cl,
            0 <= cl < w,
    ;
    let ring = vstd::math::max(rw, cl);
    assert(0 <= polar_pos(j, w) && polar_pos(j, w) <= ring * ring + 2 * ring && ring * ring + 2
        * ring < w * w) by (nonlinear_arith)
        requires
            0 <= rw < w,
            0 <= cl < w,
            ring == vstd::math::max(rw, cl),
            polar_pos(j, w) == (if cl == ring {
                ring * ring + rw
            } else {
                ring * ring + ring + (ring - cl)
            }),
    ;
}

/// No two distinct squares share a spiral position.
pub proof fn lemma_polar_pos_injective(j1: int, j2: int, w: int)
    requires
        1 <= w,
        0 <= j1 < w * w,
        0 <= j2 < w * w,
        polar_pos(j1, w) == polar_pos(j2, w),
    ensures
        j1 == j2,
{
    vstd::arithmetic::div_mod::lemma_fundamental_div_mod(j1, w);
    vstd::arithmetic::div_mod::lemma_mod_bound(j1, w);
    vstd::arithmetic::div_mod::lemma_fundamental_div_mod(j2, w);
    vstd::arithmetic::div_mod::lemma_mod_bound(j2, w);
    let r1 = spec_row(j1, w);
    let c1 = spec_col(j1, w);
    let r2 = spec_row(j2, w);
    let c2 = spec_col(j2, w);
    assert(0 <= r1 < w && 0 <= r2 < w) by (nonlinear_arith)
        requires
            1 <= w,
            0 <= j1 < w * w,
            0 <= j2 < w * w,
            j1 == w * r1 + c1,
            j2 == w * r2 + c2,
            0 <= c1 < w,
            0 <= c2 < w,
    ;
    let g1 = vstd::math::max(r1, c1);
    let g2 = vstd::math::max(r2, c2);
    let p1 = polar_pos(j1, w);
    let p2 = polar_pos(j2, w);
    assert(g1 * g1 <= p1 <= g1 * g1 + 2 * g1) by (nonlinear_arith)
        requires
            0 <= r1 <= g1,
            0 <= c1 <= g1,
            p1 == (if c1 == g1 {
                g1 * g1 + r1
            } else {
                g1 * g1 + g1 + (g1 - c1)
            }),
    ;
    assert(g2 * g2 <= p2 <= g2 * g2 + 2 * g2) by (nonlinear_arith)
        requires
            0 <= r2 <= g2,
            0 <= c2 <= g2,
            p2 == (if c2 == g2 {
                g2 * g2 + r2
            } else {
                g2 * g2 + g2 + (g2 - c2)
            }),
    ;
    assert(g1 == g2) by (nonlinear_arith)
        requires
            0 <= g1,
            0 <= g2,
            p1 == p2,
            g1 * g1 <= p1 <= g1 * g1 + 2 * g1,
            g2 * g2 <= p2 <= g2 * g2 + 2 * g2,
    ;
    assert(r1 == r2 && c1 == c2) by (nonlinear_arith)
        requires
            0 <= r1 <= g1,
            0 <= c1 <= g1,
            0 <= r2 <= g1,
            0 <= c2 <= g1,
            g1 == g2,
            g1 == vstd::math::max(r1, c1),
            g1 == vstd::math::max(r2, c2),
            p1 == p2,
            p1 == (if c1 == g1 {
                g1 * g1 + r1
            } else {
                g1 * g1 + g1 + (g1 - c1)
            }),
            p2 == (if c2 == g1 {
                g1 * g1 + r2
            } else {
                g1 * g1 + g1 + (g1 - c2)
            }),
    ;
    assert(j1 == j2);
}

/// Square-spiral enumeration of the board's indices, ring by ring: ring
/// `r` first yields the top of its last column, then walks down that
/// column, then walks left along its last row.  Used as a stable,
/// rotation-sensitive tie-break when a board is canonicalized.
#[derive(Debug, Clone, Copy, PartialEq, Eq, PartialOrd, Ord, Hash)]
pub struct PolarScan {
    width: usize,
    column: usize,
    row: usize,
    max: usize,
}

impl PolarScan {
    /// The board width being scanned.
    pub closed spec fn spec_width(self) -> int {
        self.width as int
    }

    /// The current ring.
    pub closed spec fn spec_max(self) -> int {
        self.max as int
    }

    /// The current row within the ring.
    pub closed spec fn spec_row(self) -> int {
        self.row as int
    }

    /// The current column within the ring.
    pub closed spec fn spec_column(self) -> int {
        self.column as int
    }

    /// The scanner never leaves its current ring, and the board is small
    /// enough that every index fits the machine word.
    pub open spec fn wf(self) -> bool {
        &&& 0 <= self.spec_row() <= self.spec_max()
        &&& 0 <= self.spec_column() <= self.spec_max()
        &&& self.spec_max() <= self.spec_width()
        &&& self.spec_column() == self.spec_max() || self.spec_row() == self.spec_max()
        &&& self.spec_max() == self.spec_width() ==> self.spec_column() == self.spec_max()
            && self.spec_row() == 0
        &&& self.spec_width() * self.spec_width() <= usize::MAX as int
    }

    /// Spiral position of the index the scan will yield next: how many
    /// indices have been yielded so far.
    pub open spec fn scan_pos(self) -> int {
        if self.spec_column() == self.spec_max() {
            self.spec_max() * self.spec_max() + self.spec_row()
        } else {
            self.spec_max() * self.spec_max() + self.spec_max() + (self.spec_max()
                - self.spec_column())
        }
    }

    /// Strictly shrinks with every index the scan yields.
    pub open spec fn measure(self) -> int {
        (self.spec_width() - self.spec_max()) * (2 * self.spec_width() + 2) + (self.spec_max()
            + self.spec_column() - self.spec_row())
    }

    pub fn new(width: usize) -> (r: PolarScan)
        requires
            (width as int) * (width as int) <= usize::MAX as int,
        ensures
            r.wf(),
            r.spec_width() == width as int,
            r.spec_max() == 0,
            r.spec_row() == 0,
            r.spec_column() == 0,
            r.scan_pos() == 0,
    {
        PolarScan { width, column: 0, row: 0, max: 0 }
    }

    /// The next index of the spiral, or nothing once the spiral has left
    /// the board.
    pub fn next(&mut self) -> (r: Option<usize>)
        requires
            old(self).wf(),
        ensures
            final(self).wf(),
            final(self).spec_width() == old(self).spec_width(),
            old(self).spec_max() >= old(self).spec_width() ==> r is None && *final(self) == *old(
                self,
            ),
            old(self).spec_max() < old(self).spec_width() ==> {
                &&& r == Some::<usize>(
                    ((old(self).spec_row() * old(self).spec_width() + old(
                        self,
                    ).spec_column())) as usize,
                )
                &&& old(self).spec_row() * old(self).spec_width() + old(self).spec_column() < old(
                    self,
                ).spec_width() * old(self).spec_width()
                &&& final(self).measure() < old(self).measure()
                &&& polar_pos(
                    old(self).spec_row() * old(self).spec_width() + old(self).spec_column(),
                    old(self).spec_width(),
                ) == old(self).scan_pos()
                &&& final(self).scan_pos() == old(self).scan_pos() + 1
                &&& if old(self).spec_column() == 0 {
                    final(self).spec_max() == old(self).spec_max() + 1 && final(self).spec_column()
                        == old(self).spec_max() + 1 && final(self).spec_row() == 0
                } else if old(self).spec_row() < old(self).spec_max() {
                    final(self).spec_max() == old(self).spec_max() && final(self).spec_column()
                        == old(self).spec_column() && final(self).spec_row() == old(self).spec_row()
                        + 1
                } else {
                    final(self).spec_max() == old(self).spec_max() && final(self).spec_column()
                        == old(self).spec_column() - 1 && final(self).spec_row() == old(
                        self,
                    ).spec_row()
                }
            },
    {
        if self.max >= self.width {
            return None;
        }
        proof {
            let w = self.spec_width();
            let rw = self.spec_row();
            let cl = self.spec_column();
            assert(0 <= rw * w && rw * w + cl < w * w) by (nonlinear_arith)
                requires
                    0 <= rw < w,
                    0 <= cl < w,
            ;
        }
        let result = self.row * self.width + self.column;
        let ghost pre = *self;
        if self.column == 0 {
            self.max = self.max + 1;
            self.column = self.max;
            self.row = 0;
        } else if self.row < self.max {
            self.row = self.row + 1;
        } else {
            self.column = self.column - 1;
        }
        proof {
            let w = pre.spec_width();
            let m = pre.spec_max();
            let rw = pre.spec_row();
            let cl = pre.spec_column();
            vstd::arithmetic::div_mod::lemma_fundamental_div_mod_converse(rw * w + cl, w, rw, cl);
            assert(vstd::math::max(rw, cl) == m);
            assert(polar_pos(rw * w + cl, w) == pre.scan_pos());
            if cl == 0 {
                assert((w - (m + 1)) * (2 * w + 2) + (2 * m + 2) < (w - m) * (2 * w + 2) + (m + cl
                    - rw)) by (nonlinear_arith)
                    requires
                        m < w,
                        cl == 0,
                        0 <= rw <= m,
                ;
                assert((m + 1) * (m + 1) == m * m + 2 * m + 1) by (nonlinear_arith);
                assert(self.scan_pos() == pre.scan_pos() + 1);
            } else if rw < m {
                assert(cl == m);
                assert(self.scan_pos() == pre.scan_pos() + 1);
            } else {
                assert(rw == m);
                assert(self.scan_pos() == pre.scan_pos() + 1);
            }
        }
        Some(result)
    }
}

} // verus!
