use vstd::prelude::*;

use crate::board::{free_square, iset, lemma_board_determined, safe_set, Board};
use crate::geometry::{aligned, spec_col, spec_row};
use crate::polar::{is_first_rank, polar_pos, PolarScan};

verus! {

/// New flat index of a queen at `q` after one clockwise quarter turn of a
/// board of width `w`.
pub open spec fn rotate_index(q: int, w: int) -> int {
    w * (1 + spec_col(q, w)) - spec_row(q, w) - 1
}

/// Image of a queen set under one clockwise quarter turn.
pub open spec fn rotate_set(qs: Set<int>, w: int) -> Set<int> {
    Set::new(
        |j: int|
            exists|q: int| #[trigger] qs.contains(q) && 0 <= q < w * w && j == rotate_index(q, w),
    )
}

/// Image of a queen set under `k` clockwise quarter turns.
pub open spec fn rotate_set_n(qs: Set<int>, w: int, k: nat) -> Set<int>
    decreases k,
{
    if k == 0 {
        qs
    } else {
        rotate_set(rotate_set_n(qs, w, (k - 1) as nat), w)
    }
}

/// All members of the set are in-bounds board indices.
pub open spec fn in_range(qs: Set<int>, w: int) -> bool {
    forall|q: int| #[trigger] qs.contains(q) ==> 0 <= q < w * w
}

/// A quarter turn sends the square in row `r`, column `c` to the square in
/// row `c`, column `w - 1 - r`.
proof fn lemma_rotate_index_rc(q: int, w: int)
    requires
        1 <= w,
        0 <= q < w * w,
    ensures
        0 <= rotate_index(q, w) < w * w,
        spec_row(rotate_index(q, w), w) == spec_col(q, w),
        spec_col(rotate_index(q, w), w) == w - 1 - spec_row(q, w),
{
    let r = spec_row(q, w);
    let c = spec_col(q, w);
    vstd::arithmetic::div_mod::lemma_fundamental_div_mod(q, w);
    vstd::arithmetic::div_mod::lemma_mod_bound(q, w);
    assert(0 <= r < w) by (nonlinear_arith)
        requires
            1 <= w,
            0 <= q < w * w,
            q == w * r + c,
            0 <= c < w,
    ;
    let j = rotate_index(q, w);
    assert(j == c * w + (w - 1 - r) && 0 <= j < w * w) by (nonlinear_arith)
        requires
            1 <= w,
            j == w * (1 + c) - r - 1,
            0 <= r < w,
            0 <= c < w,
    ;
    vstd::arithmetic::div_mod::lemma_fundamental_div_mod_converse(j, w, c, w - 1 - r);
}

/// A quarter turn maps rows to columns, columns to rows, and swaps the two
/// diagonal families, so it preserves whether two squares attack each
/// other, and it sends distinct squares to distinct squares.
proof fn lemma_rotate_pair(q1: int, q2: int, w: int)
    requires
        1 <= w,
        0 <= q1 < w * w,
        0 <= q2 < w * w,
    ensures
        aligned(rotate_index(q1, w), rotate_index(q2, w), w) <==> aligned(q1, q2, w),
        (rotate_index(q1, w) == rotate_index(q2, w)) <==> q1 == q2,
{
    lemma_rotate_index_rc(q1, w);
    lemma_rotate_index_rc(q2, w);
    vstd::arithmetic::div_mod::lemma_fundamental_div_mod(q1, w);
    vstd::arithmetic::div_mod::lemma_fundamental_div_mod(q2, w);
    vstd::arithmetic::div_mod::lemma_fundamental_div_mod(rotate_index(q1, w), w);
    vstd::arithmetic::div_mod::lemma_fundamental_div_mod(rotate_index(q2, w), w);
}

/// Four quarter turns return every square to where it started.
proof fn lemma_rotate_index_cycle(q: int, w: int)
    requires
        1 <= w,
        0 <= q < w * w,
    ensures
        rotate_index(rotate_index(rotate_index(rotate_index(q, w), w), w), w) == q,
{
    let q1 = rotate_index(q, w);
    let q2 = rotate_index(q1, w);
    let q3 = rotate_index(q2, w);
    lemma_rotate_index_rc(q, w);
    lemma_rotate_index_rc(q1, w);
    lemma_rotate_index_rc(q2, w);
    lemma_rotate_index_rc(q3, w);
    vstd::arithmetic::div_mod::lemma_fundamental_div_mod(q, w);
    vstd::arithmetic::div_mod::lemma_fundamental_div_mod(rotate_index(q3, w), w);
}

/// A turn keeps the queen set inside the board.
proof fn lemma_rotate_set_range(qs: Set<int>, w: int)
    requires
        1 <= w,
        in_range(qs, w),
    ensures
        in_range(rotate_set(qs, w), w),
{
    assert forall|j: int| #[trigger] rotate_set(qs, w).contains(j) implies 0 <= j < w * w by {
        let q = choose|q: int| #[trigger] qs.contains(q) && 0 <= q < w * w && j == rotate_index(
            q,
            w,
        );
        lemma_rotate_index_rc(q, w);
    }
}

/// Splitting a turn count applies the two parts in sequence.
proof fn lemma_rotate_compose(qs: Set<int>, w: int, a: nat, b: nat)
    ensures
        rotate_set_n(qs, w, a + b) == rotate_set_n(rotate_set_n(qs, w, a), w, b),
    decreases b,
{
    if b > 0 {
        lemma_rotate_compose(qs, w, a, (b - 1) as nat);
        assert(a + b == (a + (b - 1) as nat) + 1);
    }
}

/// Four clockwise quarter turns compose to the identity on any in-bounds
/// queen set: rotating a board four times restores it.
pub proof fn lemma_rotation_cycle(qs: Set<int>, w: int)
    requires
        1 <= w,
        in_range(qs, w),
    ensures
        rotate_set_n(qs, w, 4) == qs,
{
    let s1 = rotate_set(qs, w);
    let s2 = rotate_set(s1, w);
    let s3 = rotate_set(s2, w);
    let s4 = rotate_set(s3, w);
    lemma_rotate_set_range(qs, w);
    lemma_rotate_set_range(s1, w);
    lemma_rotate_set_range(s2, w);
    lemma_rotate_set_range(s3, w);
    assert(rotate_set_n(qs, w, 0) == qs);
    assert(rotate_set_n(qs, w, 1) == s1);
    assert(rotate_set_n(qs, w, 2) == s2);
    assert(rotate_set_n(qs, w, 3) == s3);
    assert(rotate_set_n(qs, w, 4) == s4);
    assert forall|j: int| #[trigger] s4.contains(j) implies qs.contains(j) by {
        let q3 = choose|q: int| #[trigger] s3.contains(q) && 0 <= q < w * w && j == rotate_index(
            q,
            w,
        );
        let q2 = choose|q: int| #[trigger] s2.contains(q) && 0 <= q < w * w && q3 == rotate_index(
            q,
            w,
        );
        let q1 = choose|q: int| #[trigger] s1.contains(q) && 0 <= q < w * w && q2 == rotate_index(
            q,
            w,
        );
        let q0 = choose|q: int| #[trigger] qs.contains(q) && 0 <= q < w * w && q1 == rotate_index(
            q,
            w,
        );
        lemma_rotate_index_cycle(q0, w);
    }
    assert forall|j: int| #[trigger] qs.contains(j) implies s4.contains(j) by {
        let j1 = rotate_index(j, w);
        let j2 = rotate_index(j1, w);
        let j3 = rotate_index(j2, w);
        lemma_rotate_index_rc(j, w);
        lemma_rotate_index_rc(j1, w);
        lemma_rotate_index_rc(j2, w);
        assert(s1.contains(j1));
        assert(s2.contains(j2));
        assert(s3.contains(j3));
        lemma_rotate_index_cycle(j, w);
        assert(s4.contains(rotate_index(j3, w)));
    }
    assert(s4 =~= qs);
}

/// Turning a board four quarter turns restores it cell for cell: the
/// four-fold image of its queen set is the set itself, and under the
/// invariant the queen set pins down the whole board.
pub proof fn lemma_four_rotations_identity(b0: Board, b4: Board)
    requires
        b0.wf(),
        b4.wf(),
        b4.spec_width() == b0.spec_width(),
        b4.qset() == rotate_set_n(b0.qset(), b0.spec_width(), 4),
    ensures
        b4.spec_queens() == b0.spec_queens(),
        b4.spec_cells() == b0.spec_cells(),
{
    let w = b0.spec_width();
    let qs = b0.qset();
    assert(in_range(qs, w)) by {
        assert(forall|q: int| qs.contains(q) ==> 0 <= q < w * w);
    }
    if w == 0 {
        assert(qs =~= Set::<int>::empty());
        assert(rotate_set(qs, w) =~= qs);
        assert(rotate_set_n(qs, w, 0) == qs);
        assert(rotate_set_n(qs, w, 1) == qs);
        assert(rotate_set_n(qs, w, 2) == qs);
        assert(rotate_set_n(qs, w, 3) == qs);
        assert(rotate_set_n(qs, w, 4) == qs);
    } else {
        lemma_rotation_cycle(qs, w);
    }
    lemma_board_determined(b4, b0);
}

/// Turn counts matter only modulo four.
proof fn lemma_rotate_mod(qs: Set<int>, w: int, k: nat)
    requires
        1 <= w,
        in_range(qs, w),
    ensures
        rotate_set_n(qs, w, k) == rotate_set_n(qs, w, (k % 4) as nat),
    decreases k,
{
    if k >= 4 {
        lemma_rotate_compose(qs, w, 4, (k - 4) as nat);
        lemma_rotation_cycle(qs, w);
        lemma_rotate_mod(qs, w, (k - 4) as nat);
        assert((k - 4) % 4 == k % 4) by {
            assert(k == ((k - 4) / 4 + 1) * 4 + (k - 4) % 4) by {
                vstd::arithmetic::div_mod::lemma_fundamental_div_mod((k - 4) as int, 4);
            }
            vstd::arithmetic::div_mod::lemma_fundamental_div_mod_converse(
                k as int,
                4,
                (k - 4) / 4 + 1,
                ((k - 4) % 4) as int,
            );
        }
    }
}

/// Undoing a turn count: `r` turns followed by `(4 - r) % 4` more turns
/// restore the original set — the round trip through a canonical
/// orientation is the identity.
pub proof fn lemma_rotation_round_trip(qs: Set<int>, w: int, r: nat)
    requires
        1 <= w,
        r < 4,
        in_range(qs, w),
    ensures
        rotate_set_n(rotate_set_n(qs, w, r), w, ((4 - r) % 4) as nat) == qs,
{
    if r == 0 {
        assert(((4 - r) % 4) as nat == 0);
    } else {
        assert(r + ((4 - r) % 4) as nat == 4);
        lemma_rotate_compose(qs, w, r, ((4 - r) % 4) as nat);
        lemma_rotation_cycle(qs, w);
    }
}

/// `rr` is the canonical turn count for the queen set `qs`: among the
/// four rotations, the one reached after `rr` turns has its first queen
/// earliest in the polar scan, and no smaller turn count does as well
/// (ties go to the lowest count).
pub open spec fn canonical_choice(qs: Set<int>, w: int, rr: int) -> bool {
    &&& 0 <= rr < 4
    &&& forall|k: int, pk: int, pr: int|
        0 <= k < 4 && #[trigger] is_first_rank(rotate_set_n(qs, w, k as nat), w, pk)
            && #[trigger] is_first_rank(rotate_set_n(qs, w, rr as nat), w, pr) ==> pr <= pk && (k
            < rr ==> pr < pk)
}

/// A turn count whose first rank is no larger than the other three, and
/// strictly smaller than every earlier count's, is the canonical choice.
proof fn lemma_choice_minimal(
    qs: Set<int>,
    w: int,
    rr: int,
    d0: int,
    d1: int,
    d2: int,
    d3: int,
)
    requires
        0 <= rr < 4,
        is_first_rank(rotate_set_n(qs, w, 0), w, d0),
        is_first_rank(rotate_set_n(qs, w, 1), w, d1),
        is_first_rank(rotate_set_n(qs, w, 2), w, d2),
        is_first_rank(rotate_set_n(qs, w, 3), w, d3),
        rr == 0 ==> d0 <= d1 && d0 <= d2 && d0 <= d3,
        rr == 1 ==> d1 <= d0 && d1 <= d2 && d1 <= d3 && d0 > d1,
        rr == 2 ==> d2 <= d0 && d2 <= d1 && d2 <= d3 && d0 > d2 && d1 > d2,
        rr == 3 ==> d3 <= d0 && d3 <= d1 && d3 <= d2 && d0 > d3 && d1 > d3 && d2 > d3,
    ensures
        canonical_choice(qs, w, rr),
{
    assert forall|k: int, pk: int, pr: int|
        0 <= k < 4 && #[trigger] is_first_rank(rotate_set_n(qs, w, k as nat), w, pk)
            && #[trigger] is_first_rank(rotate_set_n(qs, w, rr as nat), w, pr) implies pr <= pk
        && (k < rr ==> pr < pk) by {
        let dk: int = if k == 0 {
            d0
        } else if k == 1 {
            d1
        } else if k == 2 {
            d2
        } else {
            d3
        };
        let dr: int = if rr == 0 {
            d0
        } else if rr == 1 {
            d1
        } else if rr == 2 {
            d2
        } else {
            d3
        };
        assert(k as nat == 0 || k as nat == 1 || k as nat == 2 || k as nat == 3);
        crate::polar::lemma_first_rank_unique(rotate_set_n(qs, w, k as nat), w, pk, dk);
        crate::polar::lemma_first_rank_unique(rotate_set_n(qs, w, rr as nat), w, pr, dr);
    }
}

/// The images of the first `k` entries of a queen list under one quarter
/// turn.
pub open spec fn prefix_image(qseq: Seq<usize>, w: int, k: int) -> Set<int> {
    Set::new(
        |j: int| exists|m: int| 0 <= m < k && j == rotate_index(#[trigger] qseq[m] as int, w),
    )
}

/// A board wrapped with the number of clockwise quarter turns that were
/// applied to it relative to the caller's original orientation.
#[derive(Debug, Clone, PartialEq, Eq)]
pub struct NormalizedBoard {
    board: Board,
    rotations: usize,
}

impl NormalizedBoard {
    /// The wrapped board.
    pub closed spec fn spec_board(self) -> Board {
        self.board
    }

    /// How many quarter turns away from the original orientation the
    /// wrapped board stands.
    pub closed spec fn spec_rotations(self) -> int {
        self.rotations as int
    }

    pub open spec fn wf(self) -> bool {
        &&& self.spec_board().wf()
        &&& 0 <= self.spec_rotations() < 4
    }

    /// The queen set in the caller's original orientation: what
    /// `to_board` will deliver.
    pub open spec fn original_qset(self) -> Set<int> {
        rotate_set_n(
            self.spec_board().qset(),
            self.spec_board().spec_width(),
            ((4 - self.spec_rotations()) % 4) as nat,
        )
    }

    /// Wrap a board and turn it to its canonical orientation.
    pub fn new(board: Board) -> (r: NormalizedBoard)
        requires
            board.wf(),
        ensures
            r.wf(),
            r.spec_board().spec_width() == board.spec_width(),
            r.spec_board().spec_cells().len() == board.spec_cells().len(),
            r.spec_board().spec_queens().len() == board.spec_queens().len(),
            r.original_qset() == board.qset(),
            board.spec_queens().len() == 0 ==> r.spec_board() == board && r.spec_rotations()
                == 0,
            board.spec_queens().len() > 0 ==> exists|rr: int|
                canonical_choice(board.qset(), board.spec_width(), rr) && r.spec_rotations() == rr
                    && r.spec_board().qset() == #[trigger] rotate_set_n(
                    board.qset(),
                    board.spec_width(),
                    rr as nat,
                ),
    {
        let mut normalized = NormalizedBoard { board, rotations: 0 };
        let ghost pre_norm = normalized;
        proof {
            assert(normalized.original_qset() == normalized.spec_board().qset());
        }
        normalized.normalize();
        proof {
            if pre_norm.spec_board().spec_queens().len() > 0 {
                let rr = choose|rr: int|
                    0 <= rr < 4 && normalized.spec_rotations() == (pre_norm.spec_rotations() + rr)
                        % 4 && (pre_norm.spec_board().spec_queens().len() > 0
                        ==> canonical_choice(
                        pre_norm.spec_board().qset(),
                        pre_norm.spec_board().spec_width(),
                        rr,
                    )) && normalized.spec_board().qset() == #[trigger] rotate_set_n(
                        pre_norm.spec_board().qset(),
                        pre_norm.spec_board().spec_width(),
                        rr as nat,
                    );
                assert((0 + rr) % 4 == rr);
                assert(canonical_choice(pre_norm.spec_board().qset(), pre_norm.spec_board(
                ).spec_width(), rr) && normalized.spec_rotations() == rr
                    && normalized.spec_board().qset() == rotate_set_n(
                    pre_norm.spec_board().qset(),
                    pre_norm.spec_board().spec_width(),
                    rr as nat,
                ));
            }
        }
        normalized
    }

    /// Combine two rotation records, keeping the right-hand board.
    pub fn merge(self, rhs: NormalizedBoard) -> (r: NormalizedBoard)
        requires
            self.wf(),
            rhs.wf(),
        ensures
            r.wf(),
            r.spec_board() == rhs.spec_board(),
            r.spec_rotations() == (self.spec_rotations() + rhs.spec_rotations()) % 4,
    {
        NormalizedBoard { board: rhs.board, rotations: (self.rotations + rhs.rotations) % 4 }
    }

    /// Turn the whole board one quarter turn clockwise, by clearing it and
    /// re-placing every queen at its turned position.  The rotation record
    /// is deliberately left alone: this is the raw motion that both
    /// `normalize` and the dead-end bookkeeping build on.
    pub fn rotate_clockwise(&mut self)
        requires
            old(self).wf(),
        ensures
            final(self).wf(),
            final(self).spec_rotations() == old(self).spec_rotations(),
            final(self).spec_board().spec_width() == old(self).spec_board().spec_width(),
            final(self).spec_board().spec_cells().len() == old(
                self,
            ).spec_board().spec_cells().len(),
            final(self).spec_board().qset() == rotate_set(
                old(self).spec_board().qset(),
                old(self).spec_board().spec_width(),
            ),
            final(self).spec_board().spec_queens().len() == old(
                self,
            ).spec_board().spec_queens().len(),
    {
        let ghost pre = self.board;
        let ghost w = pre.spec_width();
        let ghost n = pre.spec_cells().len() as int;
        let queens = self.board.take_queens();
        let ghost qseq = queens@;
        proof {
            assert(iset(qseq) == pre.qset());
            if queens@.len() > 0 {
                assert(pre.qset().contains(qseq[0] as int));
                assert(1 <= w) by (nonlinear_arith)
                    requires
                        0 <= (qseq[0] as int) < n,
                        0 <= w,
                        n == w * w,
                ;
            }
        }
        let width = self.board.width();
        let _cell_total = self.board.cell_count();
        proof {
            assert(n <= usize::MAX as int);
        }
        let total = queens.len();
        let mut k: usize = 0;
        while k < total
            invariant
                total as int == qseq.len(),
                k <= total,
                queens@ == qseq,
                self.spec_board().wf(),
                self.spec_board().spec_width() == w,
                self.spec_board().spec_cells().len() == n,
                width as int == w,
                total > 0 ==> 1 <= w,
                n <= usize::MAX as int,
                iset(qseq) == pre.qset(),
                crate::board::sorted_strict(qseq),
                crate::board::safe_set(pre.qset(), w),
                forall|q: int| pre.qset().contains(q) ==> 0 <= q < n,
                n == w * w,
                self.spec_board().qset() =~= prefix_image(qseq, w, k as int),
                self.rotations == old(self).rotations,
                self.spec_board().spec_queens().len() == k as int,
            decreases total as int - k as int,
        {
            let q = queens[k];
            proof {
                assert(iset(qseq).contains(q as int));
                assert(pre.qset().contains(q as int));
                lemma_rotate_index_rc(q as int, w);
                vstd::arithmetic::div_mod::lemma_fundamental_div_mod(q as int, w);
                vstd::arithmetic::div_mod::lemma_mod_bound(q as int, w);
                assert(((q as int) / w) * w == w * ((q as int) / w)) by (nonlinear_arith);
                assert(w * (1 + spec_col(q as int, w)) <= w * w) by (nonlinear_arith)
                    requires
                        1 <= w,
                        0 <= spec_col(q as int, w) < w,
                ;
            }
            let term = 1 + (q - (q / width) * width);
            proof {
                assert(term as int == 1 + spec_col(q as int, w));
                assert((width as int) * (term as int) == w * (1 + spec_col(q as int, w)))
                    by (nonlinear_arith)
                    requires
                        width as int == w,
                        term as int == 1 + spec_col(q as int, w),
                ;
            }
            let target = width * term - (q / width) - 1;
            proof {
                assert(target as int == rotate_index(q as int, w));
                // the target square is free: rotation preserves separation
                assert forall|p: int| #[trigger]
                    self.spec_board().qset().contains(p) implies !aligned(
                    p,
                    target as int,
                    w,
                ) by {
                    let m = choose|m: int|
                        0 <= m < k as int && p == rotate_index(#[trigger] qseq[m] as int, w);
                    assert(iset(qseq).contains(qseq[m] as int));
                    assert(pre.qset().contains(qseq[m] as int));
                    assert(qseq[m] != q) by {
                        if qseq[m] == q {
                            assert(crate::board::sorted_strict(qseq));
                        }
                    }
                    assert(!aligned(qseq[m] as int, q as int, w));
                    lemma_rotate_pair(qseq[m] as int, q as int, w);
                }
                assert(free_square(self.spec_board().qset(), target as int, w));
            }
            let ghost mid = self.spec_board();
            self.board.toggle(target);
            proof {
                assert(Board::toggle_post(mid, self.spec_board(), target as int));
                assert(self.spec_board().qset() == mid.qset().insert(target as int));
                assert forall|j: int| #[trigger]
                    self.spec_board().qset().contains(j) implies prefix_image(
                    qseq,
                    w,
                    k as int + 1,
                ).contains(j) by {
                    if j == target as int {
                        assert(rotate_index(qseq[k as int] as int, w) == j);
                    } else {
                        assert(mid.qset().contains(j));
                        let m = choose|m: int|
                            0 <= m < k as int && j == rotate_index(#[trigger] qseq[m] as int, w);
                        assert(rotate_index(qseq[m] as int, w) == j);
                    }
                }
                assert forall|j: int| #[trigger]
                    prefix_image(qseq, w, k as int + 1).contains(j) implies self.spec_board(
                ).qset().contains(j) by {
                    let m = choose|m: int|
                        0 <= m < k as int + 1 && j == rotate_index(#[trigger] qseq[m] as int, w);
                    if m < k as int {
                        assert(mid.qset().contains(j));
                    }
                }
                assert(self.spec_board().qset() =~= prefix_image(qseq, w, k as int + 1));
                // the queen list grows by exactly one
                crate::board::lemma_queen_count(mid);
                crate::board::lemma_queen_count(self.spec_board());
                lemma_insert_fresh_card(mid.qset(), target as int);
            }
            k = k + 1;
        }
        proof {
            let img = rotate_set(pre.qset(), w);
            assert forall|j: int| #[trigger] self.spec_board().qset().contains(j) implies
                img.contains(j) by {
                let m = choose|m: int|
                    0 <= m < total as int && j == rotate_index(#[trigger] qseq[m] as int, w);
                assert(iset(qseq).contains(qseq[m] as int));
                assert(pre.qset().contains(qseq[m] as int));
            }
            assert forall|j: int| #[trigger] img.contains(j) implies
                self.spec_board().qset().contains(j) by {
                let q = choose|q: int|
                    #[trigger] pre.qset().contains(q) && 0 <= q < w * w && j == rotate_index(
                        q,
                        w,
                    );
                let m = choose|m: int| 0 <= m < qseq.len() && qseq[m] as int == q;
                assert(rotate_index(qseq[m] as int, w) == j);
            }
            assert(self.spec_board().qset() =~= img);
        }
    }
}

/// Polar rank of the first queen that the square-spiral scan meets: the
/// probe that picks the canonical orientation.  On a board with no queen
/// the scan runs off the board and the board size comes back.
fn first_queen_rank(board: &Board) -> (r: u128)
    requires
        board.wf(),
    ensures
        board.spec_queens().len() > 0 ==> is_first_rank(
            board.qset(),
            board.spec_width(),
            r as int,
        ),
{
    let width = board.width();
    let _total = board.cell_count();
    let ghost w = board.spec_width();
    proof {
        assert(w * w <= usize::MAX as int);
    }
    let mut scan = PolarScan::new(width);
    let mut rank: u128 = 0;
    loop
        invariant
            board.wf(),
            scan.wf(),
            scan.spec_width() == w,
            board.spec_width() == w,
            board.spec_cells().len() == w * w,
            w * w <= usize::MAX as int,
            usize::MAX as int <= u128::MAX as int - 10,
            rank as int == scan.scan_pos(),
            forall|j: int|
                0 <= j < w * w && polar_pos(j, w) < scan.scan_pos() ==> !(
                #[trigger] board.spec_cells()[j]).spec_queen(),
        decreases scan.measure(),
    {
        proof {
            let aw = scan.spec_width();
            let bm = scan.spec_max();
            let cc = scan.spec_column();
            let dr = scan.spec_row();
            assert((aw - bm) * (2 * aw + 2) + (bm + cc - dr) >= 0) by (nonlinear_arith)
                requires
                    bm <= aw,
                    dr <= bm,
                    0 <= cc,
                    0 <= dr,
            ;
            if bm < aw {
                // the next step's position still fits the counter
                assert(scan.scan_pos() < aw * aw) by (nonlinear_arith)
                    requires
                        0 <= dr <= bm,
                        0 <= cc <= bm,
                        bm < aw,
                        scan.scan_pos() == (if cc == bm {
                            bm * bm + dr
                        } else {
                            bm * bm + bm + (bm - cc)
                        }),
                ;
            }
        }
        let ghost pre_scan = scan;
        match scan.next() {
            Some(q) => {
                if board.is_queen(q) {
                    proof {
                        assert(board.qset().contains(q as int));
                        assert(polar_pos(q as int, w) == rank as int);
                        assert forall|p: int| #[trigger] board.qset().contains(p) implies
                            polar_pos(p, w) >= rank as int by {
                            if polar_pos(p, w) < rank as int {
                                assert(0 <= p < w * w);
                                assert(board.spec_cells()[p].spec_queen());
                            }
                        }
                    }
                    return rank;
                }
                proof {
                    assert forall|j: int|
                        0 <= j < w * w && polar_pos(j, w) < scan.scan_pos() implies !(
                    #[trigger] board.spec_cells()[j]).spec_queen() by {
                        if polar_pos(j, w) == pre_scan.scan_pos() {
                            crate::polar::lemma_polar_pos_injective(j, q as int, w);
                        }
                    }
                }
                rank = rank + 1;
            },
            None => {
                proof {
                    if board.spec_queens().len() > 0 {
                        let q0 = board.spec_queens()[0];
                        assert(board.qset().contains(q0 as int)) by {
                            assert(iset(board.spec_queens()).contains(q0 as int));
                        }
                        assert(0 <= (q0 as int) && (q0 as int) < w * w);
                        assert(scan.spec_max() == w && scan.spec_column() == w
                            && scan.spec_row() == 0);
                        assert(scan.scan_pos() == w * w);
                        crate::polar::lemma_polar_pos_bounds(q0 as int, w);
                        assert(!board.spec_cells()[q0 as int].spec_queen());
                        assert(false);
                    }
                }
                return rank;
            },
        }
    }
}

impl NormalizedBoard {
    /// Turn the board to its canonical orientation: probe all four
    /// orientations, keep the one whose first queen comes earliest in the
    /// polar scan (lowest turn count breaking ties), and add the turns
    /// taken to the rotation record.  An empty board is left alone.
    #[verifier::rlimit(60)]
    pub fn normalize(&mut self)
        requires
            old(self).wf(),
        ensures
            final(self).wf(),
            final(self).spec_board().spec_width() == old(self).spec_board().spec_width(),
            final(self).spec_board().spec_cells().len() == old(
                self,
            ).spec_board().spec_cells().len(),
            final(self).spec_board().spec_queens().len() == old(
                self,
            ).spec_board().spec_queens().len(),
            final(self).original_qset() == old(self).original_qset(),
            old(self).spec_board().spec_queens().len() == 0 ==> *final(self) == *old(self),
            exists|rr: int|
                0 <= rr < 4 && final(self).spec_rotations() == (old(self).spec_rotations() + rr)
                    % 4 && (old(self).spec_board().spec_queens().len() > 0 ==> canonical_choice(
                    old(self).spec_board().qset(),
                    old(self).spec_board().spec_width(),
                    rr,
                )) && final(self).spec_board().qset() == #[trigger] rotate_set_n(
                    old(self).spec_board().qset(),
                    old(self).spec_board().spec_width(),
                    rr as nat,
                ),
    {
        let ghost pre = *self;
        let ghost w = self.spec_board().spec_width();
        let ghost qs0 = self.spec_board().qset();
        if self.board.is_empty() {
            proof {
                assert(*self == pre);
                let rr: int = 0;
                assert(0 <= rr < 4 && self.spec_rotations() == (pre.spec_rotations() + rr) % 4
                    && self.spec_board().qset() == rotate_set_n(qs0, w, rr as nat));
            }
            return ;
        }
        proof {
            assert(qs0.contains(pre.spec_board().spec_queens()[0] as int));
            assert(1 <= w) by (nonlinear_arith)
                requires
                    0 <= w,
                    exists|q: int| #[trigger] qs0.contains(q) && 0 <= q < w * w,
            ;
        }
        let d0 = first_queen_rank(&self.board);
        self.rotate_clockwise();
        let ghost g1 = self.spec_board().qset();
        let d1 = first_queen_rank(&self.board);
        self.rotate_clockwise();
        let ghost g2 = self.spec_board().qset();
        let d2 = first_queen_rank(&self.board);
        self.rotate_clockwise();
        let ghost g3 = self.spec_board().qset();
        let d3 = first_queen_rank(&self.board);
        self.rotate_clockwise();
        proof {
            assert(g1 == rotate_set(qs0, w));
            assert(g2 == rotate_set(g1, w));
            assert(g3 == rotate_set(g2, w));
            assert(rotate_set_n(qs0, w, 0) == qs0);
            assert(rotate_set_n(qs0, w, 1) == g1);
            assert(rotate_set_n(qs0, w, 2) == g2);
            assert(rotate_set_n(qs0, w, 3) == g3);
            assert(rotate_set_n(qs0, w, 4) == self.spec_board().qset());
            lemma_rotation_cycle(qs0, w);
            assert(is_first_rank(rotate_set_n(qs0, w, 0), w, d0 as int));
            assert(is_first_rank(rotate_set_n(qs0, w, 1), w, d1 as int));
            assert(is_first_rank(rotate_set_n(qs0, w, 2), w, d2 as int));
            assert(is_first_rank(rotate_set_n(qs0, w, 3), w, d3 as int));
        }
        let rotations: usize = if d0 <= d1 && d0 <= d2 && d0 <= d3 {
            0
        } else if d1 <= d2 && d1 <= d3 {
            1
        } else if d2 <= d3 {
            2
        } else {
            3
        };
        proof {
            assert(self.spec_board().qset() == rotate_set_n(qs0, w, 0));
        }
        let mut applied: usize = 0;
        while applied < rotations
            invariant
                1 <= w,
                in_range(qs0, w),
                applied <= rotations,
                rotations < 4,
                self.wf(),
                self.spec_board().spec_width() == w,
                self.spec_board().spec_cells().len() == pre.spec_board().spec_cells().len(),
                self.spec_rotations() == pre.spec_rotations(),
                self.spec_board().spec_queens().len() == pre.spec_board().spec_queens().len(),
                self.spec_board().qset() == rotate_set_n(qs0, w, applied as nat),
            decreases rotations - applied,
        {
            self.rotate_clockwise();
            applied = applied + 1;
            proof {
                assert(self.spec_board().qset() == rotate_set_n(qs0, w, applied as nat));
            }
        }
        self.rotations = (self.rotations + rotations) % 4;
        proof {
            let rr = rotations as int;
            assert(self.spec_rotations() == (pre.spec_rotations() + rr) % 4);
            assert(self.spec_board().qset() == rotate_set_n(qs0, w, rr as nat));
            lemma_original_preserved(qs0, w, pre.spec_rotations(), rr);
            assert(self.original_qset() == pre.original_qset());
            // the chosen count is minimal with ties to the lowest count
            assert(rr == 0 ==> d0 <= d1 && d0 <= d2 && d0 <= d3);
            assert(rr == 1 ==> d1 <= d0 && d1 <= d2 && d1 <= d3 && d0 > d1);
            assert(rr == 2 ==> d2 <= d0 && d2 <= d1 && d2 <= d3 && d0 > d2 && d1 > d2);
            assert(rr == 3 ==> d3 <= d0 && d3 <= d1 && d3 <= d2 && d0 > d3 && d1 > d3 && d2
                > d3);
            lemma_choice_minimal(
                qs0,
                w,
                rr,
                d0 as int,
                d1 as int,
                d2 as int,
                d3 as int,
            );
            assert(0 <= rr < 4 && self.spec_rotations() == (pre.spec_rotations() + rr) % 4 && (
            pre.spec_board().spec_queens().len() > 0 ==> canonical_choice(qs0, w, rr))
                && self.spec_board().qset() == rotate_set_n(qs0, w, rr as nat));
        }
    }

    /// Undo the recorded rotation and hand back the board in the caller's
    /// original orientation.
    pub fn to_board(self) -> (r: Board)
        requires
            self.wf(),
        ensures
            r.wf(),
            r.spec_width() == self.spec_board().spec_width(),
            r.spec_cells().len() == self.spec_board().spec_cells().len(),
            r.spec_queens().len() == self.spec_board().spec_queens().len(),
            r.qset() == self.original_qset(),
    {
        let ghost w = self.spec_board().spec_width();
        let ghost qs0 = self.spec_board().qset();
        let ghost rot0 = self.spec_rotations();
        let mut nb = self;
        let mut rotations = nb.rotations;
        while rotations % 4 != 0
            invariant
                nb.wf(),
                nb.spec_board().spec_width() == w,
                nb.spec_board().spec_cells().len() == self.spec_board().spec_cells().len(),
                nb.spec_board().spec_queens().len() == self.spec_board().spec_queens().len(),
                rot0 <= rotations as int <= 4,
                rot0 == 0 ==> rotations as int == 0,
                nb.spec_board().qset() == rotate_set_n(qs0, w, (rotations as int - rot0) as nat),
            decreases 4 - rotations as int,
        {
            nb.rotate_clockwise();
            rotations = rotations + 1;
        }
        proof {
            if rot0 == 0 {
                assert(nb.spec_board().qset() == rotate_set_n(qs0, w, 0));
                assert(((4 - rot0) % 4) as nat == 0);
            } else {
                assert(rotations as int == 4);
                assert((rotations as int - rot0) as nat == ((4 - rot0) % 4) as nat);
            }
        }
        nb.board
    }

    /// Read-only view of the wrapped board.
    pub fn board(&self) -> (r: &Board)
        ensures
            *r == self.spec_board(),
    {
        &self.board
    }

    /// Toggle a square of the wrapped board; the rotation record is
    /// untouched.
    pub fn toggle(&mut self, index: usize)
        requires
            old(self).wf(),
            (index as int) < old(self).spec_board().spec_cells().len(),
        ensures
            final(self).wf(),
            final(self).spec_rotations() == old(self).spec_rotations(),
            Board::toggle_post(
                old(self).spec_board(),
                final(self).spec_board(),
                index as int,
            ),
    {
        self.board.toggle(index);
    }

    pub fn is_empty(&self) -> (r: bool)
        ensures
            r == (self.spec_board().spec_queens().len() == 0),
    {
        self.board.is_empty()
    }

    pub fn is_solved(&self) -> (r: bool)
        ensures
            r == (self.spec_board().spec_queens().len() == self.spec_board().spec_width()),
    {
        self.board.is_solved()
    }

    pub fn width(&self) -> (r: usize)
        ensures
            r as int == self.spec_board().spec_width(),
    {
        self.board.width()
    }

    /// The free squares of the wrapped board, ascending.
    pub fn available(&self) -> (r: Vec<usize>)
        ensures
            crate::board::sorted_strict(r@),
            forall|k: int|
                0 <= k < r@.len() ==> (#[trigger] r@[k] as int)
                    < self.spec_board().spec_cells().len()
                    && self.spec_board().spec_cells()[r@[k] as int].spec_free(),
            forall|j: usize|
                (j as int) < self.spec_board().spec_cells().len() && self.spec_board().spec_cells(
                )[j as int].spec_free() ==> r@.contains(j),
    {
        self.board.available()
    }

    /// The wrapped board's queens, ascending.
    pub fn sorted_queens(&self) -> (r: Vec<usize>)
        ensures
            r@ == self.spec_board().spec_queens(),
    {
        self.board.sorted_queens()
    }
}

/// Rotating `rr` more turns and recording them keeps the original
/// orientation reachable: the de-rotation count adjusts in step.
proof fn lemma_original_preserved(qs: Set<int>, w: int, rot: int, rr: int)
    requires
        1 <= w,
        in_range(qs, w),
        0 <= rot < 4,
        0 <= rr < 4,
    ensures
        rotate_set_n(rotate_set_n(qs, w, rr as nat), w, ((4 - (rot + rr) % 4) % 4) as nat)
            == rotate_set_n(qs, w, ((4 - rot) % 4) as nat),
    {
    let u = ((4 - (rot + rr) % 4) % 4) as nat;
    let v = ((4 - rot) % 4) as nat;
    lemma_rotate_compose(qs, w, rr as nat, u);
    assert(rotate_set_n(rotate_set_n(qs, w, rr as nat), w, u) == rotate_set_n(
        qs,
        w,
        (rr as nat + u),
    ));
    lemma_rotate_mod(qs, w, rr as nat + u);
    lemma_rotate_mod(qs, w, v);
    assert((rr + u) % 4 == v % 4);
}


/// Turning is monotone: a larger queen set has a larger image.
pub proof fn lemma_rotate_monotone(s: Set<int>, t: Set<int>, w: int, k: nat)
    requires
        s.subset_of(t),
    ensures
        rotate_set_n(s, w, k).subset_of(rotate_set_n(t, w, k)),
    decreases k,
{
    if k > 0 {
        lemma_rotate_monotone(s, t, w, (k - 1) as nat);
        let s1 = rotate_set_n(s, w, (k - 1) as nat);
        let t1 = rotate_set_n(t, w, (k - 1) as nat);
        assert forall|j: int| #[trigger] rotate_set(s1, w).contains(j) implies rotate_set(
            t1,
            w,
        ).contains(j) by {
            let q = choose|q: int|
                #[trigger] s1.contains(q) && 0 <= q < w * w && j == rotate_index(q, w);
            assert(t1.contains(q));
        }
    }
}

/// `full` is a complete non-attacking placement of one queen per row that
/// extends `s`.
pub open spec fn full_extension(s: Set<int>, full: Set<int>, w: int) -> bool {
    &&& s.subset_of(full)
    &&& full.finite()
    &&& full.len() == w
    &&& in_range(full, w)
    &&& safe_set(full, w)
}

/// Some complete placement extends `s`: the position is still winnable.
pub open spec fn extendable(s: Set<int>, w: int) -> bool {
    exists|full: Set<int>| #[trigger] full_extension(s, full, w)
}

/// Whatever extends a superset extends the subset: growing a position can
/// only lose completions, never gain them.
pub proof fn lemma_extendable_shrink(s: Set<int>, t: Set<int>, w: int)
    requires
        s.subset_of(t),
        extendable(t, w),
    ensures
        extendable(s, w),
{
    let full = choose|full: Set<int>| #[trigger] full_extension(t, full, w);
    assert(full_extension(s, full, w));
}

/// A turn sends a placement to a placement of the same size.
proof fn lemma_rotate_card(s: Set<int>, w: int)
    requires
        1 <= w,
        in_range(s, w),
        s.finite(),
    ensures
        rotate_set(s, w).finite(),
        rotate_set(s, w).len() == s.len(),
    decreases s.len(),
{
    if s.len() == 0 {
        assert(s =~= Set::<int>::empty());
        assert(rotate_set(s, w) =~= Set::<int>::empty());
    } else {
        let q = s.choose();
        assert(s.contains(q));
        let rest = s.remove(q);
        lemma_rotate_card(rest, w);
        lemma_rotate_index_rc(q, w);
        assert forall|j: int| #[trigger] rotate_set(s, w).contains(j) implies rotate_set(
            rest,
            w,
        ).insert(rotate_index(q, w)).contains(j) by {
            let p = choose|p: int|
                #[trigger] s.contains(p) && 0 <= p < w * w && j == rotate_index(p, w);
            if p != q {
                assert(rest.contains(p));
            }
        }
        assert forall|j: int| #[trigger]
            rotate_set(rest, w).insert(rotate_index(q, w)).contains(j) implies rotate_set(
            s,
            w,
        ).contains(j) by {
            if j == rotate_index(q, w) {
                assert(s.contains(q) && 0 <= q < w * w && j == rotate_index(q, w));
            } else {
                let p = choose|p: int|
                    #[trigger] rest.contains(p) && 0 <= p < w * w && j == rotate_index(p, w);
                assert(s.contains(p));
            }
        }
        assert(rotate_set(s, w) =~= rotate_set(rest, w).insert(rotate_index(q, w)));
        assert(!rotate_set(rest, w).contains(rotate_index(q, w))) by {
            if rotate_set(rest, w).contains(rotate_index(q, w)) {
                let p = choose|p: int|
                    #[trigger] rest.contains(p) && 0 <= p < w * w && rotate_index(q, w)
                        == rotate_index(p, w);
                lemma_rotate_pair(p, q, w);
            }
        }
    }
}

/// A turn preserves winnability, in both directions.
pub proof fn lemma_rotate_extendable(s: Set<int>, w: int)
    requires
        1 <= w,
        in_range(s, w),
    ensures
        extendable(rotate_set(s, w), w) <==> extendable(s, w),
{
    lemma_rotate_extendable_fwd(s, w);
    lemma_rotate_set_range(s, w);
    let s1 = rotate_set(s, w);
    let s2 = rotate_set(s1, w);
    let s3 = rotate_set(s2, w);
    lemma_rotate_extendable_fwd(s1, w);
    lemma_rotate_set_range(s1, w);
    lemma_rotate_extendable_fwd(s2, w);
    lemma_rotate_set_range(s2, w);
    lemma_rotate_extendable_fwd(s3, w);
    if extendable(s1, w) {
        assert(rotate_set(s3, w) == rotate_set_n(s, w, 4)) by {
            assert(rotate_set_n(s, w, 0) == s);
            assert(rotate_set_n(s, w, 1) == s1);
            assert(rotate_set_n(s, w, 2) == s2);
            assert(rotate_set_n(s, w, 3) == s3);
        }
        lemma_rotation_cycle(s, w);
        assert(extendable(s, w));
    }
}

/// One direction of winnability transport: the image of a winnable
/// placement is winnable, since the image of a completion completes it.
proof fn lemma_rotate_extendable_fwd(s: Set<int>, w: int)
    requires
        1 <= w,
        in_range(s, w),
    ensures
        extendable(s, w) ==> extendable(rotate_set(s, w), w),
{
    if extendable(s, w) {
        let full = choose|full: Set<int>| #[trigger] full_extension(s, full, w);
        let full2 = rotate_set(full, w);
        lemma_rotate_card(full, w);
        lemma_rotate_set_range(full, w);
        assert forall|j: int| #[trigger] rotate_set(s, w).contains(j) implies full2.contains(
            j,
        ) by {
            let p = choose|p: int|
                #[trigger] s.contains(p) && 0 <= p < w * w && j == rotate_index(p, w);
            assert(full.contains(p));
        }
        assert forall|j1: int, j2: int|
            #[trigger] full2.contains(j1) && #[trigger] full2.contains(j2) && j1 != j2 implies
            !aligned(j1, j2, w) by {
            let p1 = choose|p: int|
                #[trigger] full.contains(p) && 0 <= p < w * w && j1 == rotate_index(p, w);
            let p2 = choose|p: int|
                #[trigger] full.contains(p) && 0 <= p < w * w && j2 == rotate_index(p, w);
            lemma_rotate_pair(p1, p2, w);
        }
        assert(full_extension(rotate_set(s, w), full2, w));
    }
}

/// Winnability transport through any number of turns.
pub proof fn lemma_rotate_extendable_n(s: Set<int>, w: int, k: nat)
    requires
        1 <= w,
        in_range(s, w),
    ensures
        extendable(rotate_set_n(s, w, k), w) <==> extendable(s, w),
        in_range(rotate_set_n(s, w, k), w),
    decreases k,
{
    if k > 0 {
        lemma_rotate_extendable_n(s, w, (k - 1) as nat);
        lemma_rotate_extendable(rotate_set_n(s, w, (k - 1) as nat), w);
        lemma_rotate_set_range(rotate_set_n(s, w, (k - 1) as nat), w);
    }
}

/// Inserting an element that a finite set lacks grows it by one.
proof fn lemma_insert_fresh_card(s: Set<int>, x: int)
    requires
        s.finite(),
        !s.contains(x),
    ensures
        s.insert(x).len() == s.len() + 1,
{
}

} // verus!
