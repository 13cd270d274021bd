use vstd::prelude::*;

use crate::cell::{lemma_cell_determined, lemma_free_cell, Cell};
use crate::geometry::{
    aligned, antidiagonal_back, antidiagonal_forth, in_segment, principal_back, principal_forth,
    same_antidiagonal, same_horizontal, same_principal, same_vertical, spec_col, spec_row,
    Boundaries,
};

verus! {

/// The set of values held by a sequence of indices, as mathematical integers.
pub open spec fn iset(s: Seq<usize>) -> Set<int> {
    Set::new(|q: int| exists|k: int| 0 <= k < s.len() && s[k] as int == q)
}

/// The sequence is strictly increasing, hence free of duplicates.
pub open spec fn sorted_strict(s: Seq<usize>) -> bool {
    forall|a: int, b: int| 0 <= a < b < s.len() ==> s[a] < s[b]
}

/// Some queen of `qs` shares a row with `j`.
pub open spec fn covered_horizontal(qs: Set<int>, j: int, w: int) -> bool {
    exists|q: int| #[trigger] qs.contains(q) && same_horizontal(q, j, w)
}

/// Some queen of `qs` shares a column with `j`.
pub open spec fn covered_vertical(qs: Set<int>, j: int, w: int) -> bool {
    exists|q: int| #[trigger] qs.contains(q) && same_vertical(q, j, w)
}

/// Some queen of `qs` shares a principal diagonal with `j`.
pub open spec fn covered_principal(qs: Set<int>, j: int, w: int) -> bool {
    exists|q: int| #[trigger] qs.contains(q) && same_principal(q, j, w)
}

/// Some queen of `qs` shares an anti-diagonal with `j`.
pub open spec fn covered_antidiagonal(qs: Set<int>, j: int, w: int) -> bool {
    exists|q: int| #[trigger] qs.contains(q) && same_antidiagonal(q, j, w)
}

/// No queen of `qs` attacks `j`; in particular `j` holds no queen itself.
pub open spec fn free_square(qs: Set<int>, j: int, w: int) -> bool {
    forall|q: int| #[trigger] qs.contains(q) ==> !aligned(q, j, w)
}

/// No two distinct queens of `qs` share any attack line.
pub open spec fn safe_set(qs: Set<int>, w: int) -> bool {
    forall|q1: int, q2: int|
        #[trigger] qs.contains(q1) && #[trigger] qs.contains(q2) && q1 != q2 ==> !aligned(
            q1,
            q2,
            w,
        )
}

/// The square `j` carries exactly the flags that the queens `qs` justify:
/// the queen flag marks membership and each attack flag marks a queen on
/// the corresponding line through `j`.
pub open spec fn cell_consistent(c: Cell, qs: Set<int>, j: int, w: int) -> bool {
    &&& c.valid()
    &&& (c.spec_queen() <==> qs.contains(j))
    &&& (c.spec_horizontal() <==> covered_horizontal(qs, j, w))
    &&& (c.spec_vertical() <==> covered_vertical(qs, j, w))
    &&& (c.spec_principal() <==> covered_principal(qs, j, w))
    &&& (c.spec_antidiagonal() <==> covered_antidiagonal(qs, j, w))
}

/// An N by N grid of cells plus the sorted list of queen positions, with
/// every attack flag kept in step with the queens as they come and go.
#[derive(Debug, Clone, PartialEq, Eq)]
pub struct Board {
    cells: Vec<Cell>,
    queens: Vec<usize>,
    width: usize,
}

impl Board {
    /// The board's width.
    pub closed spec fn spec_width(self) -> int {
        self.width as int
    }

    /// The row-major sequence of the board's cells.
    pub closed spec fn spec_cells(self) -> Seq<Cell> {
        self.cells@
    }

    /// The ascending sequence of the queens' flat indices.
    pub closed spec fn spec_queens(self) -> Seq<usize> {
        self.queens@
    }

    /// The queens' positions as a set.
    pub open spec fn qset(self) -> Set<int> {
        iset(self.spec_queens())
    }

    /// The board invariant: the grid is square, the queen list is sorted
    /// and in bounds, every cell's flags match the queen set exactly, and
    /// no two queens attack each other.
    pub open spec fn wf(self) -> bool {
        let w = self.spec_width();
        let n = self.spec_cells().len() as int;
        &&& 0 <= w
        &&& n == w * w
        &&& sorted_strict(self.spec_queens())
        &&& forall|q: int| self.qset().contains(q) ==> 0 <= q < n
        &&& forall|j: int|
            0 <= j < n ==> cell_consistent(#[trigger] self.spec_cells()[j], self.qset(), j, w)
        &&& safe_set(self.qset(), w)
    }

    /// What `toggle` leaves behind: a queen appears on a free square,
    /// leaves an occupied one, and an attacked square is left alone.
    pub open spec fn toggle_post(pre: Board, post: Board, index: int) -> bool {
        &&& post.wf()
        &&& post.spec_width() == pre.spec_width()
        &&& post.spec_cells().len() == pre.spec_cells().len()
        &&& (free_square(pre.qset(), index, pre.spec_width()) ==> post.qset()
            == pre.qset().insert(index))
        &&& (pre.qset().contains(index) ==> post.qset() == pre.qset().remove(index))
        &&& (!free_square(pre.qset(), index, pre.spec_width()) && !pre.qset().contains(index)
            ==> post == pre)
    }

    pub fn new(width: usize) -> (r: Board)
        requires
            (width as int) * (width as int) <= usize::MAX as int,
        ensures
            r.wf(),
            r.spec_width() == width as int,
            r.spec_queens().len() == 0,
            r.qset() == Set::<int>::empty(),
            r.spec_cells().len() == (width as int) * (width as int),
            forall|j: int| 0 <= j < r.spec_cells().len() ==> r.spec_cells()[j].spec_free(),
    {
        proof {
            assert((width as int) * (width as int) >= 0) by (nonlinear_arith);
        }
        let count = width * width;
        let mut cells: Vec<Cell> = Vec::new();
        let mut k: usize = 0;
        while k < count
            invariant
                k <= count,
                cells@.len() == k as int,
                forall|j: int|
                    0 <= j < k as int ==> (#[trigger] cells@[j]).spec_free() && cells@[j].valid()
                        && !cells@[j].spec_queen() && !cells@[j].spec_horizontal()
                        && !cells@[j].spec_vertical() && !cells@[j].spec_principal()
                        && !cells@[j].spec_antidiagonal(),
            decreases count - k,
        {
            cells.push(Cell::new(0));
            k = k + 1;
        }
        let queens: Vec<usize> = Vec::new();
        let r = Board { cells, queens, width };
        proof {
            assert(r.qset() =~= Set::<int>::empty());
        }
        r
    }

    pub fn width(&self) -> (r: usize)
        ensures
            r as int == self.spec_width(),
    {
        self.width
    }

    /// How many cells the grid holds.
    pub(crate) fn cell_count(&self) -> (r: usize)
        ensures
            r as int == self.spec_cells().len(),
    {
        self.cells.len()
    }

    /// The board is solved when it carries as many queens as its width.
    pub fn is_solved(&self) -> (r: bool)
        ensures
            r == (self.spec_queens().len() == self.spec_width()),
    {
        self.width == self.queens.len()
    }

    pub fn is_empty(&self) -> (r: bool)
        ensures
            r == (self.spec_queens().len() == 0),
    {
        self.queens.len() == 0
    }

    pub fn is_queen(&self, index: usize) -> (r: bool)
        requires
            (index as int) < self.spec_cells().len(),
        ensures
            r == self.spec_cells()[index as int].spec_queen(),
    {
        self.cells[index].is_queen()
    }

    /// Place a queen if the square is free, remove the one standing there,
    /// or do nothing on a square that is only attacked.
    pub fn toggle(&mut self, index: usize)
        requires
            old(self).wf(),
            (index as int) < old(self).spec_cells().len(),
        ensures
            Board::toggle_post(*old(self), *final(self), index as int),
    {
        proof {
            lemma_free_iff(*self, index as int);
        }
        if self.cells[index].is_free() {
            self.put_queen(index);
        } else if self.cells[index].is_queen() {
            self.remove_queen(index);
        }
    }

    fn put_queen(&mut self, index: usize)
        requires
            old(self).wf(),
            (index as int) < old(self).spec_cells().len(),
            old(self).spec_cells()[index as int].spec_free(),
        ensures
            final(self).wf(),
            final(self).spec_width() == old(self).spec_width(),
            final(self).spec_cells().len() == old(self).spec_cells().len(),
            final(self).qset() == old(self).qset().insert(index as int),
    {
        let ghost pre = *self;
        let ghost w = self.spec_width();
        let ghost n = self.spec_cells().len() as int;
        proof {
            assert(width_positive(w, index as int, n)) by (nonlinear_arith)
                requires
                    0 <= (index as int) < n,
                    0 <= w,
                    n == w * w,
            ;
            lemma_free_iff(pre, index as int);
        }
        let _total = self.cells.len();
        proof {
            assert(1 <= w && w + 1 <= usize::MAX as int) by (nonlinear_arith)
                requires
                    width_positive(w, index as int, n),
                    0 <= (index as int),
                    n <= usize::MAX as int,
            ;
        }
        let bounds = Boundaries::new(index, self.width);
        let c = cell_at_mut(&mut self.cells, index);
        c.put_queen();
        proof {
            if self.queens@.contains(index) {
                let k = choose|k: int| 0 <= k < self.queens@.len() && self.queens@[k] == index;
                assert(iset(self.queens@).contains(index as int));
                assert(aligned(index as int, index as int, w));
            }
        }
        insert_sorted(&mut self.queens, index);
        proof {
            assert(iset(self.queens@).contains(index as int));
        }
        mark_line(
            &mut self.cells,
            bounds.horizontal_min,
            bounds.horizontal_max,
            1,
            LineKind::Horizontal,
            true,
        );
        mark_line(
            &mut self.cells,
            bounds.vertical_min,
            bounds.vertical_max,
            self.width,
            LineKind::Vertical,
            true,
        );
        mark_line(
            &mut self.cells,
            bounds.principal_min,
            bounds.principal_max,
            self.width + 1,
            LineKind::Principal,
            true,
        );
        mark_line(
            &mut self.cells,
            bounds.antidiagonal_min,
            bounds.antidiagonal_max,
            self.width - 1,
            LineKind::Antidiagonal,
            true,
        );
        proof {
            let qs = pre.qset();
            let qs2 = self.qset();
            assert(qs2 =~= qs.insert(index as int));
            lemma_put_preserves_wf(pre, *self, index as int);
        }
    }

    fn remove_queen(&mut self, index: usize)
        requires
            old(self).wf(),
            (index as int) < old(self).spec_cells().len(),
            old(self).spec_cells()[index as int].spec_queen(),
        ensures
            final(self).wf(),
            final(self).spec_width() == old(self).spec_width(),
            final(self).spec_cells().len() == old(self).spec_cells().len(),
            final(self).qset() == old(self).qset().remove(index as int),
    {
        let ghost pre = *self;
        let ghost w = self.spec_width();
        let ghost n = self.spec_cells().len() as int;
        proof {
            assert(width_positive(w, index as int, n)) by (nonlinear_arith)
                requires
                    0 <= (index as int) < n,
                    0 <= w,
                    n == w * w,
            ;
        }
        let _total = self.cells.len();
        proof {
            assert(1 <= w && w + 1 <= usize::MAX as int) by (nonlinear_arith)
                requires
                    width_positive(w, index as int, n),
                    0 <= (index as int),
                    n <= usize::MAX as int,
            ;
        }
        let bounds = Boundaries::new(index, self.width);
        let c = cell_at_mut(&mut self.cells, index);
        c.remove_queen();
        proof {
            assert(iset(self.queens@).contains(index as int));
            let k = choose|k: int|
                0 <= k < self.queens@.len() && self.queens@[k] as int == index as int;
            assert(self.queens@[k] == index);
            assert(self.queens@.contains(index));
        }
        remove_sorted(&mut self.queens, index);
        proof {
            assert(!iset(self.queens@).contains(index as int));
        }
        mark_line(
            &mut self.cells,
            bounds.horizontal_min,
            bounds.horizontal_max,
            1,
            LineKind::Horizontal,
            false,
        );
        mark_line(
            &mut self.cells,
            bounds.vertical_min,
            bounds.vertical_max,
            self.width,
            LineKind::Vertical,
            false,
        );
        mark_line(
            &mut self.cells,
            bounds.principal_min,
            bounds.principal_max,
            self.width + 1,
            LineKind::Principal,
            false,
        );
        mark_line(
            &mut self.cells,
            bounds.antidiagonal_min,
            bounds.antidiagonal_max,
            self.width - 1,
            LineKind::Antidiagonal,
            false,
        );
        proof {
            let qs = pre.qset();
            let qs2 = self.qset();
            assert(qs2 =~= qs.remove(index as int));
            lemma_remove_preserves_wf(pre, *self, index as int);
        }
    }
}

/// Helper shape for the nonlinear width bound used by the toggles.
spec fn width_positive(w: int, index: int, n: int) -> bool {
    1 <= w && index < w * w && w * w == n
}

/// A free square carries no flag at all, which under the invariant says
/// exactly that no queen attacks it.
pub proof fn lemma_free_iff(b: Board, j: int)
    requires
        b.wf(),
        0 <= j < b.spec_cells().len(),
    ensures
        b.spec_cells()[j].spec_free() <==> free_square(b.qset(), j, b.spec_width()),
{
    let w = b.spec_width();
    let qs = b.qset();
    let c = b.spec_cells()[j];
    lemma_free_cell(c);
    if c.spec_free() {
        assert forall|q: int| #[trigger] qs.contains(q) implies !aligned(q, j, w) by {
            if same_horizontal(q, j, w) {
                assert(covered_horizontal(qs, j, w));
            }
            if same_vertical(q, j, w) {
                assert(covered_vertical(qs, j, w));
            }
            if same_principal(q, j, w) {
                assert(covered_principal(qs, j, w));
            }
            if same_antidiagonal(q, j, w) {
                assert(covered_antidiagonal(qs, j, w));
            }
        }
    }
    if free_square(qs, j, w) {
        assert(!qs.contains(j)) by {
            if qs.contains(j) {
                assert(aligned(j, j, w));
            }
        }
        assert(!covered_horizontal(qs, j, w));
        assert(!covered_vertical(qs, j, w));
        assert(!covered_principal(qs, j, w));
        assert(!covered_antidiagonal(qs, j, w));
    }
}

/// Placing a queen on a free square and marking its four lines yields a
/// consistent board for the enlarged queen set.
proof fn lemma_put_preserves_wf(pre: Board, post: Board, index: int)
    requires
        pre.wf(),
        0 <= index < pre.spec_cells().len(),
        free_square(pre.qset(), index, pre.spec_width()),
        post.spec_width() == pre.spec_width(),
        post.spec_cells().len() == pre.spec_cells().len(),
        sorted_strict(post.spec_queens()),
        post.qset() == pre.qset().insert(index),
        forall|j: int|
            0 <= j < post.spec_cells().len() ==> flags_after_put(
                pre.spec_cells()[j],
                #[trigger] post.spec_cells()[j],
                index,
                j,
                pre.spec_width(),
            ),
    ensures
        post.wf(),
{
    let w = pre.spec_width();
    let n = pre.spec_cells().len() as int;
    let qs = pre.qset();
    let qs2 = post.qset();
    assert forall|q: int| qs2.contains(q) implies 0 <= q < n by {
        if q != index {
            assert(qs.contains(q));
        }
    }
    assert forall|j: int| 0 <= j < n implies cell_consistent(
        #[trigger] post.spec_cells()[j],
        qs2,
        j,
        w,
    ) by {
        let c1 = pre.spec_cells()[j];
        let c2 = post.spec_cells()[j];
        assert(cell_consistent(c1, qs, j, w));
        assert(c2.spec_queen() <==> qs2.contains(j)) by {
            if qs2.contains(j) && j != index {
                assert(qs.contains(j));
            }
        }
        assert(c2.spec_horizontal() <==> covered_horizontal(qs2, j, w)) by {
            if c2.spec_horizontal() {
                if same_horizontal(index, j, w) {
                    assert(qs2.contains(index));
                } else {
                    let q = choose|q: int| #[trigger] qs.contains(q) && same_horizontal(q, j, w);
                    assert(qs2.contains(q));
                }
            }
            if covered_horizontal(qs2, j, w) {
                let q = choose|q: int| #[trigger] qs2.contains(q) && same_horizontal(q, j, w);
                if q != index {
                    assert(qs.contains(q));
                    assert(covered_horizontal(qs, j, w));
                }
            }
        }
        assert(c2.spec_vertical() <==> covered_vertical(qs2, j, w)) by {
            if c2.spec_vertical() {
                if same_vertical(index, j, w) {
                    assert(qs2.contains(index));
                } else {
                    let q = choose|q: int| #[trigger] qs.contains(q) && same_vertical(q, j, w);
                    assert(qs2.contains(q));
                }
            }
            if covered_vertical(qs2, j, w) {
                let q = choose|q: int| #[trigger] qs2.contains(q) && same_vertical(q, j, w);
                if q != index {
                    assert(qs.contains(q));
                    assert(covered_vertical(qs, j, w));
                }
            }
        }
        assert(c2.spec_principal() <==> covered_principal(qs2, j, w)) by {
            if c2.spec_principal() {
                if same_principal(index, j, w) {
                    assert(qs2.contains(index));
                } else {
                    let q = choose|q: int| #[trigger] qs.contains(q) && same_principal(q, j, w);
                    assert(qs2.contains(q));
                }
            }
            if covered_principal(qs2, j, w) {
                let q = choose|q: int| #[trigger] qs2.contains(q) && same_principal(q, j, w);
                if q != index {
                    assert(qs.contains(q));
                    assert(covered_principal(qs, j, w));
                }
            }
        }
        assert(c2.spec_antidiagonal() <==> covered_antidiagonal(qs2, j, w)) by {
            if c2.spec_antidiagonal() {
                if same_antidiagonal(index, j, w) {
                    assert(qs2.contains(index));
                } else {
                    let q = choose|q: int|
                        #[trigger] qs.contains(q) && same_antidiagonal(q, j, w);
                    assert(qs2.contains(q));
                }
            }
            if covered_antidiagonal(qs2, j, w) {
                let q = choose|q: int| #[trigger] qs2.contains(q) && same_antidiagonal(q, j, w);
                if q != index {
                    assert(qs.contains(q));
                    assert(covered_antidiagonal(qs, j, w));
                }
            }
        }
    }
    assert forall|q1: int, q2: int|
        #[trigger] qs2.contains(q1) && #[trigger] qs2.contains(q2) && q1 != q2 implies !aligned(
        q1,
        q2,
        w,
    ) by {
        if q1 == index {
            assert(qs.contains(q2));
            assert(!aligned(q2, index, w));
        } else if q2 == index {
            assert(qs.contains(q1));
            assert(!aligned(q1, index, w));
        } else {
            assert(qs.contains(q1) && qs.contains(q2));
        }
    }
}

/// How each cell's flags change when a queen arrives at `index`: the queen
/// flag flips on at `index`, and each line flag switches on along the
/// matching line through `index` while all other flags stay put.
pub open spec fn flags_after_put(c1: Cell, c2: Cell, index: int, j: int, w: int) -> bool {
    &&& c2.valid()
    &&& (c2.spec_queen() <==> (c1.spec_queen() || j == index))
    &&& (c2.spec_horizontal() <==> (c1.spec_horizontal() || same_horizontal(index, j, w)))
    &&& (c2.spec_vertical() <==> (c1.spec_vertical() || same_vertical(index, j, w)))
    &&& (c2.spec_principal() <==> (c1.spec_principal() || same_principal(index, j, w)))
    &&& (c2.spec_antidiagonal() <==> (c1.spec_antidiagonal() || same_antidiagonal(index, j, w)))
}

/// How each cell's flags change when the queen at `index` leaves: its four
/// lines lose their marks and the queen flag flips off at `index`.
pub open spec fn flags_after_remove(c1: Cell, c2: Cell, index: int, j: int, w: int) -> bool {
    &&& c2.valid()
    &&& (c2.spec_queen() <==> (c1.spec_queen() && j != index))
    &&& (c2.spec_horizontal() <==> (c1.spec_horizontal() && !same_horizontal(index, j, w)))
    &&& (c2.spec_vertical() <==> (c1.spec_vertical() && !same_vertical(index, j, w)))
    &&& (c2.spec_principal() <==> (c1.spec_principal() && !same_principal(index, j, w)))
    &&& (c2.spec_antidiagonal() <==> (c1.spec_antidiagonal() && !same_antidiagonal(index, j, w)))
}

/// Removing a queen and sweeping its four lines clear yields a consistent
/// board for the reduced queen set: no remaining queen shares a line with
/// the removed one, so no mark is cleared that another queen still needs.
proof fn lemma_remove_preserves_wf(pre: Board, post: Board, index: int)
    requires
        pre.wf(),
        0 <= index < pre.spec_cells().len(),
        pre.qset().contains(index),
        post.spec_width() == pre.spec_width(),
        post.spec_cells().len() == pre.spec_cells().len(),
        sorted_strict(post.spec_queens()),
        post.qset() == pre.qset().remove(index),
        forall|j: int|
            0 <= j < post.spec_cells().len() ==> flags_after_remove(
                pre.spec_cells()[j],
                #[trigger] post.spec_cells()[j],
                index,
                j,
                pre.spec_width(),
            ),
    ensures
        post.wf(),
{
    let w = pre.spec_width();
    let n = pre.spec_cells().len() as int;
    let qs = pre.qset();
    let qs2 = post.qset();
    assert forall|q: int| qs2.contains(q) implies 0 <= q < n by {
        assert(qs.contains(q));
    }
    assert forall|j: int| 0 <= j < n implies cell_consistent(
        #[trigger] post.spec_cells()[j],
        qs2,
        j,
        w,
    ) by {
        let c1 = pre.spec_cells()[j];
        let c2 = post.spec_cells()[j];
        assert(cell_consistent(c1, qs, j, w));
        assert(c2.spec_horizontal() <==> covered_horizontal(qs2, j, w)) by {
            if c2.spec_horizontal() {
                let q = choose|q: int| #[trigger] qs.contains(q) && same_horizontal(q, j, w);
                assert(q != index);
                assert(qs2.contains(q));
            }
            if covered_horizontal(qs2, j, w) {
                let q = choose|q: int| #[trigger] qs2.contains(q) && same_horizontal(q, j, w);
                assert(qs.contains(q));
                assert(covered_horizontal(qs, j, w));
                if same_horizontal(index, j, w) {
                    assert(same_horizontal(q, index, w));
                    assert(!aligned(q, index, w));
                }
            }
        }
        assert(c2.spec_vertical() <==> covered_vertical(qs2, j, w)) by {
            if c2.spec_vertical() {
                let q = choose|q: int| #[trigger] qs.contains(q) && same_vertical(q, j, w);
                assert(q != index);
                assert(qs2.contains(q));
            }
            if covered_vertical(qs2, j, w) {
                let q = choose|q: int| #[trigger] qs2.contains(q) && same_vertical(q, j, w);
                assert(qs.contains(q));
                assert(covered_vertical(qs, j, w));
                if same_vertical(index, j, w) {
                    assert(same_vertical(q, index, w));
                    assert(!aligned(q, index, w));
                }
            }
        }
        assert(c2.spec_principal() <==> covered_principal(qs2, j, w)) by {
            if c2.spec_principal() {
                let q = choose|q: int| #[trigger] qs.contains(q) && same_principal(q, j, w);
                assert(q != index);
                assert(qs2.contains(q));
            }
            if covered_principal(qs2, j, w) {
                let q = choose|q: int| #[trigger] qs2.contains(q) && same_principal(q, j, w);
                assert(qs.contains(q));
                assert(covered_principal(qs, j, w));
                if same_principal(index, j, w) {
                    assert(same_principal(q, index, w));
                    assert(!aligned(q, index, w));
                }
            }
        }
        assert(c2.spec_antidiagonal() <==> covered_antidiagonal(qs2, j, w)) by {
            if c2.spec_antidiagonal() {
                let q = choose|q: int| #[trigger] qs.contains(q) && same_antidiagonal(q, j, w);
                assert(q != index);
                assert(qs2.contains(q));
            }
            if covered_antidiagonal(qs2, j, w) {
                let q = choose|q: int| #[trigger] qs2.contains(q) && same_antidiagonal(q, j, w);
                assert(qs.contains(q));
                assert(covered_antidiagonal(qs, j, w));
                if same_antidiagonal(index, j, w) {
                    assert(same_antidiagonal(q, index, w));
                    assert(!aligned(q, index, w));
                }
            }
        }
    }
}

/// Insert a fresh value into a strictly ascending vector, keeping it
/// ascending.
fn insert_sorted(v: &mut Vec<usize>, x: usize)
    requires
        sorted_strict(old(v)@),
        !old(v)@.contains(x),
    ensures
        sorted_strict(final(v)@),
        iset(final(v)@) == iset(old(v)@).insert(x as int),
        final(v)@.len() == old(v)@.len() + 1,
{
    let total = v.len();
    let mut pos: usize = 0;
    while pos < total && v[pos] < x
        invariant
            total as int == v@.len(),
            pos <= v@.len(),
            sorted_strict(v@),
            v@ == old(v)@,
            forall|k: int| 0 <= k < pos as int ==> v@[k] < x,
        decreases v@.len() - pos as int,
    {
        pos = pos + 1;
    }
    proof {
        assert(pos as int == v@.len() || v@[pos as int] >= x);
        if (pos as int) < v@.len() && v@[pos as int] == x {
            assert(v@.contains(x));
        }
    }
    v.insert(pos, x);
    proof {
        let s1 = old(v)@;
        let s2 = v@;
        assert forall|a: int, b: int| 0 <= a < b < s2.len() implies s2[a] < s2[b] by {
            if a < pos as int && b == pos as int {
                assert(s2[a] == s1[a]);
            } else if a == pos as int && b > pos as int {
                assert(s2[b] == s1[b - 1]);
                assert(s1[b - 1] >= x);
                if s1[b - 1] == x {
                    assert(s1.contains(x));
                }
            } else if b < pos as int {
                assert(s2[a] == s1[a] && s2[b] == s1[b]);
            } else if a > pos as int {
                assert(s2[a] == s1[a - 1] && s2[b] == s1[b - 1]);
            } else {
                assert(a < pos as int && b > pos as int);
                assert(s2[a] == s1[a] && s2[b] == s1[b - 1]);
                assert(s2[a] < x);
                assert(s1[b - 1] >= x);
                if s1[b - 1] == x {
                    assert(s1.contains(x));
                }
            }
        }
        assert forall|q: int| iset(s2).contains(q) implies iset(s1).insert(x as int).contains(
            q,
        ) by {
            let k = choose|k: int| 0 <= k < s2.len() && s2[k] as int == q;
            if k < pos as int {
                assert(s1[k] as int == q);
            } else if k > pos as int {
                assert(s1[k - 1] as int == q);
            }
        }
        assert forall|q: int| iset(s1).insert(x as int).contains(q) implies iset(s2).contains(
            q,
        ) by {
            if q == x as int {
                assert(s2[pos as int] as int == q);
            } else {
                let k = choose|k: int| 0 <= k < s1.len() && s1[k] as int == q;
                if k < pos as int {
                    assert(s2[k] as int == q);
                } else {
                    assert(s2[k + 1] as int == q);
                }
            }
        }
        assert(iset(s2) =~= iset(s1).insert(x as int));
    }
}

/// Remove a value from a strictly ascending vector, keeping it ascending.
fn remove_sorted(v: &mut Vec<usize>, x: usize)
    requires
        sorted_strict(old(v)@),
        old(v)@.contains(x),
    ensures
        sorted_strict(final(v)@),
        iset(final(v)@) == iset(old(v)@).remove(x as int),
        final(v)@.len() == old(v)@.len() - 1,
{
    let total = v.len();
    let mut pos: usize = 0;
    while v[pos] != x
        invariant
            total as int == v@.len(),
            pos < v@.len(),
            sorted_strict(v@),
            v@ == old(v)@,
            v@.contains(x),
            forall|k: int| 0 <= k < pos as int ==> v@[k] != x,
        decreases v@.len() - pos as int,
    {
        proof {
            let k = choose|k: int| 0 <= k < v@.len() && v@[k] == x;
            assert(k > pos as int);
            assert(pos as int + 1 < v@.len() || v@[pos as int + 1] == x);
        }
        pos = pos + 1;
    }
    v.remove(pos);
    proof {
        let s1 = old(v)@;
        let s2 = v@;
        assert forall|a: int, b: int| 0 <= a < b < s2.len() implies s2[a] < s2[b] by {
            if b < pos as int {
                assert(s2[a] == s1[a] && s2[b] == s1[b]);
            } else if a >= pos as int {
                assert(s2[a] == s1[a + 1] && s2[b] == s1[b + 1]);
            } else {
                assert(s2[a] == s1[a] && s2[b] == s1[b + 1]);
            }
        }
        assert forall|q: int| iset(s2).contains(q) implies iset(s1).remove(x as int).contains(
            q,
        ) by {
            let k = choose|k: int| 0 <= k < s2.len() && s2[k] as int == q;
            if k < pos as int {
                assert(s1[k] as int == q);
                assert(s1[k] != x);
            } else {
                assert(s1[k + 1] as int == q);
                assert(s1[k + 1] != x);
            }
        }
        assert forall|q: int| iset(s1).remove(x as int).contains(q) implies iset(s2).contains(
            q,
        ) by {
            let k = choose|k: int| 0 <= k < s1.len() && s1[k] as int == q;
            assert(k != pos as int);
            if k < pos as int {
                assert(s2[k] as int == q);
            } else {
                assert(s2[k - 1] as int == q);
            }
        }
        assert(iset(s2) =~= iset(s1).remove(x as int));
    }
}

/// One of the four attack lines, used to choose which flag a sweep touches.
#[derive(Debug, Clone, Copy, PartialEq, Eq)]
pub enum LineKind {
    Horizontal,
    Vertical,
    Principal,
    Antidiagonal,
}

/// The flag of `c` that belongs to the given line.
pub open spec fn line_flag(c: Cell, kind: LineKind) -> bool {
    match kind {
        LineKind::Horizontal => c.spec_horizontal(),
        LineKind::Vertical => c.spec_vertical(),
        LineKind::Principal => c.spec_principal(),
        LineKind::Antidiagonal => c.spec_antidiagonal(),
    }
}

/// All flags of the cell other than the given line's are unchanged between
/// `c1` and `c2`.
pub open spec fn rest_preserved(c1: Cell, c2: Cell, kind: LineKind) -> bool {
    &&& c2.spec_queen() == c1.spec_queen()
    &&& (kind != LineKind::Horizontal ==> c2.spec_horizontal() == c1.spec_horizontal())
    &&& (kind != LineKind::Vertical ==> c2.spec_vertical() == c1.spec_vertical())
    &&& (kind != LineKind::Principal ==> c2.spec_principal() == c1.spec_principal())
    &&& (kind != LineKind::Antidiagonal ==> c2.spec_antidiagonal() == c1.spec_antidiagonal())
}

/// Set or clear one line flag of one cell.
fn apply_flag(c: &mut Cell, kind: LineKind, set: bool)
    ensures
        line_flag(*final(c), kind) == set,
        rest_preserved(*old(c), *final(c), kind),
        old(c).valid() ==> final(c).valid(),
{
    match kind {
        LineKind::Horizontal => {
            if set {
                c.attack_horizontal();
            } else {
                c.lift_horizontal();
            }
        },
        LineKind::Vertical => {
            if set {
                c.attack_vertical();
            } else {
                c.lift_vertical();
            }
        },
        LineKind::Principal => {
            if set {
                c.attack_principal();
            } else {
                c.lift_principal();
            }
        },
        LineKind::Antidiagonal => {
            if set {
                c.attack_antidiagonal();
            } else {
                c.lift_antidiagonal();
            }
        },
    }
}

/// Sweep the arithmetic progression `min, min + step, ..., max` and set or
/// clear one line flag on every cell it passes, leaving all other cells and
/// all other flags untouched.
fn mark_line(cells: &mut Vec<Cell>, min: usize, max: usize, step: usize, kind: LineKind, set: bool)
    requires
        min <= max,
        (max as int) < old(cells)@.len(),
        step == 0 ==> min == max,
        step >= 1 ==> ((max as int) - (min as int)) % (step as int) == 0,
    ensures
        final(cells)@.len() == old(cells)@.len(),
        forall|j: int|
            0 <= j < final(cells)@.len() && in_segment(j, min as int, max as int, step as int)
                ==> line_flag(#[trigger] final(cells)@[j], kind) == set && rest_preserved(
                old(cells)@[j],
                final(cells)@[j],
                kind,
            ) && (old(cells)@[j].valid() ==> final(cells)@[j].valid()),
        forall|j: int|
            0 <= j < final(cells)@.len() && !in_segment(j, min as int, max as int, step as int)
                ==> final(cells)@[j] == old(cells)@[j],
{
    proof {
        if step >= 1 {
            vstd::arithmetic::div_mod::lemma_mod_multiples_basic(0, step as int);
        }
    }
    let mut i = min;
    while i < max
        invariant
            min <= i <= max,
            (max as int) < cells@.len(),
            cells@.len() == old(cells)@.len(),
            step == 0 ==> min == max && i == min,
            step >= 1 ==> ((i as int) - (min as int)) % (step as int) == 0 && ((max as int) - (
            i as int)) % (step as int) == 0,
            forall|j: int|
                0 <= j < cells@.len() && in_segment(j, min as int, max as int, step as int) && j
                    < i as int ==> line_flag(#[trigger] cells@[j], kind) == set && rest_preserved(
                    old(cells)@[j],
                    cells@[j],
                    kind,
                ) && (old(cells)@[j].valid() ==> cells@[j].valid()),
            forall|j: int|
                0 <= j < cells@.len() && !(in_segment(j, min as int, max as int, step as int) && j
                    < i as int) ==> cells@[j] == old(cells)@[j],
        decreases (max as int) - (i as int),
    {
        let ghost prev = cells@;
        let ghost ip = i as int;
        let ghost s = step as int;
        let ghost mn = min as int;
        let ghost mx = max as int;
        proof {
            assert(s >= 1);
            assert(in_segment(ip, mn, mx, s)) by {
                vstd::arithmetic::div_mod::lemma_fundamental_div_mod(ip - mn, s);
            }
            // the next multiple after ip is ip + s, so stepping cannot pass max
            assert(mx - ip >= s) by {
                vstd::arithmetic::div_mod::lemma_fundamental_div_mod(mx - ip, s);
                let q = (mx - ip) / s;
                assert(mx - ip == s * q);
                assert(q >= 1) by (nonlinear_arith)
                    requires
                        mx - ip == s * q,
                        mx - ip > 0,
                        s >= 1,
                ;
                assert(s * q >= s) by (nonlinear_arith)
                    requires
                        q >= 1,
                        s >= 1,
                ;
            }
        }
        let c = cell_at_mut(cells, i);
        apply_flag(c, kind, set);
        proof {
            assert(cells@ == prev.update(ip, cells@[ip]));
            // maintain the modular invariants for the advanced index
            let p = (ip - mn) / s;
            vstd::arithmetic::div_mod::lemma_fundamental_div_mod(ip - mn, s);
            assert(ip - mn == s * p);
            assert(ip + s - mn == (p + 1) * s) by (nonlinear_arith)
                requires
                    ip - mn == s * p,
            ;
            vstd::arithmetic::div_mod::lemma_mod_multiples_basic(p + 1, s);
            let q = (mx - ip) / s;
            vstd::arithmetic::div_mod::lemma_fundamental_div_mod(mx - ip, s);
            assert(mx - ip == s * q);
            assert(mx - (ip + s) == (q - 1) * s) by (nonlinear_arith)
                requires
                    mx - ip == s * q,
            ;
            vstd::arithmetic::div_mod::lemma_mod_multiples_basic(q - 1, s);
            // a segment index strictly between ip and ip + s cannot exist
            assert forall|j: int|
                0 <= j < cells@.len() && in_segment(j, mn, mx, s) && j < ip + s implies j <= ip by {
                if ip < j < ip + s {
                    vstd::arithmetic::div_mod::lemma_fundamental_div_mod(j - mn, s);
                    let a = (j - mn) / s;
                    assert(j - mn == s * a);
                    assert(false) by (nonlinear_arith)
                        requires
                            j - mn == s * a,
                            ip - mn == s * p,
                            ip < j < ip + s,
                            s >= 1,
                    ;
                }
            }
        }
        i = i + step;
    }
    let ghost prev = cells@;
    let c = cell_at_mut(cells, i);
    apply_flag(c, kind, set);
    proof {
        let mn = min as int;
        let mx = max as int;
        let s = step as int;
        assert(i as int == mx);
        assert(cells@ == prev.update(mx, cells@[mx]));
        assert(in_segment(mx, mn, mx, s)) by {
            if s >= 1 {
                vstd::arithmetic::div_mod::lemma_fundamental_div_mod(mx - mn, s);
            }
        }
    }
}

/// The cell is valid, free, and carries no flag.
pub open spec fn all_clear(c: Cell) -> bool {
    &&& c.valid()
    &&& c.spec_free()
    &&& !c.spec_queen()
    &&& !c.spec_horizontal()
    &&& !c.spec_vertical()
    &&& !c.spec_principal()
    &&& !c.spec_antidiagonal()
}

/// Reset every cell to the free state.
fn clear_cells(cells: &mut Vec<Cell>)
    ensures
        final(cells)@.len() == old(cells)@.len(),
        forall|j: int|
            0 <= j < final(cells)@.len() ==> all_clear(#[trigger] final(cells)@[j]),
{
    let total = cells.len();
    let mut k: usize = 0;
    while k < total
        invariant
            total as int == cells@.len(),
            k <= total,
            cells@.len() == old(cells)@.len(),
            forall|j: int| 0 <= j < k as int ==> all_clear(#[trigger] cells@[j]),
        decreases total as int - k as int,
    {
        let c = cell_at_mut(cells, k);
        c.clear();
        k = k + 1;
    }
}

impl Board {
    /// Empty the board in place: every cell freed, every queen gone.
    pub fn clear(&mut self)
        requires
            old(self).wf(),
        ensures
            final(self).wf(),
            final(self).spec_width() == old(self).spec_width(),
            final(self).spec_cells().len() == old(self).spec_cells().len(),
            final(self).spec_queens().len() == 0,
            final(self).qset() == Set::<int>::empty(),
    {
        clear_cells(&mut self.cells);
        self.queens = Vec::new();
        proof {
            assert(self.qset() =~= Set::<int>::empty());
            lemma_empty_wf(*self);
        }
    }

    /// Empty the board and hand back the queens it held, in ascending
    /// order.
    pub fn take_queens(&mut self) -> (r: Vec<usize>)
        requires
            old(self).wf(),
        ensures
            r@ == old(self).spec_queens(),
            final(self).wf(),
            final(self).spec_width() == old(self).spec_width(),
            final(self).spec_cells().len() == old(self).spec_cells().len(),
            final(self).spec_queens().len() == 0,
            final(self).qset() == Set::<int>::empty(),
    {
        clear_cells(&mut self.cells);
        let mut out: Vec<usize> = Vec::new();
        core::mem::swap(&mut out, &mut self.queens);
        proof {
            assert(self.qset() =~= Set::<int>::empty());
            lemma_empty_wf(*self);
        }
        out
    }

    /// The free squares, in ascending order.
    pub fn available(&self) -> (r: Vec<usize>)
        ensures
            sorted_strict(r@),
            forall|k: int|
                0 <= k < r@.len() ==> (#[trigger] r@[k] as int) < self.spec_cells().len()
                    && self.spec_cells()[r@[k] as int].spec_free(),
            forall|j: usize|
                (j as int) < self.spec_cells().len() && self.spec_cells()[j as int].spec_free()
                    ==> r@.contains(j),
    {
        let total = self.cells.len();
        let mut out: Vec<usize> = Vec::new();
        let mut j: usize = 0;
        while j < total
            invariant
                total as int == self.spec_cells().len(),
                j <= total,
                sorted_strict(out@),
                forall|k: int|
                    0 <= k < out@.len() ==> (#[trigger] out@[k] as int) < j as int
                        && self.spec_cells()[out@[k] as int].spec_free(),
                forall|jj: usize|
                    (jj as int) < j as int && (#[trigger] self.spec_cells()[jj as int]).spec_free()
                        ==> out@.contains(jj),
            decreases total as int - j as int,
        {
            if self.cells[j].is_free() {
                let ghost prev = out@;
                out.push(j);
                proof {
                    assert forall|jj: usize|
                        (jj as int) < j as int + 1 && (#[trigger] self.spec_cells()[jj as int]).spec_free()
                            implies out@.contains(jj) by {
                        if (jj as int) < j as int {
                            assert(prev.contains(jj));
                            let k = choose|k: int| 0 <= k < prev.len() && prev[k] == jj;
                            assert(out@[k] == jj);
                        } else {
                            assert(out@[out@.len() - 1] == jj);
                        }
                    }
                }
            }
            j = j + 1;
        }
        out
    }

    /// A copy of the row-major cell grid.
    pub fn cells(&self) -> (r: Vec<Cell>)
        ensures
            r@ == self.spec_cells(),
    {
        let total = self.cells.len();
        let mut out: Vec<Cell> = Vec::new();
        let mut j: usize = 0;
        while j < total
            invariant
                total as int == self.spec_cells().len(),
                j <= total,
                out@.len() == j as int,
                forall|k: int| 0 <= k < j as int ==> out@[k] == self.spec_cells()[k],
            decreases total as int - j as int,
        {
            out.push(self.cells[j]);
            j = j + 1;
        }
        proof {
            assert(out@ =~= self.spec_cells());
        }
        out
    }

    /// The rows of the board, top to bottom, each a copy of `width` cells.
    pub fn rows(&self) -> (r: Vec<Vec<Cell>>)
        requires
            self.wf(),
        ensures
            r@.len() == self.spec_width(),
            forall|a: int| 0 <= a < r@.len() ==> (#[trigger] r@[a])@.len() == self.spec_width(),
            forall|a: int, b: int|
                0 <= a < self.spec_width() && 0 <= b < self.spec_width() ==> (#[trigger] r@[a]@[b])
                    == self.spec_cells()[a * self.spec_width() + b],
    {
        let ghost w = self.spec_width();
        let total = self.cells.len();
        let mut out: Vec<Vec<Cell>> = Vec::new();
        let mut a: usize = 0;
        while a < self.width
            invariant
                total as int == self.spec_cells().len(),
                self.spec_cells().len() == w * w,
                w == self.spec_width(),
                a as int <= w,
                out@.len() == a as int,
                forall|x: int| 0 <= x < a as int ==> (#[trigger] out@[x])@.len() == w,
                forall|x: int, b: int|
                    0 <= x < a as int && 0 <= b < w ==> (#[trigger] out@[x]@[b])
                        == self.spec_cells()[x * w + b],
            decreases w - a as int,
        {
            let mut row: Vec<Cell> = Vec::new();
            let mut b: usize = 0;
            proof {
                assert((a as int) * w + w <= w * w) by (nonlinear_arith)
                    requires
                        0 <= (a as int) < w,
                ;
                assert((a as int) * w >= 0) by (nonlinear_arith)
                    requires
                        0 <= (a as int),
                        0 <= w,
                ;
            }
            while b < self.width
                invariant
                    total as int == self.spec_cells().len(),
                    self.spec_cells().len() == w * w,
                    w == self.spec_width(),
                    (a as int) < w,
                    b as int <= w,
                    0 <= (a as int) * w,
                    (a as int) * w + w <= w * w,
                    row@.len() == b as int,
                    forall|k: int|
                        0 <= k < b as int ==> row@[k] == self.spec_cells()[(a as int) * w + k],
                decreases w - b as int,
            {
                let idx = a * self.width + b;
                row.push(self.cells[idx]);
                b = b + 1;
            }
            out.push(row);
            a = a + 1;
        }
        out
    }

    /// The queens' flat indices in ascending order.
    pub fn sorted_queens(&self) -> (r: Vec<usize>)
        ensures
            r@ == self.spec_queens(),
    {
        let total = self.queens.len();
        let mut out: Vec<usize> = Vec::new();
        let mut k: usize = 0;
        while k < total
            invariant
                total as int == self.spec_queens().len(),
                k <= total,
                out@.len() == k as int,
                forall|x: int| 0 <= x < k as int ==> out@[x] == self.spec_queens()[x],
            decreases total as int - k as int,
        {
            out.push(self.queens[k]);
            k = k + 1;
        }
        proof {
            assert(out@ =~= self.spec_queens());
        }
        out
    }

    /// Toggle the square in the given column and row.
    pub fn toggle_with_pair(&mut self, column: usize, row: usize)
        requires
            old(self).wf(),
            (row as int) < old(self).spec_width(),
            (column as int) < old(self).spec_width(),
        ensures
            Board::toggle_post(
                *old(self),
                *final(self),
                (row as int) * old(self).spec_width() + column as int,
            ),
    {
        let ghost w = self.spec_width();
        let total = self.cells.len();
        proof {
            assert((row as int) * w + (column as int) < w * w && 0 <= (row as int) * w)
                by (nonlinear_arith)
                requires
                    0 <= (row as int) < w,
                    0 <= (column as int) < w,
            ;
        }
        let index = row * self.width + column;
        self.toggle(index);
    }
}

/// Number of cells on an arithmetic progression from `min` to `max` by
/// `step`.
pub open spec fn seg_count(min: int, max: int, step: int) -> int {
    if step == 0 {
        1
    } else {
        (max - min) / step + 1
    }
}

/// The entries that a sweep of one attack line yields: each in-bounds index
/// of the progression paired with its cell.
pub open spec fn segment_seq(cells: Seq<Cell>, min: int, max: int, step: int) -> Seq<
    (usize, Cell),
> {
    Seq::new(
        seg_count(min, max, step) as nat,
        |k: int| ((min + k * step) as usize, cells[min + k * step]),
    )
}

/// Append one line's sweep to `out`.
fn push_segment(out: &mut Vec<(usize, Cell)>, cells: &Vec<Cell>, min: usize, max: usize, step: usize)
    requires
        min <= max,
        (max as int) < cells@.len(),
        step == 0 ==> min == max,
        step >= 1 ==> ((max as int) - (min as int)) % (step as int) == 0,
    ensures
        final(out)@ == old(out)@ + segment_seq(cells@, min as int, max as int, step as int),
{
    let ghost base = out@.len() as int;
    let ghost mn = min as int;
    let ghost mx = max as int;
    let ghost s = step as int;
    proof {
        if step >= 1 {
            vstd::arithmetic::div_mod::lemma_mod_multiples_basic(0, s);
        }
    }
    let total = cells.len();
    let mut i = min;
    let mut k: usize = 0;
    while i < max
        invariant
            min <= i <= max,
            (max as int) < cells@.len(),
            total as int == cells@.len(),
            step == 0 ==> k == 0,
            mn == min as int,
            mx == max as int,
            s == step as int,
            base == old(out)@.len() as int,
            out@.len() == base + k as int,
            i as int == mn + (k as int) * s,
            step == 0 ==> min == max && i == min,
            step >= 1 ==> ((i as int) - mn) % s == 0 && (mx - (i as int)) % s == 0,
            forall|kk: int| 0 <= kk < base ==> out@[kk] == old(out)@[kk],
            forall|kk: int|
                0 <= kk < k as int ==> (#[trigger] out@[base + kk]) == (((mn + kk * s) as usize,
                cells@[mn + kk * s])),
        decreases mx - (i as int),
    {
        proof {
            assert(s >= 1);
            assert(mx - (i as int) >= s) by {
                vstd::arithmetic::div_mod::lemma_fundamental_div_mod(mx - (i as int), s);
                let q = (mx - (i as int)) / s;
                assert(mx - (i as int) == s * q);
                assert(q >= 1 && s * q >= s) by (nonlinear_arith)
                    requires
                        mx - (i as int) == s * q,
                        mx - (i as int) > 0,
                        s >= 1,
                ;
            }
        }
        out.push((i, cells[i]));
        proof {
            let p = ((i as int) - mn) / s;
            vstd::arithmetic::div_mod::lemma_fundamental_div_mod((i as int) - mn, s);
            assert((i as int) - mn == s * p);
            assert((i as int) + s - mn == (p + 1) * s) by (nonlinear_arith)
                requires
                    (i as int) - mn == s * p,
            ;
            vstd::arithmetic::div_mod::lemma_mod_multiples_basic(p + 1, s);
            let q = (mx - (i as int)) / s;
            vstd::arithmetic::div_mod::lemma_fundamental_div_mod(mx - (i as int), s);
            assert(mx - (i as int) == s * q);
            assert(mx - ((i as int) + s) == (q - 1) * s) by (nonlinear_arith)
                requires
                    mx - (i as int) == s * q,
            ;
            vstd::arithmetic::div_mod::lemma_mod_multiples_basic(q - 1, s);
            assert((i as int) + s == mn + ((k as int) + 1) * s) by (nonlinear_arith)
                requires
                    (i as int) == mn + (k as int) * s,
            ;
            assert((k as int) <= (k as int) * s) by (nonlinear_arith)
                requires
                    s >= 1,
                    0 <= (k as int),
            ;
        }
        i = i + step;
        k = k + 1;
    }
    out.push((max, cells[max]));
    proof {
        assert((i as int) == mx);
        assert(seg_count(mn, mx, s) == k as int + 1) by {
            if s >= 1 {
                vstd::arithmetic::div_mod::lemma_fundamental_div_mod_converse(
                    mx - mn,
                    s,
                    k as int,
                    0,
                );
            }
        }
        assert(mx == mn + (k as int) * s);
        assert forall|kk: int| 0 <= kk < seg_count(mn, mx, s) implies (#[trigger] out@[base + kk])
            == (((mn + kk * s) as usize, cells@[mn + kk * s])) by {
            if kk == k as int {
                assert(out@[base + kk] == ((max, cells@[mx])));
            }
        }
        let full = old(out)@ + segment_seq(cells@, mn, mx, s);
        assert(out@.len() == full.len());
        assert forall|idx: int| 0 <= idx < out@.len() implies out@[idx] == full[idx] by {
            if idx < base {
                assert(out@[idx] == old(out)@[idx]);
                assert(full[idx] == old(out)@[idx]);
            } else {
                let kk = idx - base;
                assert(out@[base + kk] == (((mn + kk * s) as usize, cells@[mn + kk * s])));
                assert(full[idx] == segment_seq(cells@, mn, mx, s)[kk]);
                assert(segment_seq(cells@, mn, mx, s)[kk] == (((mn + kk * s) as usize, cells@[mn
                    + kk * s])));
            }
        }
        assert(out@ =~= full);
    }
}

impl Board {
    /// All cells attacked from `index`, swept line by line in a fixed
    /// order: the full row, the full column, the principal diagonal, the
    /// anti-diagonal, each clipped to the board.
    pub fn traverse_boundaries(&self, index: usize) -> (r: Vec<(usize, Cell)>)
        requires
            self.wf(),
            (index as int) < self.spec_cells().len(),
        ensures
            ({
                let i = index as int;
                let w = self.spec_width();
                let cs = self.spec_cells();
                r@ == segment_seq(cs, spec_row(i, w) * w, spec_row(i, w) * w + (w - 1), 1)
                    + segment_seq(cs, spec_col(i, w), spec_col(i, w) + w * (w - 1), w)
                    + segment_seq(
                    cs,
                    i - (w + 1) * principal_back(i, w),
                    i + (w + 1) * principal_forth(i, w),
                    w + 1,
                ) + segment_seq(
                    cs,
                    i - (w - 1) * antidiagonal_back(i, w),
                    i + (w - 1) * antidiagonal_forth(i, w),
                    w - 1,
                )
            }),
    {
        let ghost w = self.spec_width();
        let ghost n = self.spec_cells().len() as int;
        proof {
            assert(width_positive(w, index as int, n)) by (nonlinear_arith)
                requires
                    0 <= (index as int) < n,
                    0 <= w,
                    n == w * w,
            ;
        }
        let _total = self.cells.len();
        proof {
            assert(1 <= w && w + 1 <= usize::MAX as int) by (nonlinear_arith)
                requires
                    width_positive(w, index as int, n),
                    0 <= (index as int),
                    n <= usize::MAX as int,
            ;
        }
        let bounds = Boundaries::new(index, self.width);
        let mut out: Vec<(usize, Cell)> = Vec::new();
        push_segment(&mut out, &self.cells, bounds.horizontal_min, bounds.horizontal_max, 1);
        push_segment(
            &mut out,
            &self.cells,
            bounds.vertical_min,
            bounds.vertical_max,
            self.width,
        );
        push_segment(
            &mut out,
            &self.cells,
            bounds.principal_min,
            bounds.principal_max,
            self.width + 1,
        );
        push_segment(
            &mut out,
            &self.cells,
            bounds.antidiagonal_min,
            bounds.antidiagonal_max,
            self.width - 1,
        );
        out
    }
}

/// A board with no queens and only free cells satisfies the invariant.
proof fn lemma_empty_wf(b: Board)
    requires
        b.spec_cells().len() == b.spec_width() * b.spec_width(),
        b.spec_queens().len() == 0,
        forall|j: int| 0 <= j < b.spec_cells().len() ==> all_clear(#[trigger] b.spec_cells()[j]),
    ensures
        b.wf(),
{
    assert(b.qset() =~= Set::<int>::empty());
}

/// Two strictly ascending sequences that hold the same values are the same
/// sequence.
proof fn lemma_sorted_unique(s1: Seq<usize>, s2: Seq<usize>)
    requires
        sorted_strict(s1),
        sorted_strict(s2),
        iset(s1) == iset(s2),
    ensures
        s1 == s2,
    decreases s1.len(),
{
    if s1.len() == 0 {
        if s2.len() > 0 {
            assert(iset(s2).contains(s2[0] as int));
            assert(iset(s1).contains(s2[0] as int));
            assert(false);
        }
        assert(s1 =~= s2);
    } else if s2.len() == 0 {
        assert(iset(s1).contains(s1[0] as int));
        assert(iset(s2).contains(s1[0] as int));
        assert(false);
    } else {
        assert(iset(s1).contains(s1[0] as int));
        assert(iset(s2).contains(s2[0] as int));
        let k2 = choose|k: int| 0 <= k < s2.len() && s2[k] as int == s1[0] as int;
        let k1 = choose|k: int| 0 <= k < s1.len() && s1[k] as int == s2[0] as int;
        assert(s2[0] <= s2[k2] && s1[0] <= s1[k1]);
        assert(s1[0] == s2[0]);
        let t1 = s1.subrange(1, s1.len() as int);
        let t2 = s2.subrange(1, s2.len() as int);
        assert forall|q: int| iset(t1).contains(q) implies iset(t2).contains(q) by {
            let k = choose|k: int| 0 <= k < t1.len() && t1[k] as int == q;
            assert(s1[k + 1] as int == q);
            assert(iset(s1).contains(q));
            let m = choose|m: int| 0 <= m < s2.len() && s2[m] as int == q;
            assert(s1[0] < s1[k + 1]);
            assert(m != 0);
            assert(t2[m - 1] as int == q);
        }
        assert forall|q: int| iset(t2).contains(q) implies iset(t1).contains(q) by {
            let k = choose|k: int| 0 <= k < t2.len() && t2[k] as int == q;
            assert(s2[k + 1] as int == q);
            assert(iset(s2).contains(q));
            let m = choose|m: int| 0 <= m < s1.len() && s1[m] as int == q;
            assert(s2[0] < s2[k + 1]);
            assert(m != 0);
            assert(t1[m - 1] as int == q);
        }
        assert(iset(t1) =~= iset(t2));
        lemma_sorted_unique(t1, t2);
        assert forall|i: int| 0 <= i < s1.len() implies s1[i] == s2[i] by {
            if i > 0 {
                assert(t1[i - 1] == t2[i - 1]);
            }
        }
        assert(s1 =~= s2);
    }
}

/// A board's width and queen set pin down every cell and the whole queen
/// list: the invariant leaves no freedom in the representation.
pub proof fn lemma_board_determined(b1: Board, b2: Board)
    requires
        b1.wf(),
        b2.wf(),
        b1.spec_width() == b2.spec_width(),
        b1.qset() == b2.qset(),
    ensures
        b1.spec_queens() == b2.spec_queens(),
        b1.spec_cells() == b2.spec_cells(),
{
    lemma_sorted_unique(b1.spec_queens(), b2.spec_queens());
    let w = b1.spec_width();
    let n = b1.spec_cells().len() as int;
    assert forall|j: int| 0 <= j < n implies b1.spec_cells()[j] == b2.spec_cells()[j] by {
        assert(cell_consistent(b1.spec_cells()[j], b1.qset(), j, w));
        assert(cell_consistent(b2.spec_cells()[j], b2.qset(), j, w));
        lemma_cell_determined(b1.spec_cells()[j], b2.spec_cells()[j]);
    }
    assert(b1.spec_cells() =~= b2.spec_cells());
}

/// The squares whose cell carries the queen flag.
pub open spec fn queen_flag_squares(b: Board) -> Set<int> {
    Set::new(|j: int| 0 <= j < b.spec_cells().len() && b.spec_cells()[j].spec_queen())
}

/// A strictly ascending sequence has as many entries as its value set has
/// elements.
proof fn lemma_iset_card(s: Seq<usize>)
    requires
        sorted_strict(s),
    ensures
        iset(s).finite(),
        iset(s).len() == s.len(),
    decreases s.len(),
{
    if s.len() == 0 {
        assert(iset(s) =~= Set::<int>::empty());
    } else {
        let t = s.subrange(0, s.len() - 1);
        lemma_iset_card(t);
        assert(!iset(t).contains(s.last() as int)) by {
            if iset(t).contains(s.last() as int) {
                let k = choose|k: int| 0 <= k < t.len() && t[k] as int == s.last() as int;
                assert(s[k] < s[s.len() - 1]);
            }
        }
        assert forall|q: int| iset(s).contains(q) implies iset(t).insert(
            s.last() as int,
        ).contains(q) by {
            let k = choose|k: int| 0 <= k < s.len() && s[k] as int == q;
            if k < s.len() - 1 {
                assert(t[k] as int == q);
            }
        }
        assert forall|q: int| iset(t).insert(s.last() as int).contains(q) implies iset(
            s,
        ).contains(q) by {
            if q == s.last() as int {
                assert(s[s.len() - 1] as int == q);
            } else {
                let k = choose|k: int| 0 <= k < t.len() && t[k] as int == q;
                assert(s[k] as int == q);
            }
        }
        assert(iset(s) =~= iset(t).insert(s.last() as int));
    }
}

/// Every flag on a well-formed board is justified, square by square: the
/// queen flag marks exactly the members of the queen list, and each
/// attack flag is set exactly when some placed queen's line of that kind
/// passes through the square.  `Board::new` establishes the invariant and
/// `toggle` preserves it, so this holds after any sequence of toggles.
pub proof fn lemma_attack_flags_exact(b: Board, j: int)
    requires
        b.wf(),
        0 <= j < b.spec_cells().len(),
    ensures
        b.spec_cells()[j].spec_queen() <==> b.qset().contains(j),
        b.spec_cells()[j].spec_horizontal() <==> covered_horizontal(b.qset(), j, b.spec_width()),
        b.spec_cells()[j].spec_vertical() <==> covered_vertical(b.qset(), j, b.spec_width()),
        b.spec_cells()[j].spec_principal() <==> covered_principal(b.qset(), j, b.spec_width()),
        b.spec_cells()[j].spec_antidiagonal() <==> covered_antidiagonal(
            b.qset(),
            j,
            b.spec_width(),
        ),
{
    assert(cell_consistent(b.spec_cells()[j], b.qset(), j, b.spec_width()));
}

/// A well-formed board cannot hold more queens than squares.
pub proof fn lemma_queens_bound(b: Board)
    requires
        b.wf(),
    ensures
        b.spec_queens().len() <= b.spec_cells().len(),
{
    lemma_iset_card(b.spec_queens());
    let n = b.spec_cells().len() as int;
    vstd::set_lib::lemma_int_range(0, n);
    assert(b.qset().subset_of(vstd::set_lib::set_int_range(0, n)));
    vstd::set_lib::lemma_len_subset(b.qset(), vstd::set_lib::set_int_range(0, n));
}

/// Two boards agree in every observable part: width, queen list, and
/// every cell.
pub open spec fn same_board(a: Board, b: Board) -> bool {
    &&& a.spec_width() == b.spec_width()
    &&& a.spec_queens() == b.spec_queens()
    &&& a.spec_cells() == b.spec_cells()
}

/// The number of queens in the list always equals the number of squares
/// whose queen flag is set.
pub proof fn lemma_queen_count(b: Board)
    requires
        b.wf(),
    ensures
        queen_flag_squares(b).finite(),
        b.spec_queens().len() == queen_flag_squares(b).len(),
        b.qset().finite(),
        b.spec_queens().len() == b.qset().len(),
{
    assert(queen_flag_squares(b) =~= b.qset());
    lemma_iset_card(b.spec_queens());
}

/// A mutable view of one cell of the grid.
fn cell_at_mut(cells: &mut Vec<Cell>, i: usize) -> (c: &mut Cell)
    requires
        (i as int) < old(cells)@.len(),
    ensures
        *c == old(cells)@[i as int],
        final(cells)@ == old(cells)@.update(i as int, *final(c)),
{
    &mut cells[i]
}

} // verus!
