use vstd::prelude::*;

verus! {

/// Row of the flat index `i` on a board of width `w`.
pub open spec fn spec_row(i: int, w: int) -> int {
    i / w
}

/// Column of the flat index `i` on a board of width `w`.
pub open spec fn spec_col(i: int, w: int) -> int {
    i % w
}

/// The two indices share a row.
pub open spec fn same_horizontal(i: int, j: int, w: int) -> bool {
    spec_row(i, w) == spec_row(j, w)
}

/// The two indices share a column.
pub open spec fn same_vertical(i: int, j: int, w: int) -> bool {
    spec_col(i, w) == spec_col(j, w)
}

/// The two indices share a principal (top-left to bottom-right) diagonal.
pub open spec fn same_principal(i: int, j: int, w: int) -> bool {
    spec_row(i, w) - spec_col(i, w) == spec_row(j, w) - spec_col(j, w)
}

/// The two indices share an anti (top-right to bottom-left) diagonal.
pub open spec fn same_antidiagonal(i: int, j: int, w: int) -> bool {
    spec_row(i, w) + spec_col(i, w) == spec_row(j, w) + spec_col(j, w)
}

/// The two indices share at least one of the four attack lines.
pub open spec fn aligned(i: int, j: int, w: int) -> bool {
    ||| same_horizontal(i, j, w)
    ||| same_vertical(i, j, w)
    ||| same_principal(i, j, w)
    ||| same_antidiagonal(i, j, w)
}

/// `j` lies on the arithmetic progression that starts at `min`, ends at
/// `max`, and advances by `step`.
pub open spec fn in_segment(j: int, min: int, max: int, step: int) -> bool {
    min <= j <= max && if step == 0 {
        j == min
    } else {
        (j - min) % step == 0
    }
}

/// The lowest and highest in-bounds index on each of the four lines through
/// a given index, used to sweep a line without stepping off the board.
#[derive(Debug, Default, Clone, Copy, PartialEq, Eq, PartialOrd, Ord, Hash)]
pub struct Boundaries {
    pub horizontal_min: usize,
    pub horizontal_max: usize,
    pub vertical_min: usize,
    pub vertical_max: usize,
    pub principal_min: usize,
    pub principal_max: usize,
    pub antidiagonal_min: usize,
    pub antidiagonal_max: usize,
}

proof fn lemma_line_horizontal(i: int, j: int, w: int)
    requires
        1 <= w,
        0 <= i < w * w,
        0 <= j < w * w,
    ensures
        in_segment(j, (i / w) * w, (i / w) * w + (w - 1), 1) <==> same_horizontal(i, j, w),
        (i / w) * w <= i <= (i / w) * w + (w - 1),
        (i / w) * w + (w - 1) < w * w,
{
    assert(((i / w) * w <= j <= (i / w) * w + (w - 1) && (j - (i / w) * w) % 1 == 0) <==> i / w
        == j / w) by (nonlinear_arith)
        requires
            1 <= w,
            0 <= i < w * w,
            0 <= j < w * w,
    ;
    assert((i / w) * w <= i <= (i / w) * w + (w - 1) && (i / w) * w + (w - 1) < w * w)
        by (nonlinear_arith)
        requires
            1 <= w,
            0 <= i < w * w,
    ;
}

proof fn lemma_line_vertical(i: int, j: int, w: int)
    requires
        1 <= w,
        0 <= i < w * w,
        0 <= j < w * w,
    ensures
        in_segment(j, i % w, i % w + w * (w - 1), w) <==> same_vertical(i, j, w),
        i % w <= i <= i % w + w * (w - 1),
        i % w + w * (w - 1) < w * w,
        (i % w + w * (w - 1) - i % w) % w == 0,
{
    assert(((i % w <= j <= i % w + w * (w - 1)) && (j - i % w) % w == 0) <==> i % w == j % w)
        by (nonlinear_arith)
        requires
            1 <= w,
            0 <= i < w * w,
            0 <= j < w * w,
    ;
    assert(i % w <= i <= i % w + w * (w - 1) && i % w + w * (w - 1) < w * w && (i % w + w * (w - 1)
        - i % w) % w == 0) by (nonlinear_arith)
        requires
            1 <= w,
            0 <= i < w * w,
    ;
}

/// Distance, in diagonal steps, from `i` to the start of its principal
/// diagonal: the lesser of its row and its column.
pub open spec fn principal_back(i: int, w: int) -> int {
    vstd::math::min(spec_row(i, w), spec_col(i, w))
}

/// Distance, in diagonal steps, from `i` to the end of its principal
/// diagonal.
pub open spec fn principal_forth(i: int, w: int) -> int {
    vstd::math::min(w - 1 - spec_row(i, w), w - 1 - spec_col(i, w))
}

/// Distance, in diagonal steps, from `i` to the start of its anti-diagonal.
pub open spec fn antidiagonal_back(i: int, w: int) -> int {
    vstd::math::min(spec_row(i, w), w - 1 - spec_col(i, w))
}

/// Distance, in diagonal steps, from `i` to the end of its anti-diagonal.
pub open spec fn antidiagonal_forth(i: int, w: int) -> int {
    vstd::math::min(w - 1 - spec_row(i, w), spec_col(i, w))
}

proof fn lemma_decompose(i: int, w: int)
    requires
        1 <= w,
        0 <= i < w * w,
    ensures
        i == w * spec_row(i, w) + spec_col(i, w),
        0 <= spec_col(i, w) < w,
        0 <= spec_row(i, w) < w,
{
    vstd::arithmetic::div_mod::lemma_fundamental_div_mod(i, w);
    vstd::arithmetic::div_mod::lemma_mod_bound(i, w);
    assert(0 <= i / w && i / w < w) by (nonlinear_arith)
        requires
            1 <= w,
            0 <= i < w * w,
    ;
}

proof fn lemma_line_principal(i: int, j: int, w: int)
    requires
        1 <= w,
        0 <= i < w * w,
        0 <= j < w * w,
    ensures
        in_segment(
            j,
            i - (w + 1) * principal_back(i, w),
            i + (w + 1) * principal_forth(i, w),
            w + 1,
        ) <==> same_principal(i, j, w),
        0 <= i - (w + 1) * principal_back(i, w) <= i,
        i <= i + (w + 1) * principal_forth(i, w) < w * w,
        ((w + 1) * principal_back(i, w) + (w + 1) * principal_forth(i, w)) % (w + 1) == 0,
{
    let r = spec_row(i, w);
    let c = spec_col(i, w);
    let rj = spec_row(j, w);
    let cj = spec_col(j, w);
    lemma_decompose(i, w);
    lemma_decompose(j, w);
    let d0 = principal_back(i, w);
    let d1 = principal_forth(i, w);
    let lo = i - (w + 1) * d0;
    let hi = i + (w + 1) * d1;
    assert(0 <= (w + 1) * d0 <= i && 0 <= (w + 1) * d1 && hi < w * w && hi - lo == (d0 + d1) * (w
        + 1)) by (nonlinear_arith)
        requires
            1 <= w,
            i == w * r + c,
            0 <= r < w,
            0 <= c < w,
            d0 == vstd::math::min(r, c),
            d1 == vstd::math::min(w - 1 - r, w - 1 - c),
            lo == i - (w + 1) * d0,
            hi == i + (w + 1) * d1,
    ;
    vstd::arithmetic::div_mod::lemma_mod_multiples_basic(d0 + d1, w + 1);
    if same_principal(i, j, w) {
        let u = rj - r;
        assert(j == i + u * (w + 1) && lo <= j <= hi && j - lo == (u + d0) * (w + 1))
            by (nonlinear_arith)
            requires
                1 <= w,
                i == w * r + c,
                j == w * rj + cj,
                0 <= r < w,
                0 <= c < w,
                0 <= rj < w,
                0 <= cj < w,
                rj - cj == r - c,
                u == rj - r,
                d0 == vstd::math::min(r, c),
                d1 == vstd::math::min(w - 1 - r, w - 1 - c),
                lo == i - (w + 1) * d0,
                hi == i + (w + 1) * d1,
        ;
        vstd::arithmetic::div_mod::lemma_mod_multiples_basic(u + d0, w + 1);
        assert(in_segment(j, lo, hi, w + 1));
    }
    if in_segment(j, lo, hi, w + 1) {
        let t = (j - lo) / (w + 1);
        vstd::arithmetic::div_mod::lemma_fundamental_div_mod(j - lo, w + 1);
        let u = t - d0;
        assert(j == (r + u) * w + (c + u) && 0 <= c + u < w && 0 <= r + u < w)
            by (nonlinear_arith)
            requires
                1 <= w,
                i == w * r + c,
                0 <= r < w,
                0 <= c < w,
                d0 == vstd::math::min(r, c),
                d1 == vstd::math::min(w - 1 - r, w - 1 - c),
                lo == i - (w + 1) * d0,
                hi == i + (w + 1) * d1,
                lo <= j <= hi,
                j - lo == (w + 1) * t,
                u == t - d0,
        ;
        vstd::arithmetic::div_mod::lemma_fundamental_div_mod_converse(j, w, r + u, c + u);
        assert(same_principal(i, j, w));
    }
}

proof fn lemma_line_antidiagonal(i: int, j: int, w: int)
    requires
        1 <= w,
        0 <= i < w * w,
        0 <= j < w * w,
    ensures
        in_segment(
            j,
            i - (w - 1) * antidiagonal_back(i, w),
            i + (w - 1) * antidiagonal_forth(i, w),
            w - 1,
        ) <==> same_antidiagonal(i, j, w),
        0 <= i - (w - 1) * antidiagonal_back(i, w) <= i,
        i <= i + (w - 1) * antidiagonal_forth(i, w) < w * w,
        w == 1 ==> antidiagonal_back(i, w) == 0 && antidiagonal_forth(i, w) == 0,
        w >= 2 ==> ((w - 1) * antidiagonal_back(i, w) + (w - 1) * antidiagonal_forth(i, w)) % (w
            - 1) == 0,
{
    let r = spec_row(i, w);
    let c = spec_col(i, w);
    let rj = spec_row(j, w);
    let cj = spec_col(j, w);
    lemma_decompose(i, w);
    lemma_decompose(j, w);
    if w == 1 {
        assert(i == 0 && j == 0);
    } else {
        let e0 = antidiagonal_back(i, w);
        let e1 = antidiagonal_forth(i, w);
        let lo = i - (w - 1) * e0;
        let hi = i + (w - 1) * e1;
        assert(0 <= (w - 1) * e0 <= i && 0 <= (w - 1) * e1 && hi < w * w && hi - lo == (e0 + e1) * (w
            - 1)) by (nonlinear_arith)
            requires
                2 <= w,
                i == w * r + c,
                0 <= r < w,
                0 <= c < w,
                e0 == vstd::math::min(r, w - 1 - c),
                e1 == vstd::math::min(w - 1 - r, c),
                lo == i - (w - 1) * e0,
                hi == i + (w - 1) * e1,
        ;
        vstd::arithmetic::div_mod::lemma_mod_multiples_basic(e0 + e1, w - 1);
        if same_antidiagonal(i, j, w) {
            let u = rj - r;
            assert(j == i + u * (w - 1) && lo <= j <= hi && j - lo == (u + e0) * (w - 1))
                by (nonlinear_arith)
                requires
                    2 <= w,
                    i == w * r + c,
                    j == w * rj + cj,
                    0 <= r < w,
                    0 <= c < w,
                    0 <= rj < w,
                    0 <= cj < w,
                    rj + cj == r + c,
                    u == rj - r,
                    e0 == vstd::math::min(r, w - 1 - c),
                    e1 == vstd::math::min(w - 1 - r, c),
                    lo == i - (w - 1) * e0,
                    hi == i + (w - 1) * e1,
            ;
            vstd::arithmetic::div_mod::lemma_mod_multiples_basic(u + e0, w - 1);
            assert(in_segment(j, lo, hi, w - 1));
        }
        if in_segment(j, lo, hi, w - 1) {
            let t = (j - lo) / (w - 1);
            vstd::arithmetic::div_mod::lemma_fundamental_div_mod(j - lo, w - 1);
            let u = t - e0;
            assert(j == (r + u) * w + (c - u) && 0 <= c - u < w && 0 <= r + u < w)
                by (nonlinear_arith)
                requires
                    2 <= w,
                    i == w * r + c,
                    0 <= r < w,
                    0 <= c < w,
                    e0 == vstd::math::min(r, w - 1 - c),
                    e1 == vstd::math::min(w - 1 - r, c),
                    lo == i - (w - 1) * e0,
                    hi == i + (w - 1) * e1,
                    lo <= j <= hi,
                    j - lo == (w - 1) * t,
                    u == t - e0,
            ;
            vstd::arithmetic::div_mod::lemma_fundamental_div_mod_converse(j, w, r + u, c - u);
            assert(same_antidiagonal(i, j, w));
        }
    }
}

impl Boundaries {
    /// Bounds of the four attack lines through `index`, each clipped to the
    /// board, following the row/column decomposition of the index.
    pub fn new(index: usize, width: usize) -> (r: Self)
        requires
            1 <= width,
            (index as int) < (width as int) * (width as int),
            (width as int) * (width as int) <= usize::MAX as int,
        ensures
            r.horizontal_min as int == spec_row(index as int, width as int) * (width as int),
            r.horizontal_max as int == r.horizontal_min as int + (width as int - 1),
            r.vertical_min as int == spec_col(index as int, width as int),
            r.vertical_max as int == r.vertical_min as int + (width as int) * (width as int - 1),
            r.principal_min as int == index as int - (width as int + 1) * principal_back(
                index as int,
                width as int,
            ),
            r.principal_max as int == index as int + (width as int + 1) * principal_forth(
                index as int,
                width as int,
            ),
            r.antidiagonal_min as int == index as int - (width as int - 1) * antidiagonal_back(
                index as int,
                width as int,
            ),
            r.antidiagonal_max as int == index as int + (width as int - 1) * antidiagonal_forth(
                index as int,
                width as int,
            ),
            forall|j: int|
                0 <= j < (width as int) * (width as int) ==> (in_segment(
                    j,
                    r.horizontal_min as int,
                    r.horizontal_max as int,
                    1,
                ) <==> same_horizontal(index as int, j, width as int)),
            forall|j: int|
                0 <= j < (width as int) * (width as int) ==> (in_segment(
                    j,
                    r.vertical_min as int,
                    r.vertical_max as int,
                    width as int,
                ) <==> same_vertical(index as int, j, width as int)),
            forall|j: int|
                0 <= j < (width as int) * (width as int) ==> (in_segment(
                    j,
                    r.principal_min as int,
                    r.principal_max as int,
                    width as int + 1,
                ) <==> same_principal(index as int, j, width as int)),
            forall|j: int|
                0 <= j < (width as int) * (width as int) ==> (in_segment(
                    j,
                    r.antidiagonal_min as int,
                    r.antidiagonal_max as int,
                    width as int - 1,
                ) <==> same_antidiagonal(index as int, j, width as int)),
            r.horizontal_min <= index && index as int <= r.horizontal_max as int,
            r.vertical_min <= index && index as int <= r.vertical_max as int,
            r.principal_min <= index && index as int <= r.principal_max as int,
            r.antidiagonal_min <= index && index as int <= r.antidiagonal_max as int,
            (r.horizontal_max as int) < (width as int) * (width as int),
            (r.vertical_max as int) < (width as int) * (width as int),
            (r.principal_max as int) < (width as int) * (width as int),
            (r.antidiagonal_max as int) < (width as int) * (width as int),
            (r.horizontal_max as int - r.horizontal_min as int) % 1 == 0,
            (r.vertical_max as int - r.vertical_min as int) % (width as int) == 0,
            (r.principal_max as int - r.principal_min as int) % (width as int + 1) == 0,
            width == 1 ==> r.antidiagonal_min == r.antidiagonal_max,
            width >= 2 ==> (r.antidiagonal_max as int - r.antidiagonal_min as int) % (width as int
                - 1) == 0,
    {
        proof {
            lemma_line_horizontal(index as int, 0, width as int);
            lemma_line_vertical(index as int, 0, width as int);
            lemma_line_principal(index as int, 0, width as int);
            lemma_line_antidiagonal(index as int, 0, width as int);
        }
        let row = index / width;
        proof {
            lemma_decompose(index as int, width as int);
            assert((row as int) * (width as int) == (width as int) * (row as int))
                by (nonlinear_arith);
        }
        let column = index - row * width;
        proof {
            assert(row as int == spec_row(index as int, width as int));
            assert(column as int == spec_col(index as int, width as int));
        }
        let min_distance_to_zero = if row < column {
            row
        } else {
            column
        };
        let min_column_distance_to_right = if row < width - column - 1 {
            row
        } else {
            width - column - 1
        };
        let min_row_distance_to_left = if column < width - row - 1 {
            column
        } else {
            width - row - 1
        };
        let min_distance_to_width = if width - row - 1 < width - column - 1 {
            width - row - 1
        } else {
            width - column - 1
        };
        proof {
            let i = index as int;
            let w = width as int;
            assert(w <= w * w && (w >= 2 ==> w + 1 <= w * w)) by (nonlinear_arith)
                requires
                    1 <= w,
            ;
            assert(min_distance_to_zero as int == principal_back(i, w));
            assert(min_distance_to_width as int == principal_forth(i, w));
            assert(min_column_distance_to_right as int == antidiagonal_back(i, w));
            assert(min_row_distance_to_left as int == antidiagonal_forth(i, w));
            assert((row as int) * w + w - 1 < w * w) by (nonlinear_arith)
                requires
                    1 <= w,
                    0 <= (row as int) && (row as int) < w,
            ;
            assert((column as int) + w * (w - 1) < w * w) by (nonlinear_arith)
                requires
                    1 <= w,
                    0 <= (column as int) && (column as int) < w,
            ;
        }
        let horizontal_min = row * width;
        let horizontal_max = horizontal_min + width - 1;
        let vertical_min = column;
        let vertical_max = vertical_min + width * (width - 1);
        let principal_min = index - (width + 1) * min_distance_to_zero;
        let principal_max = index + (width + 1) * min_distance_to_width;
        let antidiagonal_min = index - (width - 1) * min_column_distance_to_right;
        let antidiagonal_max = index + (width - 1) * min_row_distance_to_left;
        let r = Self {
            horizontal_min,
            horizontal_max,
            vertical_min,
            vertical_max,
            principal_min,
            principal_max,
            antidiagonal_min,
            antidiagonal_max,
        };
        proof {
            let i = index as int;
            let w = width as int;
            assert forall|j: int| 0 <= j < w * w implies (in_segment(
                j,
                r.horizontal_min as int,
                r.horizontal_max as int,
                1,
            ) <==> same_horizontal(i, j, w)) by {
                lemma_line_horizontal(i, j, w);
            }
            assert forall|j: int| 0 <= j < w * w implies (in_segment(
                j,
                r.vertical_min as int,
                r.vertical_max as int,
                w,
            ) <==> same_vertical(i, j, w)) by {
                lemma_line_vertical(i, j, w);
            }
            assert forall|j: int| 0 <= j < w * w implies (in_segment(
                j,
                r.principal_min as int,
                r.principal_max as int,
                w + 1,
            ) <==> same_principal(i, j, w)) by {
                lemma_line_principal(i, j, w);
            }
            assert forall|j: int| 0 <= j < w * w implies (in_segment(
                j,
                r.antidiagonal_min as int,
                r.antidiagonal_max as int,
                w - 1,
            ) <==> same_antidiagonal(i, j, w)) by {
                lemma_line_antidiagonal(i, j, w);
            }
        }
        r
    }
}

} // verus!
