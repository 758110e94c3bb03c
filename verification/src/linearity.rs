//! Scaling the heights after they were processed is scaling the raw samples:
//! flattening, smoothing and taking the background away are linear in them.
//!
//! Of rounded numbers that holds exactly for a factor that is a power of two,
//! while nothing is out of range, whether scaled or not.

use crate::appearance::{
    is_power_of_two, law_power_of_two_is_exact, lemma_equal_ratios, lemma_product_sign,
    scales_in_range,
};
use crate::binary::{Binary32, Binary64};
use crate::calibration::Calibration;
use crate::fields::Entries;
use crate::filter::epsilon;
use crate::float::{
    lemma_mag, lemma_units_ordered, mag_exp, mag_man, of_int, product, sum, units, Width,
};
use crate::grid::{lemma_place, lemma_row_and_column};
use crate::order::{
    law_difference_with_itself, law_one, law_representable_is_kept, law_rounding_keeps_order,
    lemma_one, lemma_unit_zero, lemma_zero, value,
};
use crate::poly::{
    eliminated, fitted, flat_line, flat_lines, height_sum, is_square, is_tiny,
    law_flattening_keeps_the_size, lemma_eliminated_square, lemma_pivot, normal_equations,
    pivot_row, polynomial, positions, power, residue, single_power, solution_from, swapped,
    triangular, System,
};
use crate::rolling::{
    background, brought_back, greatest, least, minus_infinity, plus_infinity, range_of, spread,
    subtracted, without_background,
};
use crate::rounding::lemma_pow2_mono;
use crate::samples::{joined, lemma_joined_len, scaled_rows};
use crate::scaling::{
    law_minus_scales, law_minus_scales64, law_narrow_scales, law_over_scales64, law_plus_scales,
    law_plus_scales64, law_times_scales, law_times_scales64, law_widen_scales, lemma_units_zero,
    narrow_in_range, over_in_range64, scaled32, scaled64, times_in_range32, times_in_range64,
};
use crate::smooth::{normalised, reach, smoothed, smoothed_columns, smoothed_rows, tap, weighted};
use crate::spm::{heights, image_of, scaled_heights, ImageModel, Layout, Processing};
use crate::viewer::{prepared, Settings};
use vstd::arithmetic::power2::{lemma2_to64, lemma_pow2_adds, lemma_pow2_pos, pow2};
use vstd::prelude::*;

verus! {

/// Whether some numbers are some others times `2^m`, one by one.
pub open spec fn all_scaled(a: Seq<Binary32>, b: Seq<Binary32>, m: nat) -> bool {
    a.len() == b.len() && forall|i: int| 0 <= i < a.len() ==> scaled32(#[trigger] a[i], b[i], m)
}

/// The same in double precision.
pub open spec fn all_scaled64(a: Seq<Binary64>, b: Seq<Binary64>, m: nat) -> bool {
    a.len() == b.len() && forall|i: int| 0 <= i < a.len() ==> scaled64(#[trigger] a[i], b[i], m)
}

/// The same of lines of numbers.
pub open spec fn rows_scaled(a: Seq<Seq<Binary32>>, b: Seq<Seq<Binary32>>, m: nat) -> bool {
    a.len() == b.len() && forall|r: int| 0 <= r < a.len() ==> all_scaled(#[trigger] a[r], b[r], m)
}

proof fn lemma_zero_scaled(m: nat)
    ensures
        scaled32(Binary32::of_integer(0), Binary32::of_integer(0), m),
        scaled64(Binary64::of_integer(0), Binary64::of_integer(0), m),
{
    reveal(of_int);
    lemma_units_zero(Width::Single, 0);
    lemma_units_zero(Width::Double, 0);
    assert(0 * pow2(m) == 0) by (nonlinear_arith);
}

// ---- fitting ----

/// Whether the sums of the heights times a power stay in range.
pub open spec fn sums_in_range(x: Seq<Binary32>, y: Seq<Binary32>, k: int) -> bool {
    forall|n: int|
        0 < n <= x.len() ==> times_in_range64(y[n - 1].widen(), power(x[n - 1].widen(), k))
            && (#[trigger] height_sum(x, y, k, n)).is_finite()
}

proof fn lemma_sums(x: Seq<Binary32>, y: Seq<Binary32>, y2: Seq<Binary32>, k: int, n: int, m: nat)
    requires
        0 <= n <= x.len(),
        x.len() == y.len(),
        all_scaled(y, y2, m),
        sums_in_range(x, y, k),
        sums_in_range(x, y2, k),
    ensures
        scaled64(height_sum(x, y, k, n), height_sum(x, y2, k, n), m),
    decreases n,
{
    lemma_zero_scaled(m);
    if n > 0 {
        lemma_sums(x, y, y2, k, n - 1, m);
        assert(scaled32(y[n - 1], y2[n - 1], m));
        assert(height_sum(x, y, k, n).is_finite());
        assert(height_sum(x, y2, k, n).is_finite());
        law_widen_scales(y[n - 1], y2[n - 1], m);
        let p = power(x[n - 1].widen(), k);
        law_times_scales64(y[n - 1].widen(), y2[n - 1].widen(), p, m);
        law_plus_scales64(
            height_sum(x, y, k, n - 1),
            height_sum(x, y2, k, n - 1),
            y[n - 1].widen().times(p),
            y2[n - 1].widen().times(p),
            m,
        );
    }
}

/// Whether the right-hand sides stay in range when column `k` is eliminated.
pub open spec fn step_in_range(s: System, k: int) -> bool {
    let n = s.b.len() as int;
    let p = pivot_row(s.a, k, n);
    let a = swapped(s.a, k, p);
    let b = swapped(s.b, k, p);
    let side = b[k].over(a[k][k]);
    over_in_range64(b[k], a[k][k]) && forall|i: int|
        k < i < n && !is_tiny(a[i][k]) ==> times_in_range64(side, a[i][k]) && (
        #[trigger] b[i]).minus(a[i][k].times(side)).is_finite()
}

/// Two systems with one matrix whose right-hand sides are scaled.
spec fn systems_scaled(s: System, t: System, m: nat) -> bool {
    s.a == t.a && all_scaled64(s.b, t.b, m)
}

proof fn lemma_step(s: System, s2: System, k: int, m: nat)
    requires
        is_square(s),
        is_square(s2),
        systems_scaled(s, s2, m),
        0 <= k < s.b.len(),
        eliminated(s, k) is Some ==> step_in_range(s, k) && step_in_range(s2, k),
    ensures
        eliminated(s, k) is Some <==> eliminated(s2, k) is Some,
        eliminated(s, k) matches Some(t) ==> systems_scaled(t, eliminated(s2, k)->0, m),
{
    let n = s.b.len() as int;
    let p = pivot_row(s.a, k, n);
    lemma_pivot(s.a, k, n);
    if eliminated(s, k) is Some {
        let a = swapped(s.a, k, p);
        let (b, b2) = (swapped(s.b, k, p), swapped(s2.b, k, p));
        assert(scaled64(s.b[k], s2.b[k], m));
        assert(scaled64(s.b[p], s2.b[p], m));
        assert forall|i: int| 0 <= i < n implies scaled64(#[trigger] b[i], b2[i], m) by {
            assert(scaled64(s.b[i], s2.b[i], m));
        }
        let piv = a[k][k];
        let (side, side2) = (b[k].over(piv), b2[k].over(piv));
        law_over_scales64(b[k], b2[k], piv, m);
        let (t, t2) = (eliminated(s, k)->0, eliminated(s2, k)->0);
        assert forall|i: int| 0 <= i < n implies scaled64(#[trigger] t.b[i], t2.b[i], m) by {
            assert(scaled64(b[i], b2[i], m));
            if k < i && !is_tiny(a[i][k]) {
                let c = a[i][k];
                assert(b2[i].minus(c.times(side2)).is_finite());
                law_times_scales64(side, side2, c, m);
                law_minus_scales64(b[i], b2[i], c.times(side), c.times(side2), m);
            }
        }
        assert(t.a =~= t2.a);
    }
}

/// Whether the right-hand sides stay in range through the elimination.
pub open spec fn elimination_in_range(s: System) -> bool {
    forall|k: int|
        0 <= k < s.b.len() && (#[trigger] triangular(s, k + 1)) is Some ==> step_in_range(
            triangular(s, k)->0,
            k,
        )
}

proof fn lemma_elimination(s: System, s2: System, k: int, m: nat)
    requires
        is_square(s),
        is_square(s2),
        systems_scaled(s, s2, m),
        0 <= k <= s.b.len(),
        elimination_in_range(s),
        elimination_in_range(s2),
    ensures
        triangular(s, k) is Some <==> triangular(s2, k) is Some,
        triangular(s, k) matches Some(t) ==> {
            let t2 = triangular(s2, k)->0;
            &&& systems_scaled(t, t2, m)
            &&& is_square(t)
            &&& is_square(t2)
            &&& t.b.len() == s.b.len()
        },
    decreases k,
{
    if k > 0 {
        lemma_elimination(s, s2, k - 1, m);
        if triangular(s, k - 1) is Some {
            let (t, t2) = (triangular(s, k - 1)->0, triangular(s2, k - 1)->0);
            lemma_eliminated_square(t, k - 1);
            lemma_eliminated_square(t2, k - 1);
            assert(triangular(s, (k - 1) + 1) == eliminated(t, k - 1));
            assert(triangular(s2, (k - 1) + 1) == eliminated(t2, k - 1));
            // the choice of the pivot rests on the matrix alone
            assert(eliminated(t, k - 1) is Some == eliminated(t2, k - 1) is Some);
            lemma_step(t, t2, k - 1, m);
        }
    }
}

/// Whether the unknowns stay in range when they are found one after the other.
pub open spec fn unknowns_in_range(t: System) -> bool {
    forall|i: int, q: int|
        0 <= i < t.b.len() && 0 < q <= solution_from(t, i + 1).len() ==> times_in_range64(
            solution_from(t, i + 1)[q - 1],
            t.a[i][i + q],
        ) && (#[trigger] residue(t.a[i], t.b[i], solution_from(t, i + 1), i, q)).is_finite()
}

proof fn lemma_residue(t: System, t2: System, i: int, q: int, m: nat)
    requires
        systems_scaled(t, t2, m),
        0 <= i < t.b.len(),
        0 <= q <= solution_from(t, i + 1).len(),
        all_scaled64(solution_from(t, i + 1), solution_from(t2, i + 1), m),
        unknowns_in_range(t),
        unknowns_in_range(t2),
    ensures
        scaled64(
            residue(t.a[i], t.b[i], solution_from(t, i + 1), i, q),
            residue(t2.a[i], t2.b[i], solution_from(t2, i + 1), i, q),
            m,
        ),
    decreases q,
{
    let (u, u2) = (solution_from(t, i + 1), solution_from(t2, i + 1));
    assert(scaled64(t.b[i], t2.b[i], m));
    if q > 0 {
        lemma_residue(t, t2, i, q - 1, m);
        let c = t.a[i][i + q];
        assert(scaled64(u[q - 1], u2[q - 1], m));
        assert(residue(t.a[i], t.b[i], u, i, q).is_finite());
        assert(residue(t2.a[i], t2.b[i], u2, i, q).is_finite());
        law_times_scales64(u[q - 1], u2[q - 1], c, m);
        law_minus_scales64(
            residue(t.a[i], t.b[i], u, i, q - 1),
            residue(t2.a[i], t2.b[i], u2, i, q - 1),
            c.times(u[q - 1]),
            c.times(u2[q - 1]),
            m,
        );
    }
}

proof fn lemma_unknowns(t: System, t2: System, i: int, m: nat)
    requires
        systems_scaled(t, t2, m),
        0 <= i <= t.b.len(),
        unknowns_in_range(t),
        unknowns_in_range(t2),
    ensures
        all_scaled64(solution_from(t, i), solution_from(t2, i), m),
        solution_from(t, i).len() == t.b.len() - i,
    decreases t.b.len() - i,
{
    if i < t.b.len() {
        lemma_unknowns(t, t2, i + 1, m);
        let (u, u2) = (solution_from(t, i + 1), solution_from(t2, i + 1));
        lemma_residue(t, t2, i, u.len() as int, m);
        let (v, v2) = (solution_from(t, i), solution_from(t2, i));
        assert forall|j: int| 0 <= j < v.len() implies scaled64(#[trigger] v[j], v2[j], m) by {
            if j > 0 {
                assert(v[j] == u[j - 1] && v2[j] == u2[j - 1]);
                assert(scaled64(u[j - 1], u2[j - 1], m));
            }
        }
    }
}

/// Whether the fit of a polynomial with `c` coefficients stays in range.
pub open spec fn fit_in_range(x: Seq<Binary32>, y: Seq<Binary32>, c: int) -> bool {
    let s = normal_equations(x, y, c);
    &&& forall|k: int| 0 <= k < c ==> #[trigger] sums_in_range(x, y, k)
    &&& elimination_in_range(s)
    &&& triangular(s, c) matches Some(t) ==> unknowns_in_range(t) && forall|i: int|
        0 <= i < c ==> narrow_in_range((#[trigger] solution_from(t, 0)[i]).parts())
}

/// The coefficients of scaled heights are scaled.
proof fn lemma_fit(x: Seq<Binary32>, y: Seq<Binary32>, y2: Seq<Binary32>, order: nat, m: nat)
    requires
        x.len() == y.len(),
        all_scaled(y, y2, m),
        fit_in_range(x, y, order as int + 1),
        fit_in_range(x, y2, order as int + 1),
    ensures
        match fitted(x, y, order) {
            Ok(c) => fitted(x, y2, order) matches Ok(c2) && all_scaled(c, c2, m),
            Err(e) => fitted(x, y2, order) == Err::<Seq<Binary32>, Seq<char>>(e),
        },
{
    if x.len() > 0 && order <= 3 {
        let c = order as int + 1;
        let (s, s2) = (normal_equations(x, y, c), normal_equations(x, y2, c));
        assert(s.a =~= s2.a);
        assert forall|i: int| 0 <= i < s.b.len() implies scaled64(
            #[trigger] s.b[i],
            s2.b[i],
            m,
        ) by {
            assert(sums_in_range(x, y, i) && sums_in_range(x, y2, i));
            lemma_sums(x, y, y2, i, x.len() as int, m);
        }
        assert(is_square(s) && is_square(s2));
        lemma_elimination(s, s2, c, m);
        if triangular(s, c) is Some {
            let (t, t2) = (triangular(s, c)->0, triangular(s2, c)->0);
            lemma_unknowns(t, t2, 0, m);
            let (u, u2) = (solution_from(t, 0), solution_from(t2, 0));
            let (a, b) = (fitted(x, y, order)->Ok_0, fitted(x, y2, order)->Ok_0);
            assert forall|i: int| 0 <= i < a.len() implies scaled32(#[trigger] a[i], b[i], m) by {
                assert(scaled64(u[i], u2[i], m));
                assert(narrow_in_range(u[i].parts()) && narrow_in_range(u2[i].parts()));
                law_narrow_scales(u[i], u2[i], m);
            }
        }
    }
}

// ---- flattening ----

/// Whether taking a polynomial off a line stays in range.
pub open spec fn line_in_range(row: Seq<Binary32>, coeffs: Seq<Binary32>) -> bool {
    forall|i: int, n: int|
        0 <= i < row.len() && 0 < n <= coeffs.len() ==> times_in_range32(
            coeffs[n - 1],
            single_power(positions(row.len())[i], n - 1),
        ) && (#[trigger] polynomial(coeffs, positions(row.len())[i], n)).is_finite()
}

/// Whether what is left of a line is finite.
pub open spec fn rest_in_range(row: Seq<Binary32>, coeffs: Seq<Binary32>) -> bool {
    forall|i: int| 0 <= i < row.len() ==> (#[trigger] flat_line(row, coeffs)[i]).is_finite()
}

proof fn lemma_polynomial(
    row: Seq<Binary32>,
    row2: Seq<Binary32>,
    c: Seq<Binary32>,
    c2: Seq<Binary32>,
    i: int,
    n: int,
    m: nat,
)
    requires
        row.len() == row2.len(),
        all_scaled(c, c2, m),
        line_in_range(row, c),
        line_in_range(row2, c2),
        0 <= i < row.len(),
        0 <= n <= c.len(),
    ensures
        ({
            let x = positions(row.len())[i];
            scaled32(polynomial(c, x, n), polynomial(c2, x, n), m)
        }),
    decreases n,
{
    let x = positions(row.len())[i];
    lemma_zero_scaled(m);
    if n > 0 {
        lemma_polynomial(row, row2, c, c2, i, n - 1, m);
        let p = single_power(x, n - 1);
        assert(polynomial(c, positions(row.len())[i], n).is_finite());
        assert(polynomial(c2, positions(row2.len())[i], n).is_finite());
        assert(scaled32(c[n - 1], c2[n - 1], m));
        law_times_scales(c[n - 1], c2[n - 1], p, m);
        law_plus_scales(
            polynomial(c, x, n - 1),
            polynomial(c2, x, n - 1),
            c[n - 1].times(p),
            c2[n - 1].times(p),
            m,
        );
    }
}

proof fn lemma_flat_line(
    row: Seq<Binary32>,
    row2: Seq<Binary32>,
    c: Seq<Binary32>,
    c2: Seq<Binary32>,
    m: nat,
)
    requires
        all_scaled(row, row2, m),
        all_scaled(c, c2, m),
        line_in_range(row, c),
        line_in_range(row2, c2),
        rest_in_range(row2, c2),
    ensures
        all_scaled(flat_line(row, c), flat_line(row2, c2), m),
{
    let (f, f2) = (flat_line(row, c), flat_line(row2, c2));
    assert forall|i: int| 0 <= i < f.len() implies scaled32(#[trigger] f[i], f2[i], m) by {
        let x = positions(row.len())[i];
        lemma_polynomial(row, row2, c, c2, i, c.len() as int, m);
        assert(scaled32(row[i], row2[i], m));
        assert(f2[i].is_finite());
        law_minus_scales(
            row[i],
            row2[i],
            polynomial(c, x, c.len() as int),
            polynomial(c2, x, c2.len() as int),
            m,
        );
    }
}

/// Whether flattening a line stays in range.
pub open spec fn row_in_range(row: Seq<Binary32>, order: nat, cols: nat) -> bool {
    row.len() == cols ==> fit_in_range(positions(cols), row, order as int + 1) && (fitted(
        positions(cols),
        row,
        order,
    ) matches Ok(c) ==> line_in_range(row, c) && rest_in_range(row, c))
}

/// Whether flattening some lines stays in range.
pub open spec fn flattening_in_range(rows: Seq<Seq<Binary32>>, order: nat) -> bool {
    forall|r: int| 0 <= r < rows.len() ==> row_in_range(#[trigger] rows[r], order, rows[0].len())
}

proof fn lemma_flat_lines(
    rows: Seq<Seq<Binary32>>,
    rows2: Seq<Seq<Binary32>>,
    order: nat,
    cols: nat,
    m: nat,
)
    requires
        rows_scaled(rows, rows2, m),
        forall|r: int| 0 <= r < rows.len() ==> row_in_range(#[trigger] rows[r], order, cols),
        forall|r: int| 0 <= r < rows2.len() ==> row_in_range(#[trigger] rows2[r], order, cols),
    ensures
        match flat_lines(rows, order, cols) {
            Ok(d) => flat_lines(rows2, order, cols) matches Ok(d2) && all_scaled(d, d2, m),
            Err(e) => flat_lines(rows2, order, cols) == Err::<Seq<Binary32>, Seq<char>>(e),
        },
    decreases rows.len(),
{
    if rows.len() > 0 {
        let (front, front2) = (rows.drop_last(), rows2.drop_last());
        assert forall|r: int| 0 <= r < front.len() implies all_scaled(
            #[trigger] front[r],
            front2[r],
            m,
        ) by {
            assert(all_scaled(rows[r], rows2[r], m));
        }
        assert forall|r: int| 0 <= r < front.len() implies row_in_range(
            #[trigger] front[r],
            order,
            cols,
        ) by {
            assert(row_in_range(rows[r], order, cols));
        }
        assert forall|r: int| 0 <= r < front2.len() implies row_in_range(
            #[trigger] front2[r],
            order,
            cols,
        ) by {
            assert(row_in_range(rows2[r], order, cols));
        }
        lemma_flat_lines(front, front2, order, cols, m);
        let n = rows.len() - 1;
        let (row, row2) = (rows[n], rows2[n]);
        assert(rows.last() == row && rows2.last() == row2);
        assert(all_scaled(row, row2, m));
        assert(row_in_range(row, order, cols) && row_in_range(row2, order, cols));
        if row.len() == cols {
            assert(positions(cols).len() == cols);
            lemma_fit(positions(cols), row, row2, order, m);
            if let Ok(c) = fitted(positions(cols), row, order) {
                let c2 = fitted(positions(cols), row2, order)->Ok_0;
                lemma_flat_line(row, row2, c, c2, m);
                if let Ok(d) = flat_lines(front, order, cols) {
                    lemma_append(
                        d,
                        flat_lines(front2, order, cols)->Ok_0,
                        flat_line(row, c),
                        flat_line(row2, c2),
                        m,
                    );
                }
            }
        }
    }
}

proof fn lemma_append(
    a: Seq<Binary32>,
    a2: Seq<Binary32>,
    b: Seq<Binary32>,
    b2: Seq<Binary32>,
    m: nat,
)
    requires
        all_scaled(a, a2, m),
        all_scaled(b, b2, m),
    ensures
        all_scaled(a + b, a2 + b2, m),
{
    assert forall|i: int| 0 <= i < (a + b).len() implies scaled32(
        #[trigger] (a + b)[i],
        (a2 + b2)[i],
        m,
    ) by {
        if i < a.len() {
            assert(scaled32(a[i], a2[i], m));
        } else {
            assert(scaled32(b[i - a.len()], b2[i - a.len()], m));
        }
    }
}

proof fn lemma_joined(rows: Seq<Seq<Binary32>>, rows2: Seq<Seq<Binary32>>, m: nat)
    requires
        rows_scaled(rows, rows2, m),
    ensures
        all_scaled(joined(rows), joined(rows2), m),
    decreases rows.len(),
{
    if rows.len() > 0 {
        let (front, front2) = (rows.drop_last(), rows2.drop_last());
        assert forall|r: int| 0 <= r < front.len() implies all_scaled(
            #[trigger] front[r],
            front2[r],
            m,
        ) by {
            assert(all_scaled(rows[r], rows2[r], m));
        }
        lemma_joined(front, front2, m);
        let n = rows.len() - 1;
        assert(all_scaled(rows[n], rows2[n], m));
        lemma_append(joined(front), joined(front2), rows.last(), rows2.last(), m);
    }
}

/// Whether turning raw samples into heights stays in range.
pub open spec fn heights_in_range(
    rows: Seq<Seq<Binary32>>,
    step: Binary32,
    flatten: Option<u32>,
) -> bool {
    &&& forall|r: int, c: int|
        0 <= r < rows.len() && 0 <= c < rows[r].len() ==> times_in_range32(
            #[trigger] rows[r][c],
            step,
        )
    &&& flatten matches Some(order) ==> flattening_in_range(
        scaled_rows(rows, step),
        order as nat,
    )
}

proof fn lemma_heights(
    rows: Seq<Seq<Binary32>>,
    rows2: Seq<Seq<Binary32>>,
    step: Binary32,
    flatten: Option<u32>,
    m: nat,
)
    requires
        rows_scaled(rows, rows2, m),
        heights_in_range(rows, step, flatten),
        heights_in_range(rows2, step, flatten),
    ensures
        match heights(rows, step, flatten) {
            Ok(d) => heights(rows2, step, flatten) matches Ok(d2) && all_scaled(d, d2, m),
            Err(e) => heights(rows2, step, flatten) == Err::<Seq<Binary32>, Seq<char>>(e),
        },
{
    let (nm, nm2) = (scaled_rows(rows, step), scaled_rows(rows2, step));
    assert forall|r: int| 0 <= r < nm.len() implies all_scaled(#[trigger] nm[r], nm2[r], m) by {
        assert(all_scaled(rows[r], rows2[r], m));
        assert forall|c: int| 0 <= c < nm[r].len() implies scaled32(
            #[trigger] nm[r][c],
            nm2[r][c],
            m,
        ) by {
            assert(scaled32(rows[r][c], rows2[r][c], m));
            assert(times_in_range32(rows[r][c], step) && times_in_range32(rows2[r][c], step));
            law_times_scales(rows[r][c], rows2[r][c], step, m);
        }
    }
    match flatten {
        None => {
            lemma_joined(nm, nm2, m);
        },
        Some(order) => {
            if order <= 3 && nm.len() > 0 {
                assert(all_scaled(nm[0], nm2[0], m));
                lemma_flat_lines(nm, nm2, order as nat, nm[0].len(), m);
            }
        },
    }
}

// ---- smoothing ----

/// Whether applying a kernel to samples that lie `stride` apart stays in range.
pub open spec fn taps_in_range(
    data: Seq<Binary32>,
    base: int,
    stride: int,
    len: int,
    kernel: Seq<Binary32>,
    radius: int,
    pos: int,
) -> bool {
    forall|n: int|
        0 < n <= kernel.len() ==> times_in_range32(
            data[base + tap(pos, n - 1, radius, len) * stride],
            kernel[n - 1],
        ) && (#[trigger] weighted(data, base, stride, len, kernel, radius, pos, n)).is_finite()
}

proof fn lemma_weighted(
    data: Seq<Binary32>,
    data2: Seq<Binary32>,
    base: int,
    stride: int,
    len: int,
    kernel: Seq<Binary32>,
    radius: int,
    pos: int,
    n: int,
    m: nat,
)
    requires
        all_scaled(data, data2, m),
        0 <= n <= kernel.len(),
        forall|k: int|
            0 <= k < kernel.len() ==> 0 <= base + (#[trigger] tap(pos, k, radius, len)) * stride
                < data.len(),
        taps_in_range(data, base, stride, len, kernel, radius, pos),
        taps_in_range(data2, base, stride, len, kernel, radius, pos),
    ensures
        scaled32(
            weighted(data, base, stride, len, kernel, radius, pos, n),
            weighted(data2, base, stride, len, kernel, radius, pos, n),
            m,
        ),
    decreases n,
{
    lemma_zero_scaled(m);
    if n > 0 {
        lemma_weighted(data, data2, base, stride, len, kernel, radius, pos, n - 1, m);
        let i = base + tap(pos, n - 1, radius, len) * stride;
        let c = kernel[n - 1];
        assert(scaled32(data[i], data2[i], m));
        assert(weighted(data, base, stride, len, kernel, radius, pos, n).is_finite());
        assert(weighted(data2, base, stride, len, kernel, radius, pos, n).is_finite());
        law_times_scales(data[i], data2[i], c, m);
        law_plus_scales(
            weighted(data, base, stride, len, kernel, radius, pos, n - 1),
            weighted(data2, base, stride, len, kernel, radius, pos, n - 1),
            data[i].times(c),
            data2[i].times(c),
            m,
        );
    }
}

pub open spec fn row_taps_in_range(
    data: Seq<Binary32>,
    w: int,
    h: int,
    kernel: Seq<Binary32>,
    radius: int,
) -> bool {
    forall|r: int, c: int|
        0 <= r < h && 0 <= c < w ==> #[trigger] taps_in_range(
            data,
            r * w,
            1,
            w,
            kernel,
            radius,
            c,
        )
}

pub open spec fn column_taps_in_range(
    data: Seq<Binary32>,
    w: int,
    h: int,
    kernel: Seq<Binary32>,
    radius: int,
) -> bool {
    forall|r: int, c: int|
        0 <= r < h && 0 <= c < w ==> #[trigger] taps_in_range(data, c, w, h, kernel, radius, r)
}

/// Whether smoothing stays in range.
pub open spec fn smoothing_in_range(
    data: Seq<Binary32>,
    w: int,
    h: int,
    sigma: Binary32,
    exps: Seq<Binary32>,
) -> bool {
    sigma.at_most(Binary32::of_integer(0)) || {
        let kernel = normalised(exps);
        &&& row_taps_in_range(data, w, h, kernel, reach(sigma))
        &&& column_taps_in_range(
            smoothed_rows(data, w, h, kernel, reach(sigma)),
            w,
            h,
            kernel,
            reach(sigma),
        )
    }
}

proof fn lemma_smoothed_rows(
    data: Seq<Binary32>,
    data2: Seq<Binary32>,
    w: int,
    h: int,
    kernel: Seq<Binary32>,
    radius: int,
    m: nat,
)
    requires
        w >= 0,
        h >= 0,
        data.len() == w * h,
        all_scaled(data, data2, m),
        row_taps_in_range(data, w, h, kernel, radius),
        row_taps_in_range(data2, w, h, kernel, radius),
    ensures
        all_scaled(
            smoothed_rows(data, w, h, kernel, radius),
            smoothed_rows(data2, w, h, kernel, radius),
            m,
        ),
        smoothed_rows(data, w, h, kernel, radius).len() == w * h,
{
    let (s, s2) = (
        smoothed_rows(data, w, h, kernel, radius),
        smoothed_rows(data2, w, h, kernel, radius),
    );
    assert forall|k: int| 0 <= k < s.len() implies scaled32(#[trigger] s[k], s2[k], m) by {
        lemma_row_and_column(w, h, k);
        let (r, c) = (k / w, k % w);
        assert forall|i: int| 0 <= i < kernel.len() implies 0 <= r * w + (#[trigger] tap(
            c,
            i,
            radius,
            w,
        )) * 1 < data.len() by {
            lemma_place(w, h, r, tap(c, i, radius, w));
        }
        assert(taps_in_range(data, r * w, 1, w, kernel, radius, c));
        assert(taps_in_range(data2, r * w, 1, w, kernel, radius, c));
        lemma_weighted(data, data2, r * w, 1, w, kernel, radius, c, kernel.len() as int, m);
    }
}

proof fn lemma_smoothed_columns(
    data: Seq<Binary32>,
    data2: Seq<Binary32>,
    w: int,
    h: int,
    kernel: Seq<Binary32>,
    radius: int,
    m: nat,
)
    requires
        w >= 0,
        h >= 0,
        data.len() == w * h,
        all_scaled(data, data2, m),
        column_taps_in_range(data, w, h, kernel, radius),
        column_taps_in_range(data2, w, h, kernel, radius),
    ensures
        all_scaled(
            smoothed_columns(data, w, h, kernel, radius),
            smoothed_columns(data2, w, h, kernel, radius),
            m,
        ),
        smoothed_columns(data, w, h, kernel, radius).len() == w * h,
{
    let (s, s2) = (
        smoothed_columns(data, w, h, kernel, radius),
        smoothed_columns(data2, w, h, kernel, radius),
    );
    assert forall|k: int| 0 <= k < s.len() implies scaled32(#[trigger] s[k], s2[k], m) by {
        lemma_row_and_column(w, h, k);
        let (r, c) = (k / w, k % w);
        assert forall|i: int| 0 <= i < kernel.len() implies 0 <= c + (#[trigger] tap(
            r,
            i,
            radius,
            h,
        )) * w < data.len() by {
            lemma_place(w, h, tap(r, i, radius, h), c);
        }
        assert(taps_in_range(data, c, w, h, kernel, radius, r));
        assert(taps_in_range(data2, c, w, h, kernel, radius, r));
        lemma_weighted(data, data2, c, w, h, kernel, radius, r, kernel.len() as int, m);
    }
}

proof fn lemma_smoothed(
    data: Seq<Binary32>,
    data2: Seq<Binary32>,
    w: int,
    h: int,
    sigma: Binary32,
    exps: Seq<Binary32>,
    m: nat,
)
    requires
        w >= 0,
        h >= 0,
        data.len() == w * h,
        all_scaled(data, data2, m),
        smoothing_in_range(data, w, h, sigma, exps),
        smoothing_in_range(data2, w, h, sigma, exps),
    ensures
        all_scaled(smoothed(data, w, h, sigma, exps), smoothed(data2, w, h, sigma, exps), m),
        smoothed(data, w, h, sigma, exps).len() == w * h,
{
    if !sigma.at_most(Binary32::of_integer(0)) {
        let kernel = normalised(exps);
        let r = reach(sigma);
        lemma_smoothed_rows(data, data2, w, h, kernel, r, m);
        lemma_smoothed_columns(
            smoothed_rows(data, w, h, kernel, r),
            smoothed_rows(data2, w, h, kernel, r),
            w,
            h,
            kernel,
            r,
            m,
        );
    }
}

// ---- the rolling ball ----

/// Numbers are in order as their values are.
proof fn lemma_below_is_less(a: Binary32, b: Binary32)
    requires
        a.is_finite(),
        b.is_finite(),
    ensures
        a.below(b) <==> value(a) < value(b),
{
    let w = Width::Single;
    let (p, q) = (a.parts(), b.parts());
    lemma_unit_zero(p.mag as nat);
    lemma_unit_zero(q.mag as nat);
    if p.mag < q.mag {
        lemma_units_ordered(w, p.mag as nat, q.mag as nat);
    } else if q.mag < p.mag {
        lemma_units_ordered(w, q.mag as nat, p.mag as nat);
    }
}

/// Scaling keeps the order.
proof fn lemma_order_kept(a: Binary32, a2: Binary32, b: Binary32, b2: Binary32, m: nat)
    requires
        scaled32(a, a2, m),
        scaled32(b, b2, m),
    ensures
        a.below(b) <==> a2.below(b2),
{
    lemma_below_is_less(a, b);
    lemma_below_is_less(a2, b2);
    lemma_pow2_pos(m);
    let (x, y, k) = (value(a), value(b), pow2(m) as int);
    let (ux, uy) = (
        units(Width::Single, a.parts().mag as nat) as int,
        units(Width::Single, b.parts().mag as nat) as int,
    );
    assert((-ux) * k == -(ux * k) && (-uy) * k == -(uy * k)) by (nonlinear_arith);
    assert(value(a2) == x * k && value(b2) == y * k);
    assert((x < y) == (x * k < y * k)) by (nonlinear_arith)
        requires
            k > 0,
    ;
}

/// The extremes of scaled numbers are scaled.
proof fn lemma_extremes(d: Seq<Binary32>, d2: Seq<Binary32>, n: int, m: nat)
    requires
        all_scaled(d, d2, m),
        0 < n <= d.len(),
    ensures
        scaled32(least(d, n), least(d2, n), m),
        scaled32(greatest(d, n), greatest(d2, n), m),
    decreases n,
{
    assert(scaled32(d[n - 1], d2[n - 1], m));
    if n == 1 {
        assert(least(d, 0) == plus_infinity() && least(d2, 0) == plus_infinity());
        assert(greatest(d, 0) == minus_infinity() && greatest(d2, 0) == minus_infinity());
    } else {
        lemma_extremes(d, d2, n - 1, m);
        let (a, a2) = (least(d, n - 1), least(d2, n - 1));
        let (b, b2) = (greatest(d, n - 1), greatest(d2, n - 1));
        lemma_order_kept(d[n - 1], d2[n - 1], a, a2, m);
        lemma_order_kept(b, b2, d[n - 1], d2[n - 1], m);
    }
}

/// Whether taking the background away stays in range, and the heights take up a
/// range that is not a degenerate one.
pub open spec fn ball_in_range(data: Seq<Binary32>, w: int, h: int, radius: int) -> bool {
    radius == 0 || w == 0 || h == 0 || data.len() < w * h || {
        let n = data.len() as int;
        let (lo, hi) = (least(data, n), greatest(data, n));
        let range = range_of(lo, hi);
        let bg = background(spread(data, lo, range), w, h, radius);
        &&& hi.minus(lo).is_finite()
        &&& epsilon().at_most(hi.minus(lo))
        &&& forall|i: int| 0 <= i < n ==> (#[trigger] data[i]).minus(lo).is_finite()
        &&& forall|i: int|
            0 <= i < w * h ==> times_in_range32(
                range,
                (#[trigger] bg[i]).over(Binary32::of_integer(100)),
            ) && brought_back(bg[i], lo, range).is_finite() && without_background(
                data[i],
                bg[i],
                lo,
                range,
            ).is_finite()
    }
}

/// Scaled heights take up the same share of the scaled range.
proof fn lemma_spread(
    d: Seq<Binary32>,
    d2: Seq<Binary32>,
    lo: Binary32,
    lo2: Binary32,
    range: Binary32,
    range2: Binary32,
    m: nat,
)
    requires
        all_scaled(d, d2, m),
        scaled32(lo, lo2, m),
        scaled32(range, range2, m),
        Binary32::of_integer(0).below(range),
        Binary32::of_integer(0).below(range2),
        forall|i: int| 0 <= i < d2.len() ==> (#[trigger] d2[i]).minus(lo2).is_finite(),
    ensures
        spread(d, lo, range) == spread(d2, lo2, range2),
{
    let w = Width::Single;
    let (s, s2) = (spread(d, lo, range), spread(d2, lo2, range2));
    lemma_zero();
    lemma_pow2_pos(m);
    assert forall|i: int| 0 <= i < s.len() implies #[trigger] s[i] == s2[i] by {
        assert(scaled32(d[i], d2[i], m));
        assert(d2[i].minus(lo2).is_finite());
        law_minus_scales(d[i], d2[i], lo, lo2, m);
        let (a, a2) = (d[i].minus(lo).parts(), d2[i].minus(lo2).parts());
        let (b, b2) = (range.parts(), range2.parts());
        let (ua, ub) = (units(w, a.mag as nat), units(w, b.mag as nat));
        let k = pow2(m);
        lemma_unit_zero(a.mag as nat);
        lemma_unit_zero(a2.mag as nat);
        assert((ua * k == 0) == (ua == 0)) by (nonlinear_arith)
            requires
                k > 0,
        ;
        assert((ua * k) * ub == ua * (ub * k)) by (nonlinear_arith);
        lemma_equal_ratios(a2, b2, a, b);
    }
    assert(s =~= s2);
}

/// Where the range is not a degenerate one, it is the distance of the extremes,
/// and positive.
proof fn lemma_range(lo: Binary32, hi: Binary32)
    requires
        hi.minus(lo).is_finite(),
        epsilon().at_most(hi.minus(lo)),
    ensures
        range_of(lo, hi) == hi.minus(lo),
        Binary32::of_integer(0).below(range_of(lo, hi)),
{
    lemma_zero();
}

/// A scaled height less its scaled background is scaled.
proof fn lemma_without_background(
    v: Binary32,
    v2: Binary32,
    bg: Binary32,
    lo: Binary32,
    lo2: Binary32,
    range: Binary32,
    range2: Binary32,
    m: nat,
)
    requires
        scaled32(v, v2, m),
        scaled32(lo, lo2, m),
        scaled32(range, range2, m),
        times_in_range32(range, bg.over(Binary32::of_integer(100))),
        times_in_range32(range2, bg.over(Binary32::of_integer(100))),
        brought_back(bg, lo2, range2).is_finite(),
        without_background(v2, bg, lo2, range2).is_finite(),
    ensures
        scaled32(
            without_background(v, bg, lo, range),
            without_background(v2, bg, lo2, range2),
            m,
        ),
{
    let c = bg.over(Binary32::of_integer(100));
    law_times_scales(range, range2, c, m);
    law_plus_scales(c.times(range), c.times(range2), lo, lo2, m);
    let (b, b2) = (brought_back(bg, lo, range), brought_back(bg, lo2, range2));
    lemma_order_kept(v, v2, b, b2, m);
    law_minus_scales(v, v2, b.min(v), b2.min(v2), m);
}

proof fn lemma_subtracted(
    d: Seq<Binary32>,
    d2: Seq<Binary32>,
    w: int,
    h: int,
    radius: int,
    m: nat,
)
    requires
        w >= 0,
        h >= 0,
        all_scaled(d, d2, m),
        ball_in_range(d, w, h, radius),
        ball_in_range(d2, w, h, radius),
    ensures
        all_scaled(subtracted(d, w, h, radius), subtracted(d2, w, h, radius), m),
{
    if radius != 0 && w != 0 && h != 0 && d.len() >= w * h {
        let n = d.len() as int;
        assert(w * h > 0) by (nonlinear_arith)
            requires
                w > 0,
                h > 0,
        ;
        lemma_extremes(d, d2, n, m);
        let (lo, hi) = (least(d, n), greatest(d, n));
        let (lo2, hi2) = (least(d2, n), greatest(d2, n));
        law_minus_scales(hi, hi2, lo, lo2, m);
        lemma_range(lo, hi);
        lemma_range(lo2, hi2);
        let (range, range2) = (range_of(lo, hi), range_of(lo2, hi2));
        lemma_spread(d, d2, lo, lo2, range, range2, m);
        let bg = background(spread(d, lo, range), w, h, radius);
        let (s, s2) = (subtracted(d, w, h, radius), subtracted(d2, w, h, radius));
        assert forall|i: int| 0 <= i < s.len() implies scaled32(#[trigger] s[i], s2[i], m) by {
            assert(scaled32(d[i], d2[i], m));
            let b = bg[i];
            lemma_without_background(d[i], d2[i], b, lo, lo2, range, range2, m);
        }
    }
}

// ---- all of it ----

/// The heights of an image before they are calibrated: the raw samples times the
/// step, flattened, smoothed, and without their background if that is asked for.
pub open spec fn processed(
    rows: Seq<Seq<Binary32>>,
    step: Binary32,
    l: Layout,
    p: Processing,
    set: Settings,
) -> Result<Seq<Binary32>, Seq<char>> {
    match heights(rows, step, p.flatten) {
        Err(e) => Err(e),
        Ok(data) => {
            let s = smoothed(data, l.cols as int, l.rows as int, p.sigma, p.exps);
            if set.rolling_ball {
                Ok(subtracted(s, l.cols as int, l.rows as int, set.rolling_ball_radius as int))
            } else {
                Ok(s)
            }
        },
    }
}

/// Whether nothing gets out of range while raw samples are processed.
pub open spec fn processing_in_range(
    rows: Seq<Seq<Binary32>>,
    step: Binary32,
    l: Layout,
    p: Processing,
    set: Settings,
) -> bool {
    &&& heights_in_range(rows, step, p.flatten)
    &&& heights(rows, step, p.flatten) matches Ok(data) ==> {
        &&& smoothing_in_range(data, l.cols as int, l.rows as int, p.sigma, p.exps)
        &&& set.rolling_ball ==> ball_in_range(
            smoothed(data, l.cols as int, l.rows as int, p.sigma, p.exps),
            l.cols as int,
            l.rows as int,
            set.rolling_ball_radius as int,
        )
    }
}

/// Whether raw samples are the lines that a layout states.
pub open spec fn fills(rows: Seq<Seq<Binary32>>, l: Layout) -> bool {
    rows.len() == l.rows && forall|r: int|
        0 <= r < rows.len() ==> (#[trigger] rows[r]).len() == l.cols
}

/// Heights are as many as a layout states.
proof fn lemma_heights_len(
    rows: Seq<Seq<Binary32>>,
    step: Binary32,
    flatten: Option<u32>,
    l: Layout,
)
    requires
        fills(rows, l),
    ensures
        heights(rows, step, flatten) matches Ok(data) ==> data.len() == l.cols * l.rows,
{
    let nm = scaled_rows(rows, step);
    assert forall|r: int| 0 <= r < nm.len() implies (#[trigger] nm[r]).len() == l.cols by {
        assert(rows[r].len() == l.cols);
    }
    assert(l.rows * l.cols == l.cols * l.rows) by (nonlinear_arith);
    match flatten {
        None => {
            lemma_joined_len(nm, l.cols);
        },
        Some(order) => {
            law_flattening_keeps_the_size(nm, order as nat);
            if nm.len() > 0 {
                assert(nm[0].len() == l.cols);
            }
        },
    }
}

/// Processing scaled samples gives scaled heights.
proof fn lemma_processed(
    rows: Seq<Seq<Binary32>>,
    rows2: Seq<Seq<Binary32>>,
    step: Binary32,
    l: Layout,
    p: Processing,
    set: Settings,
    m: nat,
)
    requires
        rows_scaled(rows, rows2, m),
        fills(rows, l),
        processing_in_range(rows, step, l, p, set),
        processing_in_range(rows2, step, l, p, set),
    ensures
        match processed(rows, step, l, p, set) {
            Ok(d) => processed(rows2, step, l, p, set) matches Ok(d2) && all_scaled(d, d2, m),
            Err(e) => processed(rows2, step, l, p, set) == Err::<Seq<Binary32>, Seq<char>>(e),
        },
{
    let (w, h) = (l.cols as int, l.rows as int);
    lemma_heights(rows, rows2, step, p.flatten, m);
    lemma_heights_len(rows, step, p.flatten, l);
    if let Ok(data) = heights(rows, step, p.flatten) {
        let data2 = heights(rows2, step, p.flatten)->Ok_0;
        lemma_smoothed(data, data2, w, h, p.sigma, p.exps, m);
        if set.rolling_ball {
            lemma_subtracted(
                smoothed(data, w, h, p.sigma, p.exps),
                smoothed(data2, w, h, p.sigma, p.exps),
                w,
                h,
                set.rolling_ball_radius as int,
                m,
            );
        }
    }
}

/// The number that stands in the right proportion is the product.
proof fn lemma_product_is(a: Binary32, b: Binary32, z: Binary32, e: nat)
    requires
        a.is_finite(),
        b.is_finite(),
        z.is_finite(),
        a.parts().neg == b.parts().neg,
        value(z) == pow2(e),
        units(Width::Single, b.parts().mag as nat) * pow2(149) == units(
            Width::Single,
            a.parts().mag as nat,
        ) * pow2(e),
    ensures
        a.times(z) == b,
{
    let w = Width::Single;
    let (ua, ub) = (units(w, a.parts().mag as nat), units(w, b.parts().mag as nat));
    reveal(product);
    lemma_pow2_pos(e);
    lemma_pow2_pos(149);
    lemma_unit_zero(a.parts().mag as nat);
    lemma_unit_zero(b.parts().mag as nat);
    lemma_unit_zero(z.parts().mag as nat);
    assert((ub * pow2(149) == 0) == (ub == 0)) by (nonlinear_arith)
        requires
            pow2(149) > 0,
    ;
    assert((ua * pow2(e) == 0) == (ua == 0)) by (nonlinear_arith)
        requires
            pow2(e) > 0,
    ;
    law_representable_is_kept(w, b.parts().mag as nat, pow2(149));
    assert(product(w, a.parts(), z.parts()) == b.parts());
}

/// A power of two that is not one is farther from one than a step, and one is one.
proof fn lemma_power_apart(z: Binary32, e: nat)
    requires
        z.is_finite(),
        value(z) == pow2(e),
    ensures
        e == 149 ==> z == Binary32::of_integer(1),
        e != 149 ==> epsilon().below(z.minus(Binary32::of_integer(1)).abs()),
{
    let w = Width::Single;
    let one = Binary32::of_integer(1);
    let half: nat = 0x3f00_0000;
    lemma_one();
    lemma_pow2_pos(e);
    lemma_unit_zero(z.parts().mag as nat);
    let (p, q) = (z.parts().mag as nat, one.parts().mag as nat);
    if e == 149 {
        if p < q {
            lemma_units_ordered(w, p, q);
        } else if q < p {
            lemma_units_ordered(w, q, p);
        }
    } else {
        reveal(sum);
        lemma_pow2_adds(1, 148);
        lemma2_to64();
        let n = if e < 149 {
            lemma_pow2_mono(e, 148);
            (pow2(149) - pow2(e)) as nat
        } else {
            lemma_pow2_mono(150, e);
            lemma_pow2_adds(1, 149);
            (pow2(e) - pow2(149)) as nat
        };
        assert(units(w, half) == pow2(148)) by {
            lemma_mag(w, half);
            assert(mag_exp(w, half) == 125 && mag_man(w, half) == 0x80_0000);
            lemma_pow2_adds(23, 125);
        }
        law_representable_is_kept(w, half, 1);
        law_rounding_keeps_order(w, pow2(148), 1, n, 1);
    }
}

/// One is not apart from one.
proof fn lemma_one_is_near()
    ensures
        !epsilon().below(Binary32::of_integer(1).minus(Binary32::of_integer(1)).abs()),
{
    lemma_zero();
    lemma_one();
    law_difference_with_itself(Binary32::of_integer(1));
}

/// What a raw sample becomes when it is scaled by a power of two in range.
proof fn lemma_raw(a: Binary32, z: Binary32, e: nat)
    requires
        z.is_finite(),
        value(z) == pow2(e),
        scales_in_range(a, z),
    ensures
        e >= 149 ==> scaled32(a, a.times(z), (e - 149) as nat),
        e < 149 ==> scaled32(a.times(z), a, (149 - e) as nat),
{
    law_power_of_two_is_exact(a, z);
    lemma_zero();
    lemma_product_sign(a, z);
    let t = pow2(149);
    lemma_pow2_pos(149);
    lemma_pow2_pos(e);
    let w = Width::Single;
    let (u, v) = (
        units(w, a.parts().mag as nat),
        units(w, a.times(z).parts().mag as nat),
    );
    assert(v * t == u * pow2(e)) by (nonlinear_arith)
        requires
            (v as int) * t == (u as int) * pow2(e) || (-(v as int)) * t == (-(u as int)) * pow2(e),
    ;
    if e >= 149 {
        let k = pow2((e - 149) as nat);
        lemma_pow2_adds((e - 149) as nat, 149);
        assert(v == u * k) by (nonlinear_arith)
            requires
                v * t == u * (k * t),
                t > 0,
        ;
    } else {
        let k = pow2((149 - e) as nat);
        lemma_pow2_adds((149 - e) as nat, e);
        assert(u == v * k) by (nonlinear_arith)
            requires
                v * (k * pow2(e)) == u * pow2(e),
                pow2(e) > 0,
        ;
    }
}

/// Scaled up or down, the values stand in the proportion of the power of two.
proof fn lemma_proportion(a: Binary32, b: Binary32, e: nat, m: nat)
    requires
        e >= 149 ==> m == e - 149 && scaled32(a, b, m),
        e < 149 ==> m == 149 - e && scaled32(b, a, m),
    ensures
        a.is_finite(),
        b.is_finite(),
        a.parts().neg == b.parts().neg,
        units(Width::Single, b.parts().mag as nat) * pow2(149) == units(
            Width::Single,
            a.parts().mag as nat,
        ) * pow2(e),
{
    let w = Width::Single;
    let (u, v) = (units(w, a.parts().mag as nat), units(w, b.parts().mag as nat));
    if e >= 149 {
        lemma_pow2_adds(m, 149);
        assert((u * pow2(m)) * pow2(149) == u * (pow2(m) * pow2(149))) by (nonlinear_arith);
    } else {
        lemma_pow2_adds(m, e);
        assert(v * (pow2(m) * pow2(e)) == (v * pow2(m)) * pow2(e)) by (nonlinear_arith);
    }
}

/// Raw samples are scaled, up or down, by a power of two.
proof fn lemma_rows_scaled(rows: Seq<Seq<Binary32>>, z: Binary32, e: nat)
    requires
        z.is_finite(),
        value(z) == pow2(e),
        forall|r: int, c: int|
            0 <= r < rows.len() && 0 <= c < rows[r].len() ==> scales_in_range(
                #[trigger] rows[r][c],
                z,
            ),
    ensures
        e >= 149 ==> rows_scaled(rows, scaled_rows(rows, z), (e - 149) as nat),
        e < 149 ==> rows_scaled(scaled_rows(rows, z), rows, (149 - e) as nat),
{
    let rows2 = scaled_rows(rows, z);
    assert forall|r: int| 0 <= r < rows.len() implies {
        &&& e >= 149 ==> all_scaled(#[trigger] rows[r], rows2[r], (e - 149) as nat)
        &&& e < 149 ==> all_scaled(rows2[r], rows[r], (149 - e) as nat)
    } by {
        assert forall|c: int| 0 <= c < rows[r].len() implies {
            &&& e >= 149 ==> scaled32(#[trigger] rows[r][c], rows2[r][c], (e - 149) as nat)
            &&& e < 149 ==> scaled32(rows2[r][c], rows[r][c], (149 - e) as nat)
        } by {
            lemma_raw(rows[r][c], z, e);
        }
    }
}

/// Heights that are scaled, up or down, by a power of two are the products.
proof fn lemma_products(d: Seq<Binary32>, d2: Seq<Binary32>, z: Binary32, e: nat)
    requires
        z.is_finite(),
        value(z) == pow2(e),
        e >= 149 ==> all_scaled(d, d2, (e - 149) as nat),
        e < 149 ==> all_scaled(d2, d, (149 - e) as nat),
    ensures
        scaled_heights(d, z) == scaled_heights(d2, Binary32::of_integer(1)),
{
    let one = Binary32::of_integer(1);
    let m = (if e >= 149 { e - 149 } else { 149 - e }) as nat;
    lemma_zero();
    lemma_one();
    lemma_power_apart(z, e);
    lemma_one_is_near();
    assert forall|k: int| 0 <= k < d.len() implies #[trigger] d[k].times(z) == d2[k] && (e == 149
        ==> d[k] == d2[k]) by {
        if e >= 149 {
            assert(scaled32(d[k], d2[k], m));
        } else {
            assert(scaled32(d2[k], d[k], m));
        }
        lemma_proportion(d[k], d2[k], e, m);
        lemma_product_is(d[k], d2[k], z, e);
        law_one(one, d[k]);
    }
    if e == 149 {
        assert(d =~= d2) by {
            assert forall|k: int| 0 <= k < d.len() implies d[k] == d2[k] by {
                assert(d[k].times(z) == d2[k]);
            }
        }
    }
    assert(scaled_heights(d, z) =~= scaled_heights(d2, one));
}

/// Calibrating Z after an image was processed gives what scaling its raw samples
/// would have given: flattening, smoothing and taking the background away are
/// linear in the heights. That holds bit for bit for a factor that is a power of
/// two, while nothing gets out of range.
pub proof fn law_z_scales_the_samples(
    conditions: Entries,
    blocks: Seq<Entries>,
    i: int,
    l: Layout,
    rows: Seq<Seq<Binary32>>,
    step: Binary32,
    p: Processing,
    set: Settings,
    cal: Calibration,
)
    requires
        fills(rows, l),
        is_power_of_two(cal.z),
        forall|r: int, c: int|
            0 <= r < rows.len() && 0 <= c < rows[r].len() ==> scales_in_range(
                #[trigger] rows[r][c],
                cal.z,
            ),
        processing_in_range(rows, step, l, p, set),
        processing_in_range(scaled_rows(rows, cal.z), step, l, p, set),
    ensures
        ({
            let lateral = Calibration { z: Binary32::of_integer(1), ..cal };
            match heights(rows, step, p.flatten) {
                Ok(data) => heights(scaled_rows(rows, cal.z), step, p.flatten) matches Ok(data2)
                    && prepared(image_of(conditions, blocks, i, l, data, p), set, cal) == (
                ImageModel {
                    calibration: cal,
                    ..prepared(image_of(conditions, blocks, i, l, data2, p), set, lateral)
                }),
                Err(e) => heights(scaled_rows(rows, cal.z), step, p.flatten) == Err::<
                    Seq<Binary32>,
                    Seq<char>,
                >(e),
            }
        }),
{
    let z = cal.z;
    let e = choose|e: nat| value(z) == #[trigger] pow2(e);
    let rows2 = scaled_rows(rows, z);
    lemma_rows_scaled(rows, z, e);
    assert(fills(rows2, l)) by {
        assert forall|r: int| 0 <= r < rows2.len() implies (
        #[trigger] rows2[r]).len() == l.cols by {
            assert(rows[r].len() == l.cols);
        }
    }
    if e >= 149 {
        lemma_processed(rows, rows2, step, l, p, set, (e - 149) as nat);
    } else {
        lemma_processed(rows2, rows, step, l, p, set, (149 - e) as nat);
    }
    if heights(rows, step, p.flatten) is Ok {
        lemma_products(
            processed(rows, step, l, p, set)->Ok_0,
            processed(rows2, step, l, p, set)->Ok_0,
            z,
            e,
        );
    }
}

} // verus!
