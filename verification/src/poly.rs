//! Line-by-line polynomial flattening.

use crate::binary::{Binary32, Binary64};
use crate::samples::rows_of;
use vstd::prelude::*;

verus! {

/// `1e-12`: below it a pivot counts as zero.
pub const TINY: u64 = 0x3d71_9799_812d_ea11;

pub open spec fn is_tiny(v: Binary64) -> bool {
    v.abs().below(Binary64 { bits: TINY })
}

fn tiny(v: Binary64) -> (r: bool)
    ensures
        r == is_tiny(v),
{
    v.abs().below(Binary64 { bits: TINY })
}

// ---- linear systems ----

/// A system of linear equations `a x = b`.
pub struct System {
    pub a: Seq<Seq<Binary64>>,
    pub b: Seq<Binary64>,
}

pub open spec fn matrix(v: Seq<Vec<Binary64>>) -> Seq<Seq<Binary64>> {
    Seq::new(v.len(), |i: int| v[i]@)
}

pub open spec fn is_square(s: System) -> bool {
    s.a.len() == s.b.len() && forall|i: int|
        0 <= i < s.a.len() ==> (#[trigger] s.a[i]).len() == s.b.len()
}

/// Of rows `k` to `n - 1` the first whose number in column `k` is largest.
pub open spec fn pivot_row(a: Seq<Seq<Binary64>>, k: int, n: int) -> int
    decreases n - k,
{
    if n <= k + 1 {
        k
    } else {
        let p = pivot_row(a, k, n - 1);
        if a[p][k].abs().below(a[n - 1][k].abs()) {
            n - 1
        } else {
            p
        }
    }
}

pub open spec fn swapped<T>(s: Seq<T>, i: int, j: int) -> Seq<T> {
    s.update(i, s[j]).update(j, s[i])
}

/// A row divided by `pivot` from column `k` on.
pub open spec fn divided(row: Seq<Binary64>, k: int, pivot: Binary64) -> Seq<Binary64> {
    Seq::new(
        row.len(),
        |j: int|
            if j >= k {
                row[j].over(pivot)
            } else {
                row[j]
            },
    )
}

/// A row less `factor` times another from column `k` on.
pub open spec fn reduced(
    row: Seq<Binary64>,
    by: Seq<Binary64>,
    k: int,
    factor: Binary64,
) -> Seq<Binary64> {
    Seq::new(
        row.len(),
        |j: int|
            if j >= k {
                row[j].minus(factor.times(by[j]))
            } else {
                row[j]
            },
    )
}

/// Row `i` once column `k` has been eliminated below row `k`, which is `by`.
pub open spec fn row_after(
    row: Seq<Binary64>,
    by: Seq<Binary64>,
    k: int,
    i: int,
) -> Seq<Binary64> {
    if i == k {
        by
    } else if i > k && !is_tiny(row[k]) {
        reduced(row, by, k, row[k])
    } else {
        row
    }
}

/// The right-hand side that goes with it.
pub open spec fn side_after(
    row: Seq<Binary64>,
    side: Binary64,
    by: Binary64,
    k: int,
    i: int,
) -> Binary64 {
    if i == k {
        by
    } else if i > k && !is_tiny(row[k]) {
        side.minus(row[k].times(by))
    } else {
        side
    }
}

/// The system with column `k` eliminated below row `k`, with partial pivoting;
/// none when every candidate for the pivot is tiny.
pub open spec fn eliminated(s: System, k: int) -> Option<System> {
    let n = s.b.len() as int;
    let p = pivot_row(s.a, k, n);
    if is_tiny(s.a[p][k]) {
        None
    } else {
        let a = swapped(s.a, k, p);
        let b = swapped(s.b, k, p);
        let by = divided(a[k], k, a[k][k]);
        let side = b[k].over(a[k][k]);
        Some(
            System {
                a: Seq::new(n as nat, |i: int| row_after(a[i], by, k, i)),
                b: Seq::new(n as nat, |i: int| side_after(a[i], b[i], side, k, i)),
            },
        )
    }
}

/// The system after `k` columns have been eliminated.
pub open spec fn triangular(s: System, k: int) -> Option<System>
    decreases k,
{
    if k <= 0 {
        Some(s)
    } else {
        match triangular(s, k - 1) {
            Some(t) => eliminated(t, k - 1),
            None => None,
        }
    }
}

/// `side` less the first `m` products of a row, from column `i + 1` on, with
/// the unknowns there.
pub open spec fn residue(
    row: Seq<Binary64>,
    side: Binary64,
    rest: Seq<Binary64>,
    i: int,
    m: int,
) -> Binary64
    decreases m,
{
    if m <= 0 {
        side
    } else {
        residue(row, side, rest, i, m - 1).minus(row[i + m].times(rest[m - 1]))
    }
}

/// The unknowns from number `i` on, of a triangular system.
pub open spec fn solution_from(s: System, i: int) -> Seq<Binary64>
    decreases s.b.len() - i,
{
    if i >= s.b.len() {
        Seq::empty()
    } else {
        let rest = solution_from(s, i + 1);
        seq![residue(s.a[i], s.b[i], rest, i, rest.len() as int)] + rest
    }
}

/// The solution of a system by Gaussian elimination, or why there is none.
pub open spec fn solved(s: System) -> Result<Seq<Binary64>, Seq<char>> {
    if !is_square(s) {
        Err("Linear solver received invalid matrix dimensions"@)
    } else {
        match triangular(s, s.b.len() as int) {
            Some(t) => Ok(solution_from(t, 0)),
            None => Err("Singular matrix while fitting polynomial"@),
        }
    }
}

pub(crate) proof fn lemma_pivot(a: Seq<Seq<Binary64>>, k: int, n: int)
    requires
        0 <= k < n,
    ensures
        k <= pivot_row(a, k, n) < n,
    decreases n,
{
    if n > k + 1 {
        lemma_pivot(a, k, n - 1);
    }
}

pub(crate) proof fn lemma_eliminated_square(s: System, k: int)
    requires
        is_square(s),
        0 <= k < s.b.len(),
    ensures
        eliminated(s, k) matches Some(t) ==> is_square(t) && t.b.len() == s.b.len(),
{
    lemma_pivot(s.a, k, s.b.len() as int);
}

/// An elimination that fails stays failed.
pub(crate) proof fn lemma_triangular_none(s: System, k: int, n: int)
    requires
        0 <= k <= n,
        triangular(s, k) is None,
    ensures
        triangular(s, n) is None,
    decreases n,
{
    if k < n {
        lemma_triangular_none(s, k, n - 1);
    }
}

/// Eliminates one column.
fn eliminate(a: &Vec<Vec<Binary64>>, b: &Vec<Binary64>, k: usize) -> (r: Option<
    (Vec<Vec<Binary64>>, Vec<Binary64>),
>)
    requires
        k < b@.len(),
        is_square(System { a: matrix(a@), b: b@ }),
    ensures
        match r {
            Some(p) => eliminated(System { a: matrix(a@), b: b@ }, k as int) == Some(
                System { a: matrix(p.0@), b: p.1@ },
            ),
            None => eliminated(System { a: matrix(a@), b: b@ }, k as int) is None,
        },
{
    let n: usize = b.len();
    let ghost s = System { a: matrix(a@), b: b@ };
    assert(forall|i: int| 0 <= i < n ==> (#[trigger] a@[i])@ == s.a[i]);
    let mut p: usize = k;
    let mut r: usize = k + 1;
    while r < n
        invariant
            k < r <= n,
            n == b@.len(),
            s == (System { a: matrix(a@), b: b@ }),
            is_square(s),
            forall|i: int| 0 <= i < n ==> (#[trigger] a@[i])@ == s.a[i],
            k <= p < r,
            p == pivot_row(s.a, k as int, r as int),
        decreases n - r,
    {
        assert(a@[r as int]@.len() == n);
        assert(a@[p as int]@.len() == n);
        if a[p][k].abs().below(a[r][k].abs()) {
            p = r;
        }
        r += 1;
    }
    assert(a@[p as int]@.len() == n);
    assert(a@[k as int]@.len() == n);
    if tiny(a[p][k]) {
        return None;
    }
    let ghost sa = swapped(s.a, k as int, p as int);
    let ghost sb = swapped(s.b, k as int, p as int);
    let pivot: Binary64 = a[p][k];
    let mut by: Vec<Binary64> = Vec::new();
    let mut j: usize = 0;
    while j < n
        invariant
            j <= n,
            k < n,
            p < n,
            n == b@.len(),
            a@.len() == n,
            a@[p as int]@.len() == n,
            by@.len() == j,
            forall|x: int|
                0 <= x < j ==> #[trigger] by@[x] == (if x >= k {
                    a@[p as int]@[x].over(pivot)
                } else {
                    a@[p as int]@[x]
                }),
        decreases n - j,
    {
        if j >= k {
            by.push(a[p][j].over(pivot));
        } else {
            by.push(a[p][j]);
        }
        j += 1;
    }
    assert(by@ =~= divided(sa[k as int], k as int, pivot));
    let side: Binary64 = b[p].over(pivot);
    let mut out_a: Vec<Vec<Binary64>> = Vec::new();
    let mut out_b: Vec<Binary64> = Vec::new();
    let mut i: usize = 0;
    while i < n
        invariant
            i <= n,
            k < n,
            p < n,
            n == b@.len(),
            s == (System { a: matrix(a@), b: b@ }),
            is_square(s),
            forall|x: int| 0 <= x < n ==> (#[trigger] a@[x])@ == s.a[x],
            sa == swapped(s.a, k as int, p as int),
            sb == swapped(s.b, k as int, p as int),
            by@.len() == n,
            out_a@.len() == i,
            out_b@.len() == i,
            forall|x: int|
                0 <= x < i ==> (#[trigger] out_a@[x])@ == row_after(sa[x], by@, k as int, x),
            forall|x: int|
                0 <= x < i ==> #[trigger] out_b@[x] == side_after(sa[x], sb[x], side, k as int, x),
        decreases n - i,
    {
        let from: usize = if i == k {
            p
        } else if i == p {
            k
        } else {
            i
        };
        assert(sa[i as int] == s.a[from as int]);
        assert(sb[i as int] == s.b[from as int]);
        assert(a@[from as int]@.len() == n);
        let factor: Binary64 = a[from][k];
        let reduce: bool = i > k && !tiny(factor);
        let mut row: Vec<Binary64> = Vec::new();
        let mut j: usize = 0;
        while j < n
            invariant
                j <= n,
                i < n,
                from < n,
                a@.len() == n,
                a@[from as int]@.len() == n,
                a@[from as int]@ == sa[i as int],
                by@.len() == n,
                factor == sa[i as int][k as int],
                reduce == (i > k && !is_tiny(factor)),
                row@.len() == j,
                forall|x: int|
                    0 <= x < j ==> #[trigger] row@[x] == row_after(
                        sa[i as int],
                        by@,
                        k as int,
                        i as int,
                    )[x],
            decreases n - j,
        {
            if i == k {
                row.push(by[j]);
            } else if reduce && j >= k {
                row.push(a[from][j].minus(factor.times(by[j])));
            } else {
                row.push(a[from][j]);
            }
            j += 1;
        }
        assert(row@ =~= row_after(sa[i as int], by@, k as int, i as int));
        out_a.push(row);
        if i == k {
            out_b.push(side);
        } else if reduce {
            out_b.push(b[from].minus(factor.times(side)));
        } else {
            out_b.push(b[from]);
        }
        i += 1;
    }
    proof {
        let t = eliminated(s, k as int)->0;
        assert(matrix(out_a@) =~= t.a);
        assert(out_b@ =~= t.b);
    }
    Some((out_a, out_b))
}

/// Solves a system by Gaussian elimination with partial pivoting.
pub fn solve_linear_system(a: Vec<Vec<Binary64>>, b: Vec<Binary64>) -> (r: Result<
    Vec<Binary64>,
    String,
>)
    ensures
        match r {
            Ok(x) => solved(System { a: matrix(a@), b: b@ }) == Ok::<Seq<Binary64>, Seq<char>>(x@),
            Err(e) => solved(System { a: matrix(a@), b: b@ }) == Err::<Seq<Binary64>, Seq<char>>(
                e@,
            ),
        },
{
    let n: usize = b.len();
    let ghost s = System { a: matrix(a@), b: b@ };
    let mut square: bool = a.len() == n;
    let mut i: usize = 0;
    while square && i < n
        invariant
            n == b@.len(),
            s == (System { a: matrix(a@), b: b@ }),
            square ==> a@.len() == n && i <= n && forall|x: int|
                0 <= x < i ==> (#[trigger] s.a[x]).len() == n,
            !square ==> !is_square(s),
        decreases n - i,
    {
        assert(s.a[i as int] == a@[i as int]@);
        if a[i].len() != n {
            square = false;
        }
        i += 1;
    }
    if !square {
        return Err("Linear solver received invalid matrix dimensions".to_owned());
    }
    let mut ta: Vec<Vec<Binary64>> = a;
    let mut tb: Vec<Binary64> = b;
    let mut k: usize = 0;
    while k < n
        invariant
            k <= n,
            n == s.b.len(),
            s == (System { a: matrix(a@), b: b@ }),
            is_square(s),
            tb@.len() == n,
            is_square(System { a: matrix(ta@), b: tb@ }),
            triangular(s, k as int) == Some(System { a: matrix(ta@), b: tb@ }),
        decreases n - k,
    {
        proof {
            lemma_eliminated_square(System { a: matrix(ta@), b: tb@ }, k as int);
        }
        match eliminate(&ta, &tb, k) {
            Some(p) => {
                ta = p.0;
                tb = p.1;
            },
            None => {
                proof {
                    lemma_triangular_none(s, k as int + 1, n as int);
                }
                return Err("Singular matrix while fitting polynomial".to_owned());
            },
        }
        k += 1;
    }
    let ghost t = System { a: matrix(ta@), b: tb@ };
    // the unknowns, last first
    let mut back: Vec<Binary64> = Vec::new();
    let mut i: usize = n;
    while i > 0
        invariant
            i <= n,
            n == tb@.len(),
            t == (System { a: matrix(ta@), b: tb@ }),
            is_square(t),
            back@.len() == n - i,
            solution_from(t, i as int).len() == n - i,
            forall|x: int|
                0 <= x < n - i ==> #[trigger] back@[x] == solution_from(t, i as int)[n - i - 1 - x],
        decreases i,
    {
        i -= 1;
        let ghost rest = solution_from(t, i + 1);
        assert(t.a[i as int] == ta@[i as int]@);
        let mut sum: Binary64 = tb[i];
        let mut m: usize = 0;
        while m < n - i - 1
            invariant
                i < n,
                n == tb@.len(),
                ta@.len() == n,
                ta@[i as int]@.len() == n,
                rest.len() == n - i - 1,
                back@.len() == n - i - 1,
                m <= n - i - 1,
                forall|x: int|
                    0 <= x < n - i - 1 ==> #[trigger] back@[x] == rest[n - i - 2 - x],
                sum == residue(ta@[i as int]@, tb@[i as int], rest, i as int, m as int),
            decreases n - i - 1 - m,
        {
            assert(back@[n - i - 2 - m] == rest[m as int]);
            sum = sum.minus(ta[i][i + 1 + m].times(back[n - i - 2 - m]));
            m += 1;
        }
        let ghost before = back@;
        back.push(sum);
        proof {
            let now = solution_from(t, i as int);
            assert(now =~= seq![sum] + rest);
            assert forall|x: int| 0 <= x < n - i implies #[trigger] back@[x] == now[n - i - 1
                - x] by {
                if x < n - i - 1 {
                    assert(back@[x] == before[x]);
                    assert(now[n - i - 1 - x] == rest[n - i - 2 - x]);
                }
            }
        }
    }
    let mut x: Vec<Binary64> = Vec::new();
    let mut i: usize = 0;
    while i < n
        invariant
            i <= n,
            back@.len() == n,
            solution_from(t, 0).len() == n,
            forall|x: int|
                0 <= x < n ==> #[trigger] back@[x] == solution_from(t, 0)[n - 1 - x],
            x@ == solution_from(t, 0).take(i as int),
        decreases n - i,
    {
        x.push(back[n - 1 - i]);
        i += 1;
        assert(x@ =~= solution_from(t, 0).take(i as int));
    }
    assert(x@ =~= solution_from(t, 0));
    Ok(x)
}

// ---- fitting ----

/// `x` to the power `k`.
pub open spec fn power(x: Binary64, k: int) -> Binary64
    decreases k,
{
    if k <= 0 {
        Binary64::of_integer(1)
    } else {
        power(x, k - 1).times(x)
    }
}

/// The sum of the first `n` powers of order `k`.
pub open spec fn power_sum(x: Seq<Binary32>, k: int, n: int) -> Binary64
    decreases n,
{
    if n <= 0 {
        Binary64::of_integer(0)
    } else {
        power_sum(x, k, n - 1).plus(power(x[n - 1].widen(), k))
    }
}

/// The sum of the first `n` heights times their power of order `k`.
pub open spec fn height_sum(x: Seq<Binary32>, y: Seq<Binary32>, k: int, n: int) -> Binary64
    decreases n,
{
    if n <= 0 {
        Binary64::of_integer(0)
    } else {
        height_sum(x, y, k, n - 1).plus(y[n - 1].widen().times(power(x[n - 1].widen(), k)))
    }
}

/// The normal equations of the least-squares fit with `m` coefficients.
pub open spec fn normal_equations(x: Seq<Binary32>, y: Seq<Binary32>, m: int) -> System {
    System {
        a: Seq::new(
            m as nat,
            |i: int| Seq::new(m as nat, |j: int| power_sum(x, i + j, x.len() as int)),
        ),
        b: Seq::new(m as nat, |i: int| height_sum(x, y, i, x.len() as int)),
    }
}

/// The coefficients of the least-squares fit, or why there is none.
pub open spec fn fitted(x: Seq<Binary32>, y: Seq<Binary32>, order: nat) -> Result<
    Seq<Binary32>,
    Seq<char>,
> {
    if x.len() != y.len() || x.len() == 0 {
        Err("Mismatched or empty x/y arrays"@)
    } else if order > 3 {
        Err("Order must be 0-3"@)
    } else {
        match solved(normal_equations(x, y, order as int + 1)) {
            Ok(c) => Ok(Seq::new(c.len(), |i: int| c[i].narrow())),
            Err(e) => Err(e),
        }
    }
}

fn sum_powers(x: &[Binary32], k: usize) -> (r: Binary64)
    requires
        k <= 6,
    ensures
        r == power_sum(x@, k as int, x@.len() as int),
{
    let mut sum: Binary64 = Binary64::from_usize(0);
    let mut i: usize = 0;
    while i < x.len()
        invariant
            i <= x@.len(),
            sum == power_sum(x@, k as int, i as int),
        decreases x@.len() - i,
    {
        sum = sum.plus(raise(x[i].widen(), k));
        i += 1;
    }
    sum
}

fn raise(x: Binary64, k: usize) -> (r: Binary64)
    ensures
        r == power(x, k as int),
{
    let mut p: Binary64 = Binary64::from_usize(1);
    let mut i: usize = 0;
    while i < k
        invariant
            i <= k,
            p == power(x, i as int),
        decreases k - i,
    {
        p = p.times(x);
        i += 1;
    }
    p
}

fn sum_heights(x: &[Binary32], y: &[Binary32], k: usize) -> (r: Binary64)
    requires
        x@.len() == y@.len(),
    ensures
        r == height_sum(x@, y@, k as int, x@.len() as int),
{
    let mut sum: Binary64 = Binary64::from_usize(0);
    let mut i: usize = 0;
    while i < x.len()
        invariant
            x@.len() == y@.len(),
            i <= x@.len(),
            sum == height_sum(x@, y@, k as int, i as int),
        decreases x@.len() - i,
    {
        sum = sum.plus(y[i].widen().times(raise(x[i].widen(), k)));
        i += 1;
    }
    sum
}

/// Fits a polynomial by least squares.
pub fn fit_polynomial(x: &[Binary32], y: &[Binary32], order: usize) -> (r: Result<
    Vec<Binary32>,
    String,
>)
    ensures
        match r {
            Ok(c) => fitted(x@, y@, order as nat) == Ok::<Seq<Binary32>, Seq<char>>(c@),
            Err(e) => fitted(x@, y@, order as nat) == Err::<Seq<Binary32>, Seq<char>>(e@),
        },
{
    if x.len() != y.len() || x.len() == 0 {
        return Err("Mismatched or empty x/y arrays".to_owned());
    }
    if order > 3 {
        return Err("Order must be 0-3".to_owned());
    }
    let m: usize = order + 1;
    let ghost s = normal_equations(x@, y@, m as int);
    let mut sums: Vec<Binary64> = Vec::new();
    let mut k: usize = 0;
    while k < 2 * m - 1
        invariant
            1 <= m <= 4,
            k <= 2 * m - 1,
            sums@.len() == k,
            forall|i: int|
                0 <= i < k ==> #[trigger] sums@[i] == power_sum(x@, i, x@.len() as int),
        decreases 2 * m - 1 - k,
    {
        sums.push(sum_powers(x, k));
        k += 1;
    }
    let mut a: Vec<Vec<Binary64>> = Vec::new();
    let mut b: Vec<Binary64> = Vec::new();
    let mut i: usize = 0;
    while i < m
        invariant
            1 <= m <= 4,
            i <= m,
            x@.len() == y@.len(),
            s == normal_equations(x@, y@, m as int),
            sums@.len() == 2 * m - 1,
            forall|i: int|
                0 <= i < 2 * m - 1 ==> #[trigger] sums@[i] == power_sum(x@, i, x@.len() as int),
            a@.len() == i,
            b@.len() == i,
            forall|r: int| 0 <= r < i ==> (#[trigger] a@[r])@ == s.a[r],
            forall|r: int| 0 <= r < i ==> #[trigger] b@[r] == s.b[r],
        decreases m - i,
    {
        let mut row: Vec<Binary64> = Vec::new();
        let mut j: usize = 0;
        while j < m
            invariant
                1 <= m <= 4,
                i < m,
                j <= m,
                sums@.len() == 2 * m - 1,
                forall|i: int|
                    0 <= i < 2 * m - 1 ==> #[trigger] sums@[i] == power_sum(x@, i, x@.len() as int),
                row@.len() == j,
                forall|c: int|
                    0 <= c < j ==> #[trigger] row@[c] == power_sum(x@, i + c, x@.len() as int),
            decreases m - j,
        {
            row.push(sums[i + j]);
            j += 1;
        }
        assert(row@ =~= s.a[i as int]);
        a.push(row);
        b.push(sum_heights(x, y, i));
        i += 1;
    }
    assert(matrix(a@) =~= s.a);
    assert(b@ =~= s.b);
    match solve_linear_system(a, b) {
        Ok(c) => {
            let mut out: Vec<Binary32> = Vec::new();
            let mut i: usize = 0;
            while i < c.len()
                invariant
                    i <= c@.len(),
                    out@.len() == i,
                    forall|k: int| 0 <= k < i ==> #[trigger] out@[k] == c@[k].narrow(),
                decreases c@.len() - i,
            {
                out.push(c[i].narrow());
                i += 1;
            }
            assert(out@ =~= Seq::new(c@.len(), |i: int| c@[i].narrow()));
            Ok(out)
        },
        Err(e) => Err(e),
    }
}

// ---- flattening ----

/// `x` to the power `k` in single precision.
pub open spec fn single_power(x: Binary32, k: int) -> Binary32
    decreases k,
{
    if k <= 0 {
        Binary32::of_integer(1)
    } else {
        single_power(x, k - 1).times(x)
    }
}

/// The first `n` terms of a polynomial at `x`.
pub open spec fn polynomial(coeffs: Seq<Binary32>, x: Binary32, n: int) -> Binary32
    decreases n,
{
    if n <= 0 {
        Binary32::of_integer(0)
    } else {
        polynomial(coeffs, x, n - 1).plus(coeffs[n - 1].times(single_power(x, n - 1)))
    }
}

/// Evaluates a polynomial.
pub fn eval_polynomial(coeffs: &[Binary32], x: Binary32) -> (r: Binary32)
    ensures
        r == polynomial(coeffs@, x, coeffs@.len() as int),
{
    let mut result: Binary32 = Binary32::from_usize(0);
    let mut x_power: Binary32 = Binary32::from_usize(1);
    let mut i: usize = 0;
    while i < coeffs.len()
        invariant
            i <= coeffs@.len(),
            result == polynomial(coeffs@, x, i as int),
            x_power == single_power(x, i as int),
        decreases coeffs@.len() - i,
    {
        result = result.plus(coeffs[i].times(x_power));
        x_power = x_power.times(x);
        i += 1;
    }
    result
}

/// The positions of `n` samples along a line, from 0 to 1.
pub open spec fn positions(n: nat) -> Seq<Binary32> {
    Seq::new(
        n,
        |i: int|
            Binary32::of_integer(i).over(
                Binary32::of_integer(
                    if n > 1 {
                        n - 1
                    } else {
                        1
                    },
                ),
            ),
    )
}

/// A line less its polynomial fit.
pub open spec fn flat_line(row: Seq<Binary32>, coeffs: Seq<Binary32>) -> Seq<Binary32> {
    Seq::new(
        row.len(),
        |i: int|
            row[i].minus(polynomial(coeffs, positions(row.len())[i], coeffs.len() as int)),
    )
}

/// The flattened lines one after the other, or why the first line that cannot
/// be flattened cannot.
pub open spec fn flat_lines(rows: Seq<Seq<Binary32>>, order: nat, cols: nat) -> Result<
    Seq<Binary32>,
    Seq<char>,
>
    decreases rows.len(),
{
    if rows.len() == 0 {
        Ok(Seq::empty())
    } else {
        match flat_lines(rows.drop_last(), order, cols) {
            Err(e) => Err(e),
            Ok(before) => if rows.last().len() != cols {
                Err("Inconsistent line length"@)
            } else {
                match fitted(positions(cols), rows.last(), order) {
                    Err(e) => Err("Polynomial fitting failed: "@ + e),
                    Ok(c) => Ok(before + flat_line(rows.last(), c)),
                }
            },
        }
    }
}

/// An image with every line flattened.
pub open spec fn flattened(rows: Seq<Seq<Binary32>>, order: nat) -> Result<
    Seq<Binary32>,
    Seq<char>,
> {
    if order > 3 {
        Err("Polynomial order must be 0-3"@)
    } else if rows.len() == 0 {
        Err("Empty image"@)
    } else {
        flat_lines(rows, order, rows[0].len())
    }
}

fn line_positions(n: usize) -> (r: Vec<Binary32>)
    ensures
        r@ == positions(n as nat),
{
    let mut x: Vec<Binary32> = Vec::new();
    let d: Binary32 = Binary32::from_usize(
        if n > 1 {
            n - 1
        } else {
            1
        },
    );
    let mut i: usize = 0;
    while i < n
        invariant
            i <= n,
            d == Binary32::of_integer(
                if n > 1 {
                    n - 1
                } else {
                    1
                },
            ),
            x@ == positions(n as nat).take(i as int),
        decreases n - i,
    {
        x.push(Binary32::from_usize(i).over(d));
        i += 1;
        assert(x@ =~= positions(n as nat).take(i as int));
    }
    assert(x@ =~= positions(n as nat));
    x
}

proof fn lemma_flat_lines_err(rows: Seq<Seq<Binary32>>, order: nat, cols: nat, n: int)
    requires
        0 <= n <= rows.len(),
        flat_lines(rows.take(n), order, cols) is Err,
    ensures
        flat_lines(rows, order, cols) == flat_lines(rows.take(n), order, cols),
    decreases rows.len(),
{
    if n < rows.len() {
        assert(rows.take(n) == rows.drop_last().take(n));
        lemma_flat_lines_err(rows.drop_last(), order, cols, n);
    } else {
        assert(rows.take(n) == rows);
    }
}

/// Subtracts from every line its polynomial fit.
pub fn flatten_polynomial(image_2d: &Vec<Vec<Binary32>>, order: u32) -> (r: Result<
    Vec<Binary32>,
    String,
>)
    ensures
        match r {
            Ok(v) => flattened(rows_of(image_2d@), order as nat) == Ok::<Seq<Binary32>, Seq<char>>(
                v@,
            ),
            Err(e) => flattened(rows_of(image_2d@), order as nat) == Err::<
                Seq<Binary32>,
                Seq<char>,
            >(e@),
        },
{
    if order > 3 {
        return Err("Polynomial order must be 0-3".to_owned());
    }
    let n_lines: usize = image_2d.len();
    if n_lines == 0 {
        return Err("Empty image".to_owned());
    }
    let ghost rows = rows_of(image_2d@);
    let cols: usize = image_2d[0].len();
    let x: Vec<Binary32> = line_positions(cols);
    let mut out: Vec<Binary32> = Vec::new();
    let mut r: usize = 0;
    assert(rows.take(0).len() == 0);
    assert(rows[0].len() == cols);
    while r < n_lines
        invariant
            r <= n_lines,
            n_lines == image_2d@.len(),
            n_lines > 0,
            order <= 3,
            rows == rows_of(image_2d@),
            rows[0].len() == cols,
            x@ == positions(cols as nat),
            flat_lines(rows.take(r as int), order as nat, cols as nat) == Ok::<
                Seq<Binary32>,
                Seq<char>,
            >(out@),
        decreases n_lines - r,
    {
        let line: &Vec<Binary32> = &image_2d[r];
        let ghost upto = rows.take(r as int + 1);
        proof {
            assert(upto.drop_last() == rows.take(r as int));
            assert(upto.last() == line@);
            if flat_lines(upto, order as nat, cols as nat) is Err {
                lemma_flat_lines_err(rows, order as nat, cols as nat, r as int + 1);
            }
        }
        if line.len() != cols {
            return Err("Inconsistent line length".to_owned());
        }
        match fit_polynomial(x.as_slice(), line.as_slice(), order as usize) {
            Err(e) => {
                return Err("Polynomial fitting failed: ".to_owned().concat(e.as_str()));
            },
            Ok(c) => {
                let ghost before = out@;
                let ghost flat = flat_line(line@, c@);
                let mut i: usize = 0;
                while i < cols
                    invariant
                        i <= cols,
                        line@.len() == cols,
                        x@ == positions(cols as nat),
                        flat == flat_line(line@, c@),
                        out@ == before + flat.take(i as int),
                    decreases cols - i,
                {
                    let fit: Binary32 = eval_polynomial(c.as_slice(), x[i]);
                    out.push(line[i].minus(fit));
                    i += 1;
                    assert(flat.take(i as int) =~= flat.take(i as int - 1).push(flat[i as int - 1]));
                    assert(out@ =~= before + flat.take(i as int));
                }
                assert(flat.take(i as int) =~= flat);
            },
        }
        r += 1;
    }
    assert(rows.take(r as int) == rows);
    Ok(out)
}

proof fn lemma_flat_lines_len(rows: Seq<Seq<Binary32>>, order: nat, cols: nat)
    ensures
        flat_lines(rows, order, cols) matches Ok(v) ==> v.len() == rows.len() * cols,
    decreases rows.len(),
{
    if rows.len() > 0 {
        lemma_flat_lines_len(rows.drop_last(), order, cols);
        let n = rows.len() - 1;
        assert((n + 1) * cols == n * cols + cols) by (nonlinear_arith);
    } else {
        assert(0 * cols == 0);
    }
}

/// Flattening keeps the number of samples.
pub proof fn law_flattening_keeps_the_size(rows: Seq<Seq<Binary32>>, order: nat)
    ensures
        flattened(rows, order) matches Ok(v) ==> v.len() == rows.len() * rows[0].len(),
{
    if order <= 3 && rows.len() > 0 {
        lemma_flat_lines_len(rows, order, rows[0].len());
    }
}

} // verus!
