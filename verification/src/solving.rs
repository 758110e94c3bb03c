//! What solving a linear system gives: unknowns that fulfil its equations.

use crate::binary::Binary64;
use crate::float::Width;
use crate::poly::{
    divided, eliminated, is_square, is_tiny, lemma_eliminated_square, lemma_pivot,
    lemma_triangular_none, pivot_row, reduced, residue, solution_from, solved, swapped, triangular,
    System, TINY,
};
use crate::reals::{
    grain, law_compare64, law_minus64, law_over64, law_times64, lemma_abs64, lemma_bits64,
    lemma_finite_minus64, lemma_finite_over64, lemma_finite_times64, lemma_grain, lemma_speck64,
    num64, size, speck, vast,
};
use vstd::arithmetic::power2::{lemma2_to64_rest, lemma_pow2_adds, pow2};
use vstd::prelude::*;

verus! {

/// The grain of double precision.
pub open spec fn fine() -> real {
    1 as real / 0x20_0000_0000_0000 as real
}

pub(crate) proof fn lemma_fine()
    ensures
        grain(Width::Double) == fine(),
        0 as real <= speck(Width::Double) <= fine() / 0x100_0000_0000_0000_0000 as real,
        speck(Width::Double) * 0x100_0000_0000_0000_0000 as real <= fine(),
{
    lemma_grain();
    lemma_speck64();
    let (s, f) = (speck(Width::Double), fine());
    assert(s * 0x100_0000_0000_0000_0000 as real <= f) by (nonlinear_arith)
        requires
            s * vast() <= f,
            vast() >= 0x100_0000_0000_0000_0000 as real,
            s >= 0 as real,
    ;
}

/// What counts as zero lies between `2^-40` and `2^-39`.
pub(crate) proof fn lemma_tiny(v: Binary64)
    requires
        v.is_finite(),
    ensures
        is_tiny(v) ==> size(num64(v)) <= 1 as real / 0x80_0000_0000 as real,
        !is_tiny(v) ==> size(num64(v)) >= 1 as real / 0x100_0000_0000 as real,
{
    let t = Binary64 { bits: TINY };
    let f: nat = 0x1_9799_812d_ea11;
    lemma_bits64(t, 983, f);
    lemma2_to64_rest();
    lemma_pow2_adds(46, 46);
    assert(pow2(46) == 0x4000_0000_0000);
    assert(pow2((1075 - 983) as nat) == 0x1000_0000_0000_0000_0000_0000);
    let (x, z) = ((0x10_0000_0000_0000 + f) as real, 0x1000_0000_0000_0000_0000_0000 as real);
    assert(x / z >= 1 as real / 0x100_0000_0000 as real) by (nonlinear_arith)
        requires
            x >= 0x10_0000_0000_0000 as real,
            z == 0x1000_0000_0000_0000_0000_0000 as real,
    ;
    assert(x / z <= 1 as real / 0x80_0000_0000 as real) by (nonlinear_arith)
        requires
            x <= 0x20_0000_0000_0000 as real,
            z == 0x1000_0000_0000_0000_0000_0000 as real,
    ;
    lemma_abs64(v);
    law_compare64(v.abs(), t);
}

// ---- one number ----

/// A number of the pivot's row divided by the pivot.
proof fn lemma_divided(p: Binary64, q: Binary64, m: real)
    requires
        p.is_finite(),
        q.is_finite(),
        1 as real <= m <= 0x1_0000_0000_0000_0000_0000 as real,
        size(num64(p)) <= m,
        size(num64(q)) <= m,
        size(num64(q)) >= 1 as real / 0x100_0000_0000 as real,
    ensures
        p.over(q).is_finite(),
        size(num64(p) - num64(q) * num64(p.over(q))) <= 2 as real * m * fine(),
        size(num64(q) * num64(p.over(q))) <= 2 as real * m,
{
    lemma_fine();
    lemma_finite_over64(p, q);
    law_over64(p, q);
    let (x, y, z) = (num64(p), num64(q), num64(p.over(q)));
    let t = x / y;
    let d = z - t;
    let (f, s) = (fine(), speck(Width::Double));
    assert(t * y == x) by (nonlinear_arith)
        requires
            t == x / y,
            y != 0 as real,
    ;
    assert(y * z - x == y * d) by (nonlinear_arith)
        requires
            t * y == x,
            d == z - t,
    ;
    assert(size(y * d) <= size(y) * (size(t) * f + s)) by (nonlinear_arith)
        requires
            size(d) <= size(t) * f + s,
    ;
    assert(size(y) * (size(t) * f + s) == size(x) * f + size(y) * s) by (nonlinear_arith)
        requires
            t * y == x,
    ;
    assert(size(x) * f <= m * f) by (nonlinear_arith)
        requires
            size(x) <= m,
            f > 0 as real,
    ;
    assert(size(y) * s <= m * f) by (nonlinear_arith)
        requires
            size(y) <= m,
            0 as real <= s,
            s <= f,
    ;
    assert(2 as real * m * f == m * f + m * f) by (nonlinear_arith);
    assert(m * f <= m / 4 as real) by (nonlinear_arith)
        requires
            f <= 1 as real / 4 as real,
            m >= 0 as real,
    ;
}

/// A number of another row less its share of the pivot's row.
proof fn lemma_reduced(v: Binary64, c: Binary64, y: Binary64, q: Binary64, m: real)
    requires
        v.is_finite(),
        c.is_finite(),
        y.is_finite(),
        q.is_finite(),
        1 as real <= m <= 0x1_0000_0000_0000_0000_0000 as real,
        size(num64(v)) <= m,
        size(num64(c)) <= size(num64(q)),
        size(num64(q) * num64(y)) <= m + 2 as real * m * fine(),
    ensures
        v.minus(c.times(y)).is_finite(),
        size(num64(v.minus(c.times(y))) - (num64(v) - num64(c) * num64(y))) <= 8 as real * m
            * fine(),
        size(num64(v.minus(c.times(y)))) <= 3 as real * m,
{
    lemma_fine();
    let (a, b, d, e) = (num64(v), num64(c), num64(y), num64(q));
    let (f, s) = (fine(), speck(Width::Double));
    let z = b * d;
    assert(size(z) <= size(e * d)) by (nonlinear_arith)
        requires
            z == b * d,
            size(b) <= size(e),
    ;
    assert(2 as real * m * f <= m / 0x100 as real) by (nonlinear_arith)
        requires
            f <= 1 as real / 0x200 as real,
            m >= 0 as real,
    ;
    assert(8 as real * m * f == 4 as real * (2 as real * m * f)) by (nonlinear_arith);
    assert(size(z) <= 2 as real * m);
    lemma_finite_times64(c, y);
    law_times64(c, y);
    let k = c.times(y);
    assert(size(z) * f <= 2 as real * m * f) by (nonlinear_arith)
        requires
            size(z) <= 2 as real * m,
            f > 0 as real,
    ;
    assert(s <= m * f) by (nonlinear_arith)
        requires
            s <= f,
            m >= 1 as real,
            f > 0 as real,
    ;
    assert(2 as real * m * f == m * f + m * f) by (nonlinear_arith);
    assert(size(num64(k) - z) <= 3 as real * (m * f));
    lemma_finite_minus64(v, k);
    law_minus64(v, k);
    let g = a - num64(k);
    assert(size(g) <= 3 as real * m);
    assert(size(g) * f <= 3 as real * (m * f)) by (nonlinear_arith)
        requires
            size(g) <= 3 as real * m,
            f > 0 as real,
    ;
    assert(8 as real * m * f == 8 as real * (m * f)) by (nonlinear_arith);
}

// ---- rows ----

/// The products of a row with the unknowns, from column `f` up to column `n`.
pub open spec fn dot(r: Seq<Binary64>, x: Seq<Binary64>, f: int, n: int) -> real
    decreases n - f,
{
    if n <= f {
        0 as real
    } else {
        dot(r, x, f, n - 1) + num64(r[n - 1]) * num64(x[n - 1])
    }
}

/// The unknowns without their signs, added up.
pub open spec fn load(x: Seq<Binary64>, f: int, n: int) -> real
    decreases n - f,
{
    if n <= f {
        0 as real
    } else {
        load(x, f, n - 1) + size(num64(x[n - 1]))
    }
}

proof fn lemma_load(x: Seq<Binary64>, f: int, g: int, n: int)
    requires
        f <= g <= n,
    ensures
        0 as real <= load(x, g, n) <= load(x, f, n),
    decreases n - g,
{
    if g < n {
        lemma_load(x, f, g, n - 1);
    } else {
        lemma_load_positive(x, f, n);
    }
}

proof fn lemma_load_positive(x: Seq<Binary64>, f: int, n: int)
    ensures
        load(x, f, n) >= 0 as real,
    decreases n - f,
{
    if f < n {
        lemma_load_positive(x, f, n - 1);
    }
}

proof fn lemma_load_has(x: Seq<Binary64>, f: int, n: int, i: int)
    requires
        f <= i < n,
    ensures
        size(num64(x[i])) <= load(x, f, n),
    decreases n - f,
{
    lemma_load_positive(x, f, n - 1);
    if i < n - 1 {
        lemma_load_has(x, f, n - 1, i);
    }
}

proof fn lemma_dot_first(r: Seq<Binary64>, x: Seq<Binary64>, f: int, n: int)
    requires
        f < n,
    ensures
        dot(r, x, f, n) == num64(r[f]) * num64(x[f]) + dot(r, x, f + 1, n),
    decreases n - f,
{
    if f < n - 1 {
        lemma_dot_first(r, x, f, n - 1);
    } else {
        assert(dot(r, x, f, n - 1) == 0 as real);
        assert(dot(r, x, f + 1, n) == 0 as real);
    }
}

/// Rows that are near a combination of two others have near products.
proof fn lemma_dot_combined(
    r: Seq<Binary64>,
    v: Seq<Binary64>,
    y: Seq<Binary64>,
    c: real,
    x: Seq<Binary64>,
    f: int,
    n: int,
    e: real,
)
    requires
        forall|j: int|
            f <= j < n ==> size(num64(#[trigger] r[j]) - (num64(v[j]) - c * num64(y[j]))) <= e,
    ensures
        size(dot(r, x, f, n) - (dot(v, x, f, n) - c * dot(y, x, f, n))) <= e * load(x, f, n),
    decreases n - f,
{
    if f < n {
        lemma_dot_combined(r, v, y, c, x, f, n - 1, e);
        let (p, q, s, t) = (num64(r[n - 1]), num64(v[n - 1]), num64(y[n - 1]), num64(x[n - 1]));
        let d = p - (q - c * s);
        let dy = dot(y, x, f, n - 1);
        assert(p * t - (q * t - c * (s * t)) == d * t) by (nonlinear_arith)
            requires
                d == p - (q - c * s),
        ;
        assert(c * (dy + s * t) == c * dy + c * (s * t)) by (nonlinear_arith);
        assert(size(d * t) <= e * size(t)) by (nonlinear_arith)
            requires
                size(d) <= e,
        ;
        let l = load(x, f, n - 1);
        assert(e * (l + size(t)) == e * l + e * size(t)) by (nonlinear_arith);
    } else {
        assert(c * 0 as real == 0 as real && e * 0 as real == 0 as real) by (nonlinear_arith);
    }
}

/// A row that is near a multiple of another has near products.
proof fn lemma_dot_multiple(
    v: Seq<Binary64>,
    y: Seq<Binary64>,
    c: real,
    x: Seq<Binary64>,
    f: int,
    n: int,
    e: real,
)
    requires
        forall|j: int| f <= j < n ==> size(num64(#[trigger] v[j]) - c * num64(y[j])) <= e,
    ensures
        size(dot(v, x, f, n) - c * dot(y, x, f, n)) <= e * load(x, f, n),
    decreases n - f,
{
    if f < n {
        lemma_dot_multiple(v, y, c, x, f, n - 1, e);
        let (q, s, t) = (num64(v[n - 1]), num64(y[n - 1]), num64(x[n - 1]));
        let d = q - c * s;
        let dy = dot(y, x, f, n - 1);
        assert(q * t - c * (s * t) == d * t) by (nonlinear_arith)
            requires
                d == q - c * s,
        ;
        assert(c * (dy + s * t) == c * dy + c * (s * t)) by (nonlinear_arith);
        assert(size(d * t) <= e * size(t)) by (nonlinear_arith)
            requires
                size(d) <= e,
        ;
        let l = load(x, f, n - 1);
        assert(e * (l + size(t)) == e * l + e * size(t)) by (nonlinear_arith);
    } else {
        assert(c * 0 as real == 0 as real && e * 0 as real == 0 as real) by (nonlinear_arith);
    }
}

// ---- one step of the elimination ----

/// Whether what is left to eliminate is finite and bounded: the rows and columns
/// from `k` on by `g`, the right-hand sides by `b`.
pub open spec fn is_tame(s: System, k: int, g: real, b: real) -> bool {
    &&& is_square(s)
    &&& forall|i: int, j: int|
        k <= i < s.b.len() && k <= j < s.b.len() ==> (#[trigger] s.a[i][j]).is_finite() && size(
            num64(s.a[i][j]),
        ) <= g
    &&& forall|i: int|
        k <= i < s.b.len() ==> (#[trigger] s.b[i]).is_finite() && size(num64(s.b[i])) <= b
}

/// What an equation leaves over, from column `f` on.
pub open spec fn rest_of(s: System, x: Seq<Binary64>, i: int, f: int) -> real {
    dot(s.a[i], x, f, s.b.len() as int) - num64(s.b[i])
}

/// The pivot is the largest of its column.
proof fn lemma_pivot_is_largest(s: System, k: int, n: int, g: real, b: real, i: int)
    requires
        is_tame(s, k, g, b),
        0 <= k <= i < n <= s.b.len(),
    ensures
        k <= pivot_row(s.a, k, n) < n,
        size(num64(s.a[i][k])) <= size(num64(s.a[pivot_row(s.a, k, n)][k])),
    decreases n - k,
{
    if n > k + 1 {
        let p = pivot_row(s.a, k, n - 1);
        lemma_pivot_is_largest(s, k, n - 1, g, b, k);
        if i < n - 1 {
            lemma_pivot_is_largest(s, k, n - 1, g, b, i);
        }
        let (u, v) = (s.a[p][k], s.a[n - 1][k]);
        lemma_abs64(u);
        lemma_abs64(v);
        law_compare64(u.abs(), v.abs());
    }
}

/// The pivot of a step.
pub open spec fn pivot_of(s: System, k: int) -> Binary64 {
    s.a[pivot_row(s.a, k, s.b.len() as int)][k]
}

/// The system with the row of the pivot in its place.
pub open spec fn pivoted(s: System, k: int) -> System {
    let p = pivot_row(s.a, k, s.b.len() as int);
    System { a: swapped(s.a, k, p), b: swapped(s.b, k, p) }
}

/// What a step does to one row.
proof fn lemma_step_row(s: System, k: int, g: real, b: real, i: int)
    requires
        is_tame(s, k, g, b),
        0 <= k <= i < s.b.len(),
        1 as real <= g <= b <= 0x1_0000_0000_0000_0000_0000 as real,
        eliminated(s, k) is Some,
    ensures
        ({
            let t = eliminated(s, k).unwrap();
            let (o, n) = (pivoted(s, k), s.b.len() as int);
            let q = num64(pivot_of(s, k));
            let c = num64(o.a[i][k]);
            &&& t.b.len() == n
            &&& is_square(t)
            &&& is_tame(o, k, g, b)
            &&& o.b.len() == n
            &&& pivot_of(s, k).is_finite()
            &&& o.a[k][k] == pivot_of(s, k)
            &&& 1 as real / 0x100_0000_0000 as real <= size(q) <= g
            &&& size(c) <= size(q)
            &&& i == k ==> c == q
            &&& i == k ==> forall|j: int|
                k <= j < n ==> (#[trigger] t.a[k][j]).is_finite() && size(
                    num64(o.a[k][j]) - q * num64(t.a[k][j]),
                ) <= 2 as real * g * fine() && size(q * num64(t.a[k][j])) <= 2 as real * g
            &&& i == k ==> t.b[k].is_finite() && size(num64(o.b[k]) - q * num64(t.b[k])) <= 2 as real
                * b * fine() && size(q * num64(t.b[k])) <= 2 as real * b
            &&& i > k && size(c) > 1 as real / 0x80_0000_0000 as real ==> t.a[i] == reduced(
                o.a[i],
                t.a[k],
                k,
                o.a[i][k],
            ) && t.b[i] == o.b[i].minus(o.a[i][k].times(t.b[k]))
            &&& i > k ==> (t.a[i] == o.a[i] && t.b[i] == o.b[i] && size(c) <= 1 as real
                / 0x80_0000_0000 as real) || (t.a[i] == reduced(o.a[i], t.a[k], k, o.a[i][k])
                && t.b[i] == o.b[i].minus(o.a[i][k].times(t.b[k])))
        }),
{
    let n = s.b.len() as int;
    let p = pivot_row(s.a, k, n);
    let t = eliminated(s, k).unwrap();
    let o = pivoted(s, k);
    lemma_pivot_is_largest(s, k, n, g, b, i);
    lemma_pivot_is_largest(s, k, n, g, b, k);
    lemma_pivot_is_largest(s, k, n, g, b, p);
    lemma_eliminated_square(s, k);
    let q = pivot_of(s, k);
    assert(s.a[p][k].is_finite());
    lemma_tiny(q);
    assert(o.a[k] == s.a[p]);
    assert(o.a[k][k] == q);
    assert forall|r: int, j: int| k <= r < n && k <= j < n implies (#[trigger] o.a[r][j]).is_finite()
        && size(num64(o.a[r][j])) <= g by {
        let from = if r == p { k } else if r == k { p } else { r };
        assert(o.a[r] == s.a[from]);
        assert(s.a[from][j].is_finite());
    }
    assert forall|r: int| k <= r < n implies (#[trigger] o.b[r]).is_finite() && size(num64(o.b[r]))
        <= b by {
        let from = if r == p { k } else if r == k { p } else { r };
        assert(o.b[r] == s.b[from]);
    }
    assert forall|r: int| 0 <= r < o.a.len() implies (#[trigger] o.a[r]).len() == o.b.len() by {
        let from = if r == p { k } else if r == k { p } else { r };
        assert(o.a[r] == s.a[from]);
    }
    let from = if i == p { k } else if i == k { p } else { i };
    assert(o.a[i] == s.a[from]);
    lemma_pivot_is_largest(s, k, n, g, b, from);
    assert(o.a[i][k].is_finite());
    lemma_tiny(o.a[i][k]);
    if i == k {
        assert(t.a[k] == divided(o.a[k], k, q));
        assert forall|j: int| k <= j < n implies (#[trigger] t.a[k][j]).is_finite() && size(
            num64(o.a[k][j]) - num64(q) * num64(t.a[k][j]),
        ) <= 2 as real * g * fine() && size(num64(q) * num64(t.a[k][j])) <= 2 as real * g by {
            assert(o.a[k][j].is_finite());
            lemma_divided(o.a[k][j], q, g);
        }
        assert(o.b[k].is_finite());
        lemma_divided(o.b[k], q, b);
    }
}

/// A step keeps what is left bounded.
proof fn lemma_step_is_tame(s: System, k: int, g: real, b: real)
    requires
        is_tame(s, k, g, b),
        0 <= k < s.b.len(),
        1 as real <= g <= b <= 0x1_0000_0000_0000_0000_0000 as real,
        eliminated(s, k) is Some,
    ensures
        is_tame(eliminated(s, k).unwrap(), k + 1, 3 as real * g, 3 as real * b),
        eliminated(s, k).unwrap().b.len() == s.b.len(),
{
    let t = eliminated(s, k).unwrap();
    let (o, n) = (pivoted(s, k), s.b.len() as int);
    let q = pivot_of(s, k);
    lemma_step_row(s, k, g, b, k);
    assert forall|i: int, j: int| k + 1 <= i < n && k + 1 <= j < n implies (
    #[trigger] t.a[i][j]).is_finite() && size(num64(t.a[i][j])) <= 3 as real * g by {
        lemma_step_row(s, k, g, b, i);
        assert(o.a[i][j].is_finite());
        if t.a[i] != o.a[i] {
            lemma_step_entry(s, k, g, b, i, j);
        }
    }
    assert forall|i: int| k + 1 <= i < n implies (#[trigger] t.b[i]).is_finite() && size(
        num64(t.b[i]),
    ) <= 3 as real * b by {
        lemma_step_row(s, k, g, b, i);
        assert(o.b[i].is_finite());
        if t.b[i] != o.b[i] {
            lemma_step_side(s, k, g, b, i);
        }
    }
}

/// What a step does to a number of a row that it changes.
#[verifier::rlimit(40)]
proof fn lemma_step_entry(s: System, k: int, g: real, b: real, i: int, j: int)
    requires
        is_tame(s, k, g, b),
        0 <= k < i < s.b.len(),
        k < j < s.b.len(),
        1 as real <= g <= b <= 0x1_0000_0000_0000_0000_0000 as real,
        eliminated(s, k) is Some,
        ({
            let t = eliminated(s, k).unwrap();
            let o = pivoted(s, k);
            t.a[i] == reduced(o.a[i], t.a[k], k, o.a[i][k])
        }),
    ensures
        ({
            let t = eliminated(s, k).unwrap();
            let o = pivoted(s, k);
            let c = num64(o.a[i][k]);
            &&& t.a[i][j].is_finite()
            &&& size(num64(t.a[i][j])) <= 3 as real * g
            &&& size(num64(t.a[i][j]) - (num64(o.a[i][j]) - c * num64(t.a[k][j]))) <= 8 as real * g
                * fine()
        }),
{
    let t = eliminated(s, k).unwrap();
    let o = pivoted(s, k);
    lemma_step_row(s, k, g, b, k);
    lemma_step_row(s, k, g, b, i);
    assert(o.a[i][j].is_finite());
    assert(o.a[i][k].is_finite());
    assert(o.a[k][j].is_finite());
    assert(t.a[k][j].is_finite());
    assert(o.a[i].len() == s.b.len());
    assert(t.a[i][j] == o.a[i][j].minus(o.a[i][k].times(t.a[k][j])));
    lemma_reduced(o.a[i][j], o.a[i][k], t.a[k][j], pivot_of(s, k), g);
}

/// What a step does to the right-hand side of a row that it changes.
proof fn lemma_step_side(s: System, k: int, g: real, b: real, i: int)
    requires
        is_tame(s, k, g, b),
        0 <= k < i < s.b.len(),
        1 as real <= g <= b <= 0x1_0000_0000_0000_0000_0000 as real,
        eliminated(s, k) is Some,
        ({
            let t = eliminated(s, k).unwrap();
            let o = pivoted(s, k);
            t.b[i] == o.b[i].minus(o.a[i][k].times(t.b[k]))
        }),
    ensures
        ({
            let t = eliminated(s, k).unwrap();
            let o = pivoted(s, k);
            let c = num64(o.a[i][k]);
            &&& t.b[i].is_finite()
            &&& size(num64(t.b[i])) <= 3 as real * b
            &&& size(num64(t.b[i]) - (num64(o.b[i]) - c * num64(t.b[k]))) <= 8 as real * b * fine()
        }),
{
    let t = eliminated(s, k).unwrap();
    let o = pivoted(s, k);
    lemma_step_row(s, k, g, b, k);
    lemma_step_row(s, k, g, b, i);
    assert(o.b[i].is_finite());
    assert(o.b[k].is_finite());
    assert(o.a[i][k].is_finite());
    lemma_reduced(o.b[i], o.a[i][k], t.b[k], pivot_of(s, k), b);
}

/// The row of the pivot before a step leaves over little more than after it.
proof fn lemma_pivot_row_rest(
    s: System,
    k: int,
    x: Seq<Binary64>,
    g: real,
    b: real,
    w: real,
    delta: real,
)
    requires
        is_tame(s, k, g, b),
        0 <= k < s.b.len(),
        1 as real <= g <= b <= 0x1_0000_0000_0000_0000_0000 as real,
        eliminated(s, k) is Some,
        load(x, k, s.b.len() as int) <= w,
        size(num64(pivot_of(s, k)) * rest_of(eliminated(s, k).unwrap(), x, k, k)) <= delta,
    ensures
        size(rest_of(pivoted(s, k), x, k, k)) <= delta + 2 as real * (g * w + b) * fine(),
{
    let t = eliminated(s, k).unwrap();
    let (o, n) = (pivoted(s, k), s.b.len() as int);
    let (q, f) = (num64(pivot_of(s, k)), fine());
    lemma_step_row(s, k, g, b, k);
    let e = 2 as real * g * f;
    assert forall|j: int| k <= j < n implies size(num64(#[trigger] o.a[k][j]) - q * num64(t.a[k][j]))
        <= e by {
        assert(t.a[k][j].is_finite());
    }
    lemma_dot_multiple(o.a[k], t.a[k], q, x, k, n, e);
    let (d, y, l) = (dot(o.a[k], x, k, n), dot(t.a[k], x, k, n), load(x, k, n));
    let (u, v) = (num64(o.b[k]), num64(t.b[k]));
    assert(q * (y - v) == q * y - q * v) by (nonlinear_arith);
    assert(e * l <= e * w) by (nonlinear_arith)
        requires
            l <= w,
            e >= 0 as real,
    ;
    assert(2 as real * (g * w + b) * f == e * w + 2 as real * b * f) by (nonlinear_arith)
        requires
            e == 2 as real * g * f,
    ;
}

/// Another row before a step leaves over little more than after it.
proof fn lemma_other_row_rest(
    s: System,
    k: int,
    x: Seq<Binary64>,
    g: real,
    b: real,
    w: real,
    delta: real,
    r: real,
    i: int,
)
    requires
        is_tame(s, k, g, b),
        0 <= k < i < s.b.len(),
        1 as real <= g <= b <= 0x1_0000_0000_0000_0000_0000 as real,
        eliminated(s, k) is Some,
        load(x, k, s.b.len() as int) <= w,
        size(num64(pivot_of(s, k)) * rest_of(eliminated(s, k).unwrap(), x, k, k)) <= delta,
        size(rest_of(eliminated(s, k).unwrap(), x, i, k + 1)) <= r,
    ensures
        size(rest_of(pivoted(s, k), x, i, k)) <= r + delta + 10 as real * (g * w + b) * fine() + w
            / 0x80_0000_0000 as real,
{
    let t = eliminated(s, k).unwrap();
    let (o, n) = (pivoted(s, k), s.b.len() as int);
    let (q, f) = (num64(pivot_of(s, k)), fine());
    lemma_step_row(s, k, g, b, k);
    lemma_step_row(s, k, g, b, i);
    let (c, xk) = (num64(o.a[i][k]), num64(x[k]));
    let tiny = 1 as real / 0x80_0000_0000 as real;
    lemma_load(x, k, k + 1, n);
    lemma_load_has(x, k, n, k);
    lemma_dot_first(o.a[i], x, k, n);
    lemma_dot_first(t.a[k], x, k, n);
    let l = load(x, k + 1, n);
    let h = (g * w + b) * f;
    assert(h >= 0 as real) by (nonlinear_arith)
        requires
            h == (g * w + b) * f,
            g >= 0 as real,
            w >= 0 as real,
            b >= 0 as real,
            f >= 0 as real,
    ;
    assert(10 as real * (g * w + b) * f == 10 as real * h) by (nonlinear_arith)
        requires
            h == (g * w + b) * f,
    ;
    if t.a[i] == o.a[i] && t.b[i] == o.b[i] && size(c) <= tiny {
        assert(size(c * xk) <= tiny * w) by (nonlinear_arith)
            requires
                size(c) <= tiny,
                size(xk) <= w,
        ;
        assert(tiny * w == w / 0x80_0000_0000 as real) by (nonlinear_arith)
            requires
                tiny == 1 as real / 0x80_0000_0000 as real,
        ;
    } else {
        let e = 8 as real * g * f;
        assert forall|j: int| k + 1 <= j < n implies size(
            num64(#[trigger] t.a[i][j]) - (num64(o.a[i][j]) - c * num64(t.a[k][j])),
        ) <= e by {
            lemma_step_entry(s, k, g, b, i, j);
        }
        lemma_dot_combined(t.a[i], o.a[i], t.a[k], c, x, k + 1, n, e);
        lemma_step_side(s, k, g, b, i);
        let (dt, d, y) = (
            dot(t.a[i], x, k + 1, n),
            dot(o.a[i], x, k + 1, n),
            dot(t.a[k], x, k + 1, n),
        );
        let (bt, bo, v, y0) = (num64(t.b[i]), num64(o.b[i]), num64(t.b[k]), num64(t.a[k][k]));
        let rk = rest_of(t, x, k, k);
        assert(rk == y0 * xk + y - v);
        let z = c * (xk - y0 * xk);
        assert(c * xk + c * y - c * v == c * rk + z) by (nonlinear_arith)
            requires
                rk == y0 * xk + y - v,
                z == c * (xk - y0 * xk),
        ;
        assert(size(c * rk) <= size(q * rk)) by (nonlinear_arith)
            requires
                size(c) <= size(q),
        ;
        let m = q - q * y0;
        assert(t.a[k][k].is_finite());
        assert(num64(o.a[k][k]) == q);
        assert(size(m) <= 2 as real * g * f);
        assert(size(z) <= size(m * xk)) by (nonlinear_arith)
            requires
                z == c * (xk - y0 * xk),
                m == q - q * y0,
                size(c) <= size(q),
        ;
        assert(size(m * xk) <= 2 as real * g * f * w) by (nonlinear_arith)
            requires
                size(m) <= 2 as real * g * f,
                size(xk) <= w,
        ;
        assert(e * l <= e * w) by (nonlinear_arith)
            requires
                l <= w,
                e >= 0 as real,
        ;
        assert(e * w + 8 as real * b * f == 8 as real * h) by (nonlinear_arith)
            requires
                e == 8 as real * g * f,
                h == (g * w + b) * f,
        ;
        assert(2 as real * g * f * w <= 2 as real * h) by (nonlinear_arith)
            requires
                h == (g * w + b) * f,
                b >= 0 as real,
                f >= 0 as real,
        ;
        assert(w / 0x80_0000_0000 as real >= 0 as real);
    }
}

/// No row before a step leaves over much more than the rows after it.
proof fn lemma_step_rest(
    s: System,
    k: int,
    x: Seq<Binary64>,
    g: real,
    b: real,
    w: real,
    delta: real,
    r: real,
    i: int,
)
    requires
        is_tame(s, k, g, b),
        0 <= k <= i < s.b.len(),
        1 as real <= g <= b <= 0x1_0000_0000_0000_0000_0000 as real,
        eliminated(s, k) is Some,
        load(x, k, s.b.len() as int) <= w,
        r >= 0 as real,
        size(num64(pivot_of(s, k)) * rest_of(eliminated(s, k).unwrap(), x, k, k)) <= delta,
        forall|j: int|
            k < j < s.b.len() ==> size(
                #[trigger] rest_of(eliminated(s, k).unwrap(), x, j, k + 1),
            ) <= r,
    ensures
        size(rest_of(s, x, i, k)) <= r + delta + 10 as real * (g * w + b) * fine() + w
            / 0x80_0000_0000 as real,
{
    let n = s.b.len() as int;
    let p = pivot_row(s.a, k, n);
    let o = pivoted(s, k);
    let f = fine();
    lemma_pivot(s.a, k, n);
    lemma_load_positive(x, k, n);
    let to = if i == p { k } else if i == k { p } else { i };
    assert(o.a[to] == s.a[i] && o.b[to] == s.b[i]);
    assert(rest_of(o, x, to, k) == rest_of(s, x, i, k));
    if to == k {
        lemma_pivot_row_rest(s, k, x, g, b, w, delta);
        assert(2 as real * (g * w + b) * f <= 10 as real * (g * w + b) * f) by (nonlinear_arith)
            requires
                g >= 0 as real,
                w >= 0 as real,
                b >= 0 as real,
                f >= 0 as real,
        ;
    } else {
        assert(size(rest_of(eliminated(s, k).unwrap(), x, to, k + 1)) <= r);
        lemma_other_row_rest(s, k, x, g, b, w, delta, r, to);
    }
}

// ---- the unknowns ----

proof fn lemma_dot_bound(
    row: Seq<Binary64>,
    x: Seq<Binary64>,
    q: real,
    h: real,
    f: int,
    n: int,
)
    requires
        forall|j: int| f <= j < n ==> size(q * num64(#[trigger] row[j])) <= h,
    ensures
        size(q * dot(row, x, f, n)) <= h * load(x, f, n),
    decreases n - f,
{
    if f < n {
        lemma_dot_bound(row, x, q, h, f, n - 1);
        let (r, t) = (num64(row[n - 1]), num64(x[n - 1]));
        let (d, l) = (dot(row, x, f, n - 1), load(x, f, n - 1));
        assert(size(q * r) <= h);
        assert(q * (d + r * t) == q * d + (q * r) * t) by (nonlinear_arith);
        assert(size((q * r) * t) <= h * size(t)) by (nonlinear_arith)
            requires
                size(q * r) <= h,
        ;
        assert(h * (l + size(t)) == h * l + h * size(t)) by (nonlinear_arith);
    } else {
        assert(q * 0 as real == 0 as real && h * 0 as real == 0 as real) by (nonlinear_arith);
    }
}

/// From a bound on a multiple to one on the number.
proof fn lemma_unscaled(q: real, z: real, t: real)
    requires
        size(q) >= 1 as real / 0x100_0000_0000 as real,
        size(q * z) <= t,
    ensures
        size(z) <= t * 0x100_0000_0000 as real,
{
    assert(size(z) <= t * 0x100_0000_0000 as real) by (nonlinear_arith)
        requires
            size(q) >= 1 as real / 0x100_0000_0000 as real,
            size(q * z) <= t,
    ;
}

/// An unknown is what its equation leaves for it, but for rounding.
#[verifier::rlimit(40)]
proof fn lemma_residue(
    row: Seq<Binary64>,
    side: Binary64,
    x: Seq<Binary64>,
    i: int,
    m: int,
    q: real,
    h: real,
    side_h: real,
    w: real,
)
    requires
        0 <= i,
        0 <= m <= 3,
        i + 1 + m <= x.len(),
        side.is_finite(),
        size(q * num64(side)) <= side_h,
        forall|j: int| i < j <= i + m ==> (#[trigger] row[j]).is_finite(),
        forall|j: int| i < j <= i + m ==> size(q * num64(#[trigger] row[j])) <= h,
        forall|j: int| i < j <= i + m ==> (#[trigger] x[j]).is_finite(),
        load(x, i + 1, i + 1 + m) <= w,
        h >= 0 as real,
        1 as real <= side_h,
        side_h + h * w <= 0x1_0000_0000_0000_0000_0000 as real,
        1 as real / 0x100_0000_0000 as real <= size(q) <= 0x100_0000_0000 as real,
    ensures
        ({
            let r = residue(row, side, x.skip(i + 1), i, m);
            &&& r.is_finite()
            &&& size(q * (num64(r) - (num64(side) - dot(row, x, i + 1, i + 1 + m)))) <= m as real
                * (8 as real * ((side_h + h * w) * fine()))
        }),
    decreases m,
{
    let (f, s) = (fine(), speck(Width::Double));
    let top = side_h + h * w;
    let tf = top * f;
    lemma_fine();
    lemma_load_positive(x, i + 1, i + 1 + m);
    assert(h * w >= 0 as real) by (nonlinear_arith)
        requires
            h >= 0 as real,
            w >= 0 as real,
    ;
    if m == 0 {
        assert(q * 0 as real == 0 as real) by (nonlinear_arith);
        assert(0 as real * (8 as real * tf) == 0 as real) by (nonlinear_arith);
    } else {
        let n = i + 1 + m;
        let rest = x.skip(i + 1);
        lemma_load_positive(x, i + 1, n - 1);
        lemma_residue(row, side, x, i, m - 1, q, h, side_h, w);
        let prev = residue(row, side, rest, i, m - 1);
        let (a, b) = (row[i + m], x[i + m]);
        assert(rest[m - 1] == b);
        assert(a.is_finite() && b.is_finite());
        let d0 = dot(row, x, i + 1, n - 1);
        let z = num64(a) * num64(b);
        assert(dot(row, x, i + 1, n) == d0 + z);
        lemma_dot_bound(row, x, q, h, i + 1, n - 1);
        let l = load(x, i + 1, n - 1);
        assert(h * l <= h * w) by (nonlinear_arith)
            requires
                l <= w,
                h >= 0 as real,
        ;
        let (na, nb) = (num64(a), num64(b));
        assert(size(q * na) <= h);
        assert(q * z == (q * na) * nb) by (nonlinear_arith)
            requires
                z == na * nb,
        ;
        assert(size((q * na) * nb) <= h * w) by (nonlinear_arith)
            requires
                size(q * na) <= h,
                size(nb) <= w,
        ;
        lemma_unscaled(q, z, top);
        lemma_finite_times64(a, b);
        law_times64(a, b);
        let k = a.times(b);
        let dk = num64(k) - z;
        assert(size(q * dk) <= size(q) * (size(z) * f + s)) by (nonlinear_arith)
            requires
                size(dk) <= size(z) * f + s,
        ;
        assert(size(q) * (size(z) * f + s) == size(q * z) * f + size(q) * s) by (nonlinear_arith);
        assert(size(q * z) * f <= tf) by (nonlinear_arith)
            requires
                size(q * z) <= top,
                tf == top * f,
                f > 0 as real,
        ;
        assert(size(q) * s <= f) by (nonlinear_arith)
            requires
                size(q) <= 0x100_0000_0000 as real,
                s * 0x100_0000_0000_0000_0000 as real <= f,
                s >= 0 as real,
        ;
        assert(f <= tf) by (nonlinear_arith)
            requires
                tf == top * f,
                top >= 1 as real,
                f > 0 as real,
        ;
        assert(size(q * dk) <= 2 as real * tf);
        assert(tf <= top / 0x1000 as real) by (nonlinear_arith)
            requires
                tf == top * f,
                f <= 1 as real / 0x1000 as real,
                top >= 0 as real,
        ;
        let e0 = num64(prev) - (num64(side) - d0);
        let (m0, m1) = ((m - 1) as real, m as real);
        let e8 = 8 as real * tf;
        assert(m0 * e8 <= 2 as real * e8) by (nonlinear_arith)
            requires
                m0 <= 2 as real,
                e8 >= 0 as real,
        ;
        let g = num64(prev) - num64(k);
        let ns = num64(side);
        assert(q * g == q * e0 + q * ns - q * d0 - q * dk - q * z) by (nonlinear_arith)
            requires
                g == (e0 + (ns - d0)) - (dk + z),
        ;
        assert(size(q * g) <= 3 as real * top);
        lemma_unscaled(q, g, 3 as real * top);
        lemma_finite_minus64(prev, k);
        law_minus64(prev, k);
        let r = prev.minus(k);
        let dr = num64(r) - g;
        assert(size(q * dr) <= size(q) * (size(g) * f)) by (nonlinear_arith)
            requires
                size(dr) <= size(g) * f,
        ;
        assert(size(q) * (size(g) * f) == size(q * g) * f) by (nonlinear_arith);
        assert(size(q * g) * f <= 3 as real * tf) by (nonlinear_arith)
            requires
                size(q * g) <= 3 as real * top,
                tf == top * f,
                f > 0 as real,
        ;
        let e1 = num64(r) - (ns - (d0 + z));
        assert(q * e1 == q * dr + q * e0 - q * dk) by (nonlinear_arith)
            requires
                e1 == dr + e0 - dk,
        ;
        assert(m1 * e8 == m0 * e8 + e8) by (nonlinear_arith)
            requires
                m1 == m0 + 1 as real,
        ;
    }
}

/// The unknowns from number `k` on are the last of them all.
proof fn lemma_solution(s: System, k: int)
    requires
        0 <= k <= s.b.len(),
    ensures
        solution_from(s, 0).len() == s.b.len(),
        solution_from(s, k).len() == s.b.len() - k,
        solution_from(s, 0).skip(k) == solution_from(s, k),
    decreases k,
{
    lemma_solution_length(s, 0);
    lemma_solution_length(s, k);
    if k > 0 {
        lemma_solution(s, k - 1);
        lemma_solution_length(s, k - 1);
        let (x, y) = (solution_from(s, k - 1), solution_from(s, k));
        assert(x.skip(1) =~= y);
        assert(solution_from(s, 0).skip(k - 1).skip(1) =~= solution_from(s, 0).skip(k));
    } else {
        assert(solution_from(s, 0).skip(0) =~= solution_from(s, 0));
    }
}

proof fn lemma_solution_length(s: System, k: int)
    requires
        0 <= k <= s.b.len(),
    ensures
        solution_from(s, k).len() == s.b.len() - k,
    decreases s.b.len() - k,
{
    if k < s.b.len() {
        lemma_solution_length(s, k + 1);
    }
}

/// Later steps leave a row alone.
proof fn lemma_row_stays(s: System, k: int, m: int)
    requires
        is_square(s),
        0 <= k < m <= s.b.len(),
        triangular(s, m) is Some,
    ensures
        triangular(s, k + 1) is Some,
        triangular(s, m).unwrap().a[k] == triangular(s, k + 1).unwrap().a[k],
        triangular(s, m).unwrap().b[k] == triangular(s, k + 1).unwrap().b[k],
    decreases m,
{
    lemma_triangular_square(s, m);
    if k + 1 < m {
        lemma_row_stays(s, k, m - 1);
        lemma_triangular_square(s, m - 1);
        let t = triangular(s, m - 1).unwrap();
        lemma_pivot(t.a, m - 1, t.b.len() as int);
    }
}

proof fn lemma_triangular_square(s: System, k: int)
    requires
        is_square(s),
        0 <= k <= s.b.len(),
        triangular(s, k) is Some,
    ensures
        is_square(triangular(s, k).unwrap()),
        triangular(s, k).unwrap().b.len() == s.b.len(),
    decreases k,
{
    if k > 0 {
        lemma_triangular_square(s, k - 1);
        lemma_eliminated_square(triangular(s, k - 1).unwrap(), k - 1);
    }
}

pub open spec fn thrice(d: int) -> real
    decreases d,
{
    if d <= 0 {
        1 as real
    } else {
        3 as real * thrice(d - 1)
    }
}

/// How much the equations may leave over when `d` columns are eliminated.
pub open spec fn leftover(d: int, g: real, b: real, w: real) -> real
    decreases d,
{
    if d <= 0 {
        0 as real
    } else {
        leftover(d - 1, 3 as real * g, 3 as real * b, w) + 60 as real * (g * w + b) * fine() + w
            / 0x80_0000_0000 as real
    }
}

proof fn lemma_leftover_positive(d: int, g: real, b: real, w: real)
    requires
        g >= 0 as real,
        b >= 0 as real,
        w >= 0 as real,
    ensures
        leftover(d, g, b, w) >= 0 as real,
    decreases d,
{
    if d > 0 {
        lemma_leftover_positive(d - 1, 3 as real * g, 3 as real * b, w);
        let f = fine();
        assert(60 as real * (g * w + b) * f >= 0 as real) by (nonlinear_arith)
            requires
                g >= 0 as real,
                b >= 0 as real,
                w >= 0 as real,
                f >= 0 as real,
        ;
    }
}

/// An unknown fulfils the row that it was read from.
proof fn lemma_unknown(s: System, k: int, x: Seq<Binary64>, g: real, b: real, w: real)
    requires
        is_tame(s, k, g, b),
        0 <= k < s.b.len() <= 4,
        x.len() == s.b.len(),
        1 as real <= g <= 0x1_0000_0000 as real,
        g <= b <= 0x100_0000_0000_0000_0000 as real,
        eliminated(s, k) is Some,
        0 as real <= w <= 0x1000_0000_0000 as real,
        g * w <= 0x4000_0000_0000_0000_0000 as real,
        load(x, 0, x.len() as int) <= w,
        forall|j: int| 0 <= j < x.len() ==> (#[trigger] x[j]).is_finite(),
        ({
            let t = eliminated(s, k).unwrap();
            x[k] == residue(t.a[k], t.b[k], x.skip(k + 1), k, s.b.len() - k - 1)
        }),
    ensures
        size(num64(pivot_of(s, k)) * rest_of(eliminated(s, k).unwrap(), x, k, k)) <= 50 as real * (g
            * w + b) * fine(),
{
    let t = eliminated(s, k).unwrap();
    let n = s.b.len() as int;
    let (q, f) = (num64(pivot_of(s, k)), fine());
    lemma_step_row(s, k, g, b, k);
    lemma_load(x, 0, k + 1, n);
    lemma_load_has(x, 0, n, k);
    let (h, side_h) = (2 as real * g, 2 as real * b);
    assert forall|j: int| k < j <= k + (n - k - 1) implies (#[trigger] t.a[k][j]).is_finite() by {
    }
    assert forall|j: int| k < j <= k + (n - k - 1) implies size(q * num64(#[trigger] t.a[k][j]))
        <= h by {
    }
    assert(h * w == 2 as real * (g * w)) by (nonlinear_arith)
        requires
            h == 2 as real * g,
    ;
    lemma_residue(t.a[k], t.b[k], x, k, n - k - 1, q, h, side_h, w);
    lemma_dot_first(t.a[k], x, k, n);
    let (y, v, y0, xk) = (
        dot(t.a[k], x, k + 1, n),
        num64(t.b[k]),
        num64(t.a[k][k]),
        num64(x[k]),
    );
    let rk = rest_of(t, x, k, k);
    assert(rk == y0 * xk + y - v);
    let m = q - q * y0;
    assert(t.a[k][k].is_finite());
    assert(size(m) <= 2 as real * g * f);
    let e = xk - (v - y);
    assert(q * rk == q * e - m * xk) by (nonlinear_arith)
        requires
            rk == y0 * xk + y - v,
            m == q - q * y0,
            e == xk - (v - y),
    ;
    assert(size(m * xk) <= 2 as real * g * f * w) by (nonlinear_arith)
        requires
            size(m) <= 2 as real * g * f,
            size(xk) <= w,
    ;
    let c = (g * w + b) * f;
    let mr = (n - k - 1) as real;
    let e8 = 8 as real * ((side_h + h * w) * f);
    assert(e8 == 16 as real * c) by (nonlinear_arith)
        requires
            e8 == 8 as real * ((side_h + h * w) * f),
            side_h == 2 as real * b,
            h == 2 as real * g,
            c == (g * w + b) * f,
    ;
    assert(c >= 0 as real) by (nonlinear_arith)
        requires
            c == (g * w + b) * f,
            g >= 0 as real,
            w >= 0 as real,
            b >= 0 as real,
            f >= 0 as real,
    ;
    assert(mr * e8 <= 3 as real * e8) by (nonlinear_arith)
        requires
            mr <= 3 as real,
            e8 >= 0 as real,
    ;
    assert(2 as real * g * f * w <= 2 as real * c) by (nonlinear_arith)
        requires
            c == (g * w + b) * f,
            b >= 0 as real,
            f >= 0 as real,
    ;
    assert(50 as real * (g * w + b) * f == 50 as real * c) by (nonlinear_arith)
        requires
            c == (g * w + b) * f,
    ;
}

/// The equations from number `k` on, once `k` columns are eliminated.
proof fn lemma_equations(
    s: System,
    k: int,
    x: Seq<Binary64>,
    g: real,
    b: real,
    w: real,
    i: int,
)
    requires
        is_square(s),
        0 <= k <= i < s.b.len() <= 4,
        triangular(s, s.b.len() as int) is Some,
        triangular(s, k) is Some,
        is_tame(triangular(s, k).unwrap(), k, g, b),
        x == solution_from(triangular(s, s.b.len() as int).unwrap(), 0),
        forall|j: int| 0 <= j < x.len() ==> (#[trigger] x[j]).is_finite(),
        load(x, 0, x.len() as int) <= w,
        0 as real <= w <= 0x1000_0000_0000 as real,
        1 as real <= g <= b,
        g * thrice(s.b.len() - k) <= 0x1_0000_0000 as real,
        b * thrice(s.b.len() - k) <= 0x100_0000_0000_0000_0000 as real,
    ensures
        size(rest_of(triangular(s, k).unwrap(), x, i, k)) <= leftover(s.b.len() - k, g, b, w),
    decreases s.b.len() - k,
{
    let n = s.b.len() as int;
    let t = triangular(s, k).unwrap();
    let last = triangular(s, n).unwrap();
    let f = fine();
    let three = thrice(n - k - 1);
    lemma_triangular_square(s, k);
    lemma_triangular_square(s, n);
    if triangular(s, k + 1) is None {
        lemma_triangular_none(s, k + 1, n);
    }
    let u = triangular(s, k + 1).unwrap();
    assert(eliminated(t, k) == Some(u));
    lemma_thrice(n - k - 1);
    assert(thrice(n - k) == 3 as real * three);
    assert(g * (3 as real * three) == 3 as real * g * three && b * (3 as real * three) == 3 as real
        * b * three) by (nonlinear_arith);
    assert(g <= g * (3 as real * three) && b <= b * (3 as real * three)) by (nonlinear_arith)
        requires
            three >= 1 as real,
            g >= 0 as real,
            b >= 0 as real,
    ;
    lemma_step_is_tame(t, k, g, b);
    lemma_row_stays(s, k, n);
    lemma_solution(last, 0);
    lemma_solution(last, k);
    lemma_solution(last, k + 1);
    assert(x[k] == solution_from(last, k)[0]) by {
        assert(x.skip(k)[0] == x[k]);
    }
    assert(x[k] == residue(u.a[k], u.b[k], x.skip(k + 1), k, n - k - 1));
    assert(g * w <= 0x4000_0000_0000_0000_0000 as real) by (nonlinear_arith)
        requires
            0 as real <= g,
            g <= 0x1_0000_0000 as real,
            0 as real <= w,
            w <= 0x1000_0000_0000 as real,
    ;
    lemma_unknown(t, k, x, g, b, w);
    let r = leftover(n - k - 1, 3 as real * g, 3 as real * b, w);
    lemma_leftover_positive(n - k - 1, 3 as real * g, 3 as real * b, w);
    assert forall|j: int| k < j < n implies size(#[trigger] rest_of(u, x, j, k + 1)) <= r by {
        lemma_equations(s, k + 1, x, 3 as real * g, 3 as real * b, w, j);
    }
    lemma_load(x, 0, k, n);
    lemma_step_rest(t, k, x, g, b, w, 50 as real * (g * w + b) * f, r, i);
    assert(50 as real * (g * w + b) * f + 10 as real * (g * w + b) * f == 60 as real * (g * w + b)
        * f) by (nonlinear_arith);
}

proof fn lemma_thrice(d: int)
    ensures
        thrice(d) >= 1 as real,
    decreases d,
{
    if d > 0 {
        lemma_thrice(d - 1);
    }
}

/// There is an unknown for every equation.
pub(crate) proof fn lemma_solved_length(s: System)
    requires
        solved(s) is Ok,
    ensures
        solved(s)->Ok_0.len() == s.b.len(),
{
    let n = s.b.len() as int;
    lemma_triangular_square(s, n);
    lemma_solution(triangular(s, n).unwrap(), 0);
}

/// The unknowns fulfil every equation of the system, but for rounding: what an
/// equation leaves over is small against the numbers of the system, `g`, the
/// right-hand sides, `b`, and the unknowns, `w`.
pub proof fn law_solution_fulfils_the_equations(
    s: System,
    x: Seq<Binary64>,
    g: real,
    b: real,
    w: real,
    i: int,
)
    requires
        solved(s) == Ok::<Seq<Binary64>, Seq<char>>(x),
        s.b.len() <= 4,
        0 <= i < s.b.len(),
        is_tame(s, 0, g, b),
        1 as real <= g <= 0x200_0000 as real,
        g <= b <= 0x1_0000_0000_0000_0000 as real,
        forall|j: int| 0 <= j < x.len() ==> (#[trigger] x[j]).is_finite(),
        load(x, 0, x.len() as int) <= w,
        0 as real <= w <= 0x1000_0000_0000 as real,
    ensures
        x.len() == s.b.len(),
        size(dot(s.a[i], x, 0, s.b.len() as int) - num64(s.b[i])) <= (g * w + b)
            / 0x200_0000_0000 as real + w / 0x20_0000_0000 as real,
{
    let n = s.b.len() as int;
    lemma_triangular_square(s, n);
    lemma_solution(triangular(s, n).unwrap(), 0);
    reveal_with_fuel(thrice, 5);
    reveal_with_fuel(leftover, 5);
    let three = thrice(n);
    assert(three <= 81 as real);
    lemma_thrice(n);
    assert(g * three <= 0x1_0000_0000 as real) by (nonlinear_arith)
        requires
            three <= 81 as real,
            three >= 0 as real,
            0 as real <= g,
            g <= 0x200_0000 as real,
    ;
    assert(b * three <= 0x100_0000_0000_0000_0000 as real) by (nonlinear_arith)
        requires
            three <= 81 as real,
            three >= 0 as real,
            0 as real <= b,
            b <= 0x1_0000_0000_0000_0000 as real,
    ;
    lemma_equations(s, 0, x, g, b, w, i);
    lemma_leftover_sum(n, g, b, w);
}

proof fn lemma_leftover_sum(n: int, g: real, b: real, w: real)
    requires
        0 <= n <= 4,
        g >= 0 as real,
        b >= 0 as real,
        w >= 0 as real,
    ensures
        leftover(n, g, b, w) <= (g * w + b) / 0x200_0000_0000 as real + w
            / 0x20_0000_0000 as real,
{
    reveal_with_fuel(leftover, 5);
    let f = fine();
    let c = g * w + b;
    assert(c >= 0 as real) by (nonlinear_arith)
        requires
            c == g * w + b,
            g >= 0 as real,
            b >= 0 as real,
            w >= 0 as real,
    ;
    let (g1, b1) = (3 as real * g, 3 as real * b);
    let (g2, b2) = (3 as real * g1, 3 as real * b1);
    let (g3, b3) = (3 as real * g2, 3 as real * b2);
    assert(g1 * w + b1 == 3 as real * c) by (nonlinear_arith)
        requires
            g1 == 3 as real * g,
            b1 == 3 as real * b,
            c == g * w + b,
    ;
    assert(g2 * w + b2 == 9 as real * c) by (nonlinear_arith)
        requires
            g2 == 9 as real * g,
            b2 == 9 as real * b,
            c == g * w + b,
    ;
    assert(g3 * w + b3 == 27 as real * c) by (nonlinear_arith)
        requires
            g3 == 27 as real * g,
            b3 == 27 as real * b,
            c == g * w + b,
    ;
    let k = c * f;
    assert(60 as real * c * f == 60 as real * k) by (nonlinear_arith)
        requires
            k == c * f,
    ;
    assert(60 as real * (3 as real * c) * f == 180 as real * k) by (nonlinear_arith)
        requires
            k == c * f,
    ;
    assert(60 as real * (9 as real * c) * f == 540 as real * k) by (nonlinear_arith)
        requires
            k == c * f,
    ;
    assert(60 as real * (27 as real * c) * f == 1620 as real * k) by (nonlinear_arith)
        requires
            k == c * f,
    ;
    assert(k * 0x1000 as real == c / 0x200_0000_0000 as real) by (nonlinear_arith)
        requires
            k == c * f,
            f == 1 as real / 0x20_0000_0000_0000 as real,
    ;
    assert(k >= 0 as real) by (nonlinear_arith)
        requires
            k == c * f,
            c >= 0 as real,
            f >= 0 as real,
    ;
}

} // verus!
