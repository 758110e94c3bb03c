//! Decimal literals of floating-point numbers.
//!
//! A literal is an optional sign and then `inf`, `infinity`, `nan`, or digits
//! with an optional decimal point and an optional exponent; letters count in
//! either case. A number's value is rounded once, to the nearest in the format.

use crate::bignat::BigNat;
use crate::binary::{Binary32, Binary64};
use crate::float::{
    infinity, lemma_hidden, lemma_quotient, make_nan, nan, nearest, round_digits, signed, Parts,
    Width,
};
use crate::rounding::{
    den2, half_even, is_ulp, lemma_pow2_mono, lemma_round_cancel, lemma_ulp_exists, lemma_ulp_is,
    round_mag, ulp,
};
use crate::text::{
    all_digits, digit_run, digits_value, equal_ignoring_case, is_digit, leading_digits,
    lemma_digit_run, same_ignoring_case, to_chars,
};
use vstd::arithmetic::power2::{
    lemma2_to64, lemma2_to64_rest, lemma_pow2_adds, lemma_pow2_pos, lemma_pow2_unfold, pow2,
};
use vstd::prelude::*;

verus! {

/// A power of ten.
pub open spec fn pow10(k: nat) -> nat
    decreases k,
{
    if k == 0 {
        1
    } else {
        10 * pow10((k - 1) as nat)
    }
}

/// What a literal says.
pub enum Literal {
    Nan,
    Infinite { neg: bool },
    /// The number spelled by `digits`, times ten to the `scale`.
    Finite { neg: bool, digits: Seq<char>, scale: int },
}

/// Whether a text starts with a minus sign, and the text after its sign.
pub open spec fn after_sign(s: Seq<char>) -> (bool, Seq<char>) {
    if s.len() > 0 && s[0] == '-' {
        (true, s.drop_first())
    } else if s.len() > 0 && s[0] == '+' {
        (false, s.drop_first())
    } else {
        (false, s)
    }
}

/// The exponent that a text spells: none at all, or `e` with a signed integer.
pub open spec fn exponent_of(s: Seq<char>) -> Option<int> {
    if s.len() == 0 {
        Some(0int)
    } else if s[0] != 'e' && s[0] != 'E' {
        None
    } else {
        let (neg, t) = after_sign(s.drop_first());
        if t.len() == 0 || !all_digits(t) {
            None
        } else if neg {
            Some(-digits_value(t))
        } else {
            Some(digits_value(t) as int)
        }
    }
}

/// The unsigned number that a text spells.
pub open spec fn number_of(neg: bool, t: Seq<char>) -> Option<Literal> {
    let a = digit_run(t) as int;
    let dot = a < t.len() && t[a] == '.';
    let u = t.skip(if dot {
        a + 1
    } else {
        a
    });
    let b = if dot {
        digit_run(u) as int
    } else {
        0
    };
    if a + b == 0 {
        None
    } else {
        match exponent_of(u.skip(b)) {
            Some(e) => Some(
                Literal::Finite { neg, digits: t.take(a) + u.take(b), scale: e - b },
            ),
            None => None,
        }
    }
}

/// What a text says, if it is a literal.
pub open spec fn literal_of(s: Seq<char>) -> Option<Literal> {
    let (neg, t) = after_sign(s);
    if same_ignoring_case(t, "inf"@) || same_ignoring_case(t, "infinity"@) {
        Some(Literal::Infinite { neg })
    } else if same_ignoring_case(t, "nan"@) {
        Some(Literal::Nan)
    } else {
        number_of(neg, t)
    }
}

/// The magnitude nearest to `d * 10^k`.
pub open spec fn decimal_mag(w: Width, d: nat, k: int) -> u64 {
    if d == 0 {
        0
    } else if k >= 0 {
        nearest(w, d * pow10(k as nat) * pow2(w.unit()), 1)
    } else {
        nearest(w, d * pow2(w.unit()), pow10((-k) as nat))
    }
}

/// The number that a text spells, rounded to the format.
pub open spec fn float_of(w: Width, s: Seq<char>) -> Option<Parts> {
    match literal_of(s) {
        None => None,
        Some(Literal::Nan) => Some(nan(w)),
        Some(Literal::Infinite { neg }) => Some(infinity(w, neg)),
        Some(Literal::Finite { neg, digits, scale }) => Some(
            signed(neg, decimal_mag(w, digits_value(digits), scale)),
        ),
    }
}

// ---- powers of ten and two ----

proof fn lemma_pow10_pos(k: nat)
    ensures
        pow10(k) > 0,
    decreases k,
{
    if k > 0 {
        lemma_pow10_pos((k - 1) as nat);
    }
}

pub proof fn lemma_pow10_adds(a: nat, b: nat)
    ensures
        pow10(a + b) == pow10(a) * pow10(b),
    decreases b,
{
    if b > 0 {
        lemma_pow10_adds(a, (b - 1) as nat);
        let (x, y) = (pow10(a) as int, pow10((b - 1) as nat) as int);
        assert(10 * (x * y) == x * (10 * y)) by (nonlinear_arith);
        assert((a + b - 1) as nat == a + (b - 1) as nat);
    } else {
        assert(pow10(a) * pow10(0) == pow10(a)) by (nonlinear_arith)
            requires
                pow10(0) == 1,
        ;
    }
}

proof fn lemma_pow10_mono(a: nat, b: nat)
    requires
        a <= b,
    ensures
        pow10(a) <= pow10(b),
    decreases b,
{
    if a < b {
        lemma_pow10_mono(a, (b - 1) as nat);
        lemma_pow10_pos((b - 1) as nat);
    }
}

/// `2^(13i) <= 10^(4i)` and `10^(3i) <= 2^(10i)`.
proof fn lemma_pow10_pow2(i: nat)
    ensures
        pow2(13 * i) <= pow10(4 * i),
        pow10(3 * i) <= pow2(10 * i),
    decreases i,
{
    lemma2_to64();
    if i > 0 {
        let k = (i - 1) as nat;
        lemma_pow10_pow2(k);
        lemma_pow2_adds(13 * k, 13);
        lemma_pow2_adds(10 * k, 10);
        lemma_pow10_adds(4 * k, 4);
        lemma_pow10_adds(3 * k, 3);
        assert(13 * k + 13 == 13 * i && 4 * k + 4 == 4 * i && 10 * k + 10 == 10 * i && 3 * k + 3
            == 3 * i);
        reveal_with_fuel(pow10, 5);
        assert(pow10(4) == 10000 && pow10(3) == 1000);
        lemma_pow10_pos(4 * k);
    }
}

/// Digits of which the first is not zero have the size that their number says.
proof fn lemma_digits_bound(s: Seq<char>)
    requires
        all_digits(s),
    ensures
        digits_value(s) < pow10(s.len()),
        s.len() > 0 && s[0] != '0' ==> pow10((s.len() - 1) as nat) <= digits_value(s),
    decreases s.len(),
{
    if s.len() > 0 {
        assert(is_digit(s.last()));
        assert(all_digits(s.drop_last()));
        lemma_digits_bound(s.drop_last());
        if s.len() == 1 {
            assert(digits_value(s.drop_last()) == 0);
        }
    }
}

/// A leading zero does not change the number.
pub proof fn lemma_leading_zero(s: Seq<char>)
    requires
        s.len() > 0,
        s[0] == '0',
    ensures
        digits_value(s.drop_first()) == digits_value(s),
    decreases s.len(),
{
    if s.len() > 1 {
        assert(s.drop_last().drop_first() == s.drop_first().drop_last());
        lemma_leading_zero(s.drop_last());
    } else {
        assert(s.drop_last().len() == 0);
        assert(digits_value(s.drop_last()) == 0);
    }
}

// ---- rounding ----

/// A ratio of at least `2^1300` is out of range.
proof fn lemma_round_large(w: Width, n: nat, d: nat)
    requires
        d > 0,
        d * pow2(w.unit() + 1300) <= n,
    ensures
        round_mag(w.prec(), w.inf(), n, d) == w.inf(),
{
    let p = w.prec();
    let j = ulp(p, n, d);
    lemma_ulp_exists(p, n, d);
    lemma_hidden(w);
    if p + j <= w.unit() + 1300 {
        lemma_pow2_mono(p + j, w.unit() + 1300);
        assert(d * pow2(p + j) <= d * pow2(w.unit() + 1300)) by (nonlinear_arith)
            requires
                pow2(p + j) <= pow2(w.unit() + 1300),
                d > 0,
        ;
    }
    assert(j >= 2048 || (w is Single && j >= 256));
    let h = w.hidden();
    assert(j * h >= w.inf()) by (nonlinear_arith)
        requires
            (j >= 2048 && h == 0x10_0000_0000_0000 && w.inf() == 0x7ff0_0000_0000_0000) || (j >= 256
                && h == 0x80_0000 && w.inf() == 0x7f80_0000),
    ;
}

/// Less than half a unit rounds to zero.
proof fn lemma_round_small(w: Width, n: nat, d: nat)
    requires
        2 * n < d,
    ensures
        round_mag(w.prec(), w.inf(), n, d) == 0,
{
    let p = w.prec();
    lemma2_to64();
    lemma_pow2_pos(p);
    assert(n < d * pow2(p + 0)) by (nonlinear_arith)
        requires
            2 * n < d,
            pow2(p + 0) > 0,
    ;
    assert(is_ulp(p, n, d, 0));
    lemma_ulp_is(p, n, d, 0);
    assert(d * pow2(0) == d) by (nonlinear_arith)
        requires
            pow2(0) == 1,
    ;
    vstd::arithmetic::div_mod::lemma_basic_div(n as int, d as int);
    vstd::arithmetic::div_mod::lemma_small_mod(n, d);
    assert(half_even(n, d) == 0);
    assert(0 * pow2((p - 1) as nat) == 0);
}

/// Rounds the ratio of two positive numbers, which is between `2^-1400` and
/// `2^1400`.
fn round_ratio(w: Width, num: BigNat, den: BigNat) -> (r: u64)
    requires
        num@ > 0,
        den@ > 0,
        num@ < den@ * pow2(1400),
        den@ <= num@ * pow2(1400),
    ensures
        r == round_mag(w.prec(), w.inf(), num@ * pow2(w.unit()), den@),
        r <= w.inf(),
{
    let ghost n0 = num@;
    let ghost d0 = den@;
    let mut n: BigNat = num;
    let mut d: BigNat = den;
    let mut k: i32 = 0;
    proof {
        lemma2_to64();
        assert(d0 * pow2(0) == d0) by (nonlinear_arith)
            requires
                pow2(0) == 1,
        ;
        assert(n0 * pow2(0) == n0) by (nonlinear_arith)
            requires
                pow2(0) == 1,
        ;
    }
    while n.at_least(&d)
        invariant
            n@ == n0,
            d0 > 0,
            n0 < d0 * pow2(1400),
            0 <= k <= 1400,
            d@ == d0 * pow2(k as nat),
        decreases 1400 - k,
    {
        proof {
            if k == 1400 {
                assert(false);
            }
            lemma_pow2_unfold((k + 1) as nat);
            let p = pow2(k as nat);
            assert(d0 * (2 * p) == (d0 * p) * 2) by (nonlinear_arith);
        }
        d.mul_add(2, 0);
        k += 1;
    }
    let ghost pk = pow2(k as nat);
    let ghost dk = d@;
    let mut c: i32 = 0;
    proof {
        lemma_pow2_pos(k as nat);
        assert(dk > 0) by (nonlinear_arith)
            requires
                dk == d0 * pk,
                d0 > 0,
                pk > 0,
        ;
        // d0 * 2^k <= n0 * 2^(1400 + k)
        lemma_pow2_adds(1400, k as nat);
        let p = pow2(1400);
        assert(d0 * pk <= n0 * (p * pk)) by (nonlinear_arith)
            requires
                d0 <= n0 * p,
                pk > 0,
        ;
    }
    while !n.at_least(&d)
        invariant
            d@ == dk,
            dk <= n0 * pow2((1400 + k) as nat),
            0 <= k <= 1400,
            0 <= c <= 1400 + k,
            n@ == n0 * pow2(c as nat),
            n@ < 2 * dk,
        decreases 1400 + k - c,
    {
        proof {
            if c == 1400 + k {
                assert(false);
            }
            lemma_pow2_unfold((c + 1) as nat);
            let p = pow2(c as nat);
            assert(n0 * (2 * p) == (n0 * p) * 2) by (nonlinear_arith);
        }
        n.mul_add(2, 0);
        c += 1;
    }
    let ghost nc = n@;
    let count: u32 = w.get_prec() + 3;
    let mut q: u128 = 0;
    let mut i: u32 = 0;
    proof {
        assert(nc * pow2(0) == nc) by (nonlinear_arith)
            requires
                pow2(0) == 1,
        ;
        assert(2 * q * dk == 0) by (nonlinear_arith)
            requires
                q == 0,
        ;
    }
    while i < count
        invariant
            i <= count,
            count <= 56,
            d@ == dk,
            dk > 0,
            nc < 2 * dk,
            n@ < 2 * dk,
            nc * pow2(i as nat) == 2 * q * dk + n@,
            i > 0 ==> n@ % 2 == 0,
            q < pow2(i as nat),
        decreases count - i,
    {
        proof {
            lemma_pow2_unfold((i + 1) as nat);
            lemma2_to64();
            lemma2_to64_rest();
            lemma_pow2_mono(i as nat, 56);
            let p = pow2(i as nat) as int;
            assert(nc * (2 * p) == 2 * (nc * p)) by (nonlinear_arith);
            assert(2 * (2 * q + 1) * dk == 2 * (2 * q * dk) + 2 * dk) by (nonlinear_arith);
            assert(2 * (2 * q) * dk == 2 * (2 * q * dk)) by (nonlinear_arith);
        }
        if n.at_least(&d) {
            n.subtract(&d);
            q = 2 * q + 1;
        } else {
            q = 2 * q;
        }
        n.mul_add(2, 0);
        i += 1;
    }
    let exact: bool = n.is_zero();
    let e: i32 = k - c - (count as i32 - 1) + w.get_unit();
    let ghost t = (c + count - 1) as nat;
    let ghost rem = n@ / 2;
    let ghost top = (n0 * pk) * pow2(w.unit());
    let ghost pe = pow2(if e >= 0 { e as nat } else { 0 });
    proof {
        lemma_pow2_unfold(count as nat);
        let half = pow2((count - 1) as nat) as int;
        // nc * 2^(count - 1) == q * dk + rem
        assert(nc * (2 * half) == 2 * (nc * half)) by (nonlinear_arith);
        assert(2 * q * dk == 2 * (q * dk)) by (nonlinear_arith);
        assert(nc * half == q * dk + rem);
        lemma_pow2_adds(c as nat, (count - 1) as nat);
        let pc = pow2(c as nat) as int;
        assert((n0 * pc) * half == n0 * (pc * half)) by (nonlinear_arith);
        lemma_quotient(w, n0, k as nat, dk, 0, q as nat, rem, t);
        assert(e == k + w.unit() - 0 - t);
        lemma2_to64();
        let one = pow2(0) as int;
        assert((q * dk + rem) * one * pe == q * pe * dk + rem * pe) by (nonlinear_arith)
            requires
                one == 1,
        ;
        lemma_pow2_pos(if e >= 0 { e as nat } else { 0 });
        assert((q + 1) * pe * dk == q * pe * dk + dk * pe) by (nonlinear_arith);
        assert(0 <= rem * pe < dk * pe) by (nonlinear_arith)
            requires
                0 <= rem < dk,
                pe > 0,
        ;
        assert(rem == 0 <==> rem * pe == 0) by (nonlinear_arith)
            requires
                pe > 0,
        ;
        assert(top * den2(e as int) == q * pe * dk + rem * pe);
        // q >= 2^(count - 1)
        lemma_hidden(w);
        assert(q >= half) by (nonlinear_arith)
            requires
                nc * half == q * dk + rem,
                rem < dk,
                nc >= dk,
                half > 0,
                dk > 0,
        ;
        lemma_pow2_mono(w.prec(), (count - 1) as nat);
        lemma2_to64_rest();
        lemma_pow2_mono(count as nat, 56);
        // the common factor 2^k
        lemma_round_cancel(w.prec(), w.inf(), n0 * pow2(w.unit()), d0, pk);
        let pu = pow2(w.unit()) as int;
        assert((n0 * pu) * pk == (n0 * pk) * pu) by (nonlinear_arith);
    }
    round_digits(w, q, e, exact, Ghost(top), Ghost(dk))
}

/// Rounds the number spelled by `digits` times ten to the `scale`; the first
/// digit is not zero, and the number is between `10^-401` and `10^400`.
fn round_exact(w: Width, digits: &[char], scale: i128) -> (r: u64)
    requires
        all_digits(digits@),
        digits@.len() > 0,
        digits@[0] != '0',
        -400 <= digits@.len() + scale <= 400,
    ensures
        r == decimal_mag(w, digits_value(digits@), scale as int),
        r <= w.inf(),
{
    let ghost m = digits_value(digits@);
    let ghost len = digits@.len();
    let mut num: BigNat = BigNat::zero();
    let mut i: usize = 0;
    while i < digits.len()
        invariant
            all_digits(digits@),
            i <= digits@.len(),
            num@ == digits_value(digits@.take(i as int)),
        decreases digits@.len() - i,
    {
        let c: char = digits[i];
        assert(is_digit(c));
        num.mul_add(10, c as u32 - '0' as u32);
        i += 1;
        assert(digits@.take(i as int).drop_last() == digits@.take(i as int - 1));
    }
    assert(digits@.take(i as int) == digits@);
    let mut den: BigNat = BigNat::small(1);
    let mut k: i128 = 0;
    proof {
        lemma_digits_bound(digits@);
        lemma_pow10_pos((len - 1) as nat);
        assert(m * pow10(0) == m) by (nonlinear_arith)
            requires
                pow10(0) == 1,
        ;
    }
    if scale >= 0 {
        while k < scale
            invariant
                0 <= k <= scale,
                num@ == m * pow10(k as nat),
            decreases scale - k,
        {
            num.mul_add(10, 0);
            k += 1;
            assert(m * (10 * pow10((k - 1) as nat)) == (m * pow10((k - 1) as nat)) * 10)
                by (nonlinear_arith);
        }
    } else {
        assert(digits@.len() <= usize::MAX);
        while k < -scale
            invariant
                scale < 0,
                scale >= -0x1_0000_0000_0000_0190,
                0 <= k <= -scale,
                den@ == pow10(k as nat),
            decreases -scale - k,
        {
            den.mul_add(10, 0);
            k += 1;
        }
    }
    proof {
        lemma_bounds(m, len, scale as int);
        if scale < 0 {
            lemma_pow10_pos((-scale) as nat);
        } else {
            let p = pow10(scale as nat);
            lemma_pow10_pos(scale as nat);
            assert(m * p > 0) by (nonlinear_arith)
                requires
                    m > 0,
                    p > 0,
            ;
        }
    }
    round_ratio(w, num, den)
}

/// The numerator and denominator of `m * 10^k`.
spec fn decimal_ratio(m: nat, k: int) -> (nat, nat) {
    if k >= 0 {
        (m * pow10(k as nat), 1)
    } else {
        (m, pow10((-k) as nat))
    }
}

/// A number with `len` digits before scaling lies between the powers of ten
/// around `len + k`.
proof fn lemma_decimal_size(m: nat, len: nat, k: int, lo: nat, hi: nat)
    requires
        len > 0,
        pow10((len - 1) as nat) <= m < pow10(len),
    ensures
        lo <= len - 1 + k ==> decimal_ratio(m, k).1 * pow10(lo) <= decimal_ratio(m, k).0,
        len + k <= hi ==> decimal_ratio(m, k).0 < decimal_ratio(m, k).1 * pow10(hi),
        0 <= -(len - 1 + k) <= lo ==> decimal_ratio(m, k).1 <= decimal_ratio(m, k).0 * pow10(lo),
        0 <= hi <= -(len + k) ==> decimal_ratio(m, k).0 * pow10(hi) < decimal_ratio(m, k).1,
{
    let (n, d) = decimal_ratio(m, k);
    let ml = pow10((len - 1) as nat);
    let mh = pow10(len);
    lemma_pow10_pos((len - 1) as nat);
    lemma_pow10_pos(len);
    if k >= 0 {
        let p = pow10(k as nat);
        lemma_pow10_pos(k as nat);
        lemma_pow10_adds((len - 1) as nat, k as nat);
        lemma_pow10_adds(len, k as nat);
        assert(ml * p <= m * p < mh * p) by (nonlinear_arith)
            requires
                ml <= m < mh,
                p > 0,
        ;
        if lo <= len - 1 + k {
            lemma_pow10_mono(lo, (len - 1) as nat + k as nat);
        }
        if len + k <= hi {
            lemma_pow10_mono(len + k as nat, hi);
        }
        let pl = pow10(lo);
        lemma_pow10_pos(lo);
        assert(m * p * pl >= 1) by (nonlinear_arith)
            requires
                m > 0,
                p > 0,
                pl > 0,
        ;
    } else {
        let e = (-k) as nat;
        lemma_pow10_pos(e);
        if lo <= len - 1 + k {
            lemma_pow10_adds(e, lo);
            lemma_pow10_mono(e + lo, (len - 1) as nat);
        }
        if len + k <= hi {
            lemma_pow10_adds(e, hi);
            lemma_pow10_mono(len, e + hi);
        }
        if 0 <= -(len - 1 + k) <= lo {
            lemma_pow10_adds((len - 1) as nat, lo);
            lemma_pow10_mono(e, (len - 1) as nat + lo);
            let pl = pow10(lo);
            assert(ml * pl <= m * pl) by (nonlinear_arith)
                requires
                    ml <= m,
            ;
        }
        if 0 <= hi <= -(len + k) {
            lemma_pow10_adds(len, hi);
            lemma_pow10_mono(len + hi, e);
            let ph = pow10(hi);
            lemma_pow10_pos(hi);
            assert(m * ph < mh * ph) by (nonlinear_arith)
                requires
                    m < mh,
                    ph > 0,
            ;
        }
    }
}

proof fn lemma_bounds(m: nat, len: nat, k: int)
    requires
        len > 0,
        pow10((len - 1) as nat) <= m < pow10(len),
        -400 <= len + k <= 400,
    ensures
        decimal_ratio(m, k).0 < decimal_ratio(m, k).1 * pow2(1400),
        decimal_ratio(m, k).1 <= decimal_ratio(m, k).0 * pow2(1400),
{
    let (n, d) = decimal_ratio(m, k);
    lemma_decimal_size(m, len, k, 401, 400);
    lemma_decimal_size(m, len, k, 0, 400);
    lemma_pow10_pow2(134);
    assert(3 * 134 == 402nat && 10 * 134 == 1340nat);
    lemma_pow10_mono(400, 402);
    lemma_pow10_mono(401, 402);
    lemma_pow2_mono(1340, 1400);
    let p = pow2(1400);
    let (p400, p401) = (pow10(400), pow10(401));
    assert(d * p400 <= d * p) by (nonlinear_arith)
        requires
            p400 <= p,
    ;
    assert(n * p401 <= n * p) by (nonlinear_arith)
        requires
            p401 <= p,
    ;
    if len - 1 + k >= 0 {
        // d <= n
        assert(pow10(0) == 1);
        assert(d * pow10(0) == d) by (nonlinear_arith)
            requires
                pow10(0) == 1,
        ;
        assert(n <= n * p) by (nonlinear_arith)
            requires
                p > 0,
        ;
    }
}

/// Rounds a number of at least `10^400`, and one below `10^-400`.
proof fn lemma_extremes(w: Width, m: nat, len: nat, k: int)
    requires
        len > 0,
        pow10((len - 1) as nat) <= m < pow10(len),
    ensures
        len + k > 400 ==> decimal_mag(w, m, k) == w.inf(),
        len + k < -400 ==> decimal_mag(w, m, k) == 0,
{
    let (n, d) = decimal_ratio(m, k);
    let u = w.unit();
    let pu = pow2(u);
    lemma_pow10_pow2(100);
    assert(4 * 100 == 400nat && 13 * 100 == 1300nat);
    lemma_pow2_pos(u);
    lemma_pow10_pos((len - 1) as nat);
    let (p10, p2) = (pow10(400), pow2(1300));
    if k < 0 {
        lemma_pow10_pos((-k) as nat);
    }
    if len + k > 400 {
        lemma_decimal_size(m, len, k, 400, 0);
        lemma_pow2_adds(u, 1300);
        assert(d * (pu * p2) <= n * pu) by (nonlinear_arith)
            requires
                d * p10 <= n,
                p2 <= p10,
        ;
        lemma_round_large(w, n * pu, d);
    }
    if len + k < -400 {
        lemma_decimal_size(m, len, k, 0, 400);
        lemma_pow2_mono(u, 1074);
        lemma_pow2_unfold(1075);
        lemma_pow2_mono(1075, 1300);
        assert(2 * (n * pu) < d) by (nonlinear_arith)
            requires
                n * p10 < d,
                2 * pu <= p2,
                p2 <= p10,
        ;
        lemma_round_small(w, n * pu, d);
    }
}

/// Removes leading zeros.
fn skip_zeros<'a>(s: &'a [char]) -> (r: &'a [char])
    requires
        all_digits(s@),
    ensures
        all_digits(r@),
        r@.len() <= s@.len(),
        r@.len() > 0 ==> r@[0] != '0',
        digits_value(r@) == digits_value(s@),
{
    let n: usize = s.len();
    let mut i: usize = 0;
    assert(s@.skip(0) == s@);
    while i < n && s[i] == '0'
        invariant
            n == s@.len(),
            i <= n,
            digits_value(s@.skip(i as int)) == digits_value(s@),
        decreases n - i,
    {
        proof {
            lemma_leading_zero(s@.skip(i as int));
            assert(s@.skip(i as int).drop_first() == s@.skip(i as int + 1));
        }
        i += 1;
    }
    assert(s@.subrange(i as int, n as int) == s@.skip(i as int));
    &s[i..n]
}

/// `scale` is `power`, or both are far out on the same side.
spec fn stands_for(scale: int, power: int) -> bool {
    ||| scale == power
    ||| scale >= 0x1_0000_0000_0000_0000_0000 && power >= 0x1_0000_0000_0000_0000_0000
    ||| scale <= -0x1_0000_0000_0000_0000_0000 && power <= -0x1_0000_0000_0000_0000_0000
}

/// Rounds the number spelled by `digits` times ten to a power.
fn round_decimal(w: Width, digits: &[char], scale: i128, Ghost(power): Ghost<int>) -> (r: u64)
    requires
        all_digits(digits@),
        -0x1_0000_0000_0000_0000_0000_0000_0000 <= scale
            <= 0x1_0000_0000_0000_0000_0000_0000_0000,
        stands_for(scale as int, power),
    ensures
        r == decimal_mag(w, digits_value(digits@), power),
        r <= w.inf(),
{
    let s: &[char] = skip_zeros(digits);
    let n: usize = s.len();
    if n == 0 {
        return 0;
    }
    let m: i128 = n as i128 + scale;
    proof {
        lemma_digits_bound(s@);
        lemma_pow10_pos((n - 1) as nat);
        lemma_extremes(w, digits_value(s@), n as nat, power);
    }
    if m > 400 {
        w.get_inf()
    } else if m < -400 {
        0
    } else {
        round_exact(w, s, scale)
    }
}

// ---- reading ----

const CAP: u128 = 0x1_0000_0000_0000_0000_0000_0000;

proof fn lemma_value_take(s: Seq<char>, n: int)
    requires
        0 <= n <= s.len(),
    ensures
        digits_value(s.take(n)) <= digits_value(s),
    decreases s.len(),
{
    if n < s.len() {
        assert(s.take(n) == s.drop_last().take(n));
        lemma_value_take(s.drop_last(), n);
    } else {
        assert(s.take(n) == s);
    }
}

/// Reads digits; a number beyond `CAP` comes out as `CAP`.
fn read_capped(s: &[char]) -> (r: u128)
    requires
        all_digits(s@),
    ensures
        r <= CAP,
        r == digits_value(s@) || (r == CAP && digits_value(s@) >= CAP),
{
    let mut v: u128 = 0;
    let mut i: usize = 0;
    while i < s.len()
        invariant
            all_digits(s@),
            i <= s@.len(),
            v <= CAP,
            v == digits_value(s@.take(i as int)),
        decreases s@.len() - i,
    {
        let c: char = s[i];
        proof {
            assert(is_digit(c));
            let t = s@.take(i as int + 1);
            assert(t.drop_last() == s@.take(i as int));
            lemma_value_take(s@, i as int + 1);
        }
        v = 10 * v + (c as u32 - '0' as u32) as u128;
        if v > CAP {
            return CAP;
        }
        i += 1;
    }
    assert(s@.take(i as int) == s@);
    v
}

/// Splits off the sign.
fn split_sign<'a>(s: &'a [char]) -> (r: (bool, &'a [char]))
    ensures
        (r.0, r.1@) == after_sign(s@),
{
    let n: usize = s.len();
    if n > 0 && (s[0] == '-' || s[0] == '+') {
        assert(s@.subrange(1, n as int) == s@.drop_first());
        (s[0] == '-', &s[1..n])
    } else {
        (false, s)
    }
}

/// Whether a text is all digits, and at least one.
fn is_number(s: &[char]) -> (r: bool)
    ensures
        r == (s@.len() > 0 && all_digits(s@)),
{
    let n: usize = leading_digits(s);
    proof {
        lemma_digit_run(s@);
        if n == s@.len() {
            assert(s@.take(n as int) == s@);
        }
    }
    s.len() > 0 && n == s.len()
}

/// Reads an exponent; one that is far out comes out as another on its side.
fn read_exponent(s: &[char]) -> (r: Option<i128>)
    ensures
        r is None <==> exponent_of(s@) is None,
        r matches Some(e) ==> -CAP <= e <= CAP && (e == exponent_of(s@)->0 || (e == CAP
            && exponent_of(s@)->0 >= CAP) || (e == -CAP && exponent_of(s@)->0 <= -CAP)),
{
    let n: usize = s.len();
    if n == 0 {
        return Some(0);
    }
    if s[0] != 'e' && s[0] != 'E' {
        return None;
    }
    assert(s@.subrange(1, n as int) == s@.drop_first());
    let (neg, t) = split_sign(&s[1..n]);
    if !is_number(t) {
        return None;
    }
    let v: i128 = read_capped(t) as i128;
    if neg {
        Some(-v)
    } else {
        Some(v)
    }
}

/// Reads an unsigned number.
fn read_number(w: Width, neg: bool, t: &[char]) -> (r: Option<Parts>)
    ensures
        r == (match number_of(neg, t@) {
            Some(Literal::Finite { neg, digits, scale }) => Some(
                signed(neg, decimal_mag(w, digits_value(digits), scale)),
            ),
            _ => None,
        }),
        r matches Some(p) ==> p.mag <= w.inf(),
{
    let n: usize = t.len();
    let a: usize = leading_digits(t);
    let dot: bool = a < n && t[a] == '.';
    let from: usize = if dot {
        a + 1
    } else {
        a
    };
    assert(t@.subrange(from as int, n as int) == t@.skip(from as int));
    let u: &[char] = &t[from..n];
    let b: usize = if dot {
        leading_digits(u)
    } else {
        0
    };
    if a == 0 && b == 0 {
        return None;
    }
    assert(u@.subrange(b as int, u@.len() as int) == u@.skip(b as int));
    match read_exponent(&u[b..u.len()]) {
        None => None,
        Some(e) => {
            let ghost e0 = exponent_of(u@.skip(b as int))->0;
            let mut digits: Vec<char> = crate::text::copy(&t[0..a]);
            crate::text::append(&mut digits, &u[0..b]);
            proof {
                lemma_digit_run(t@);
                lemma_digit_run(u@);
                assert(t@.subrange(0, a as int) == t@.take(a as int));
                assert(u@.subrange(0, b as int) == u@.take(b as int));
                assert(digits@ == t@.take(a as int) + u@.take(b as int));
                assert forall|i: int| 0 <= i < digits@.len() implies is_digit(
                    #[trigger] digits@[i],
                ) by {
                    if i < a {
                        assert(digits@[i] == t@.take(a as int)[i]);
                    } else {
                        assert(digits@[i] == u@.take(b as int)[i - a]);
                    }
                }
            }
            let mag: u64 = round_decimal(
                w,
                digits.as_slice(),
                e - b as i128,
                Ghost(e0 - b),
            );
            Some(Parts { neg, mag })
        },
    }
}

/// Reads a literal.
pub fn read_float(w: Width, s: &[char]) -> (r: Option<Parts>)
    ensures
        r == float_of(w, s@),
        r matches Some(p) ==> p.mag < w.inf() + w.hidden(),
{
    let (neg, t) = split_sign(s);
    let inf: Vec<char> = to_chars("inf");
    let infinity: Vec<char> = to_chars("infinity");
    let not: Vec<char> = to_chars("nan");
    if equal_ignoring_case(t, inf.as_slice()) || equal_ignoring_case(t, infinity.as_slice()) {
        Some(Parts { neg, mag: w.get_inf() })
    } else if equal_ignoring_case(t, not.as_slice()) {
        Some(make_nan(w))
    } else {
        read_number(w, neg, t)
    }
}

impl Binary32 {
    /// The number that a text spells, if it is a literal.
    pub open spec fn literal(s: Seq<char>) -> Option<Binary32> {
        match float_of(Width::Single, s) {
            Some(p) => Some(Binary32::of(p)),
            None => None,
        }
    }

    /// Reads a literal, rounded to single precision.
    pub fn parse(s: &[char]) -> (r: Option<Binary32>)
        ensures
            r == Binary32::literal(s@),
    {
        match read_float(Width::Single, s) {
            Some(p) => Some(Binary32::join(p)),
            None => None,
        }
    }
}

impl Binary64 {
    /// The number that a text spells, if it is a literal.
    pub open spec fn literal(s: Seq<char>) -> Option<Binary64> {
        match float_of(Width::Double, s) {
            Some(p) => Some(Binary64::of(p)),
            None => None,
        }
    }

    /// Reads a literal, rounded to double precision.
    pub fn parse(s: &[char]) -> (r: Option<Binary64>)
        ensures
            r == Binary64::literal(s@),
    {
        match read_float(Width::Double, s) {
            Some(p) => Some(Binary64::join(p)),
            None => None,
        }
    }
}

} // verus!
