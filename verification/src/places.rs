//! What six decimals keep of a number.

use crate::decimal::{
    decimal_mag, exponent_of, float_of, lemma_leading_zero, literal_of, number_of, pow10, Literal,
};
use crate::fixed::{last_places, with_point, zeros};
use crate::float::{
    law_nearest_is_nearest, lemma_half_even_range, lemma_hidden, lemma_mag, lemma_pattern_units,
    mag_exp, mag_man, nearest, signed, units, Width,
};
use crate::rounding::{half_even, is_ulp, lemma_pow2_mono, lemma_ulp_exists, lemma_ulp_is, ulp};
use crate::text::{
    all_digits, decimal, digit_char, digits_value, is_digit, lemma_digits_then, lower_all,
    same_ignoring_case,
};
use vstd::arithmetic::div_mod::{lemma_fundamental_div_mod, lemma_fundamental_div_mod_converse};
use vstd::arithmetic::power2::{lemma2_to64, lemma_pow2_adds, lemma_pow2_pos, pow2};
use vstd::prelude::*;

verus! {

// ---- the text ----

/// Digits in decimal spell the number they were written for.
pub proof fn lemma_decimal_spells(n: nat)
    ensures
        all_digits(decimal(n)),
        decimal(n).len() > 0,
        digits_value(decimal(n)) == n,
    decreases n,
{
    let d = decimal(n);
    if n < 10 {
        assert(d.drop_last() =~= Seq::empty());
        assert(digits_value(d.drop_last()) == 0);
        assert(d.last() == digit_char(n));
    } else {
        lemma_decimal_spells(n / 10);
        let t = decimal(n / 10);
        assert(d == t.push(digit_char(n % 10)));
        assert(d.drop_last() =~= t);
        assert(d.last() == digit_char(n % 10));
        assert forall|i: int| 0 <= i < d.len() implies is_digit(#[trigger] d[i]) by {
            if i < t.len() {
                assert(d[i] == t[i]);
            }
        }
    }
}

/// Zeros in front do not change what digits spell.
pub(crate) proof fn lemma_zeros_spell(k: int, d: Seq<char>)
    requires
        all_digits(d),
    ensures
        all_digits(zeros(k) + d),
        digits_value(zeros(k) + d) == digits_value(d),
    decreases k,
{
    let s = zeros(k) + d;
    assert forall|i: int| 0 <= i < s.len() implies is_digit(#[trigger] s[i]) by {
        if i >= zeros(k).len() {
            assert(s[i] == d[i - zeros(k).len()]);
        }
    }
    if k <= 0 {
        assert(s =~= d);
    } else {
        lemma_zeros_spell(k - 1, d);
        assert(s[0] == '0');
        assert(s.drop_first() =~= zeros(k - 1) + d);
        lemma_leading_zero(s);
    }
}

/// A number that was written with six decimals reads as that many millionths.
pub proof fn lemma_places_read(q: nat)
    ensures
        float_of(Width::Single, with_point(q, 6)) == Some(
            signed(false, decimal_mag(Width::Single, q, -6)),
        ),
{
    reveal_strlit(".");
    reveal_strlit("inf");
    reveal_strlit("infinity");
    reveal_strlit("nan");
    let d = decimal(q);
    lemma_decimal_spells(q);
    let s = zeros(7 - d.len()) + d;
    lemma_zeros_spell(7 - d.len(), d);
    let k = s.len() - 6;
    let (a, b) = (s.take(k), s.skip(k));
    let t = a + "."@ + b;
    assert(t == with_point(q, 6));
    assert(all_digits(a)) by {
        assert forall|i: int| 0 <= i < a.len() implies is_digit(#[trigger] a[i]) by {
            assert(a[i] == s[i]);
        }
    }
    assert(all_digits(b)) by {
        assert forall|i: int| 0 <= i < b.len() implies is_digit(#[trigger] b[i]) by {
            assert(b[i] == s[k + i]);
        }
    }
    let tail = "."@ + b;
    assert(t =~= a + tail);
    assert(tail[0] == '.');
    lemma_digits_then(a, tail);
    assert(t[k] == '.');
    assert(t.skip(k + 1) =~= b);
    let none = Seq::<char>::empty();
    lemma_digits_then(b, none);
    assert(b + none =~= b);
    assert(b.skip(6) =~= none);
    assert(b.take(6) =~= b);
    assert(t.take(k) =~= a);
    assert(a + b =~= s);
    assert(exponent_of(none) == Some(0int));
    assert(number_of(false, t) == Some(
        Literal::Finite { neg: false, digits: s, scale: -6 },
    ));
    assert(t[0] == a[0]);
    assert(is_digit(t[0]));
    assert(lower_all(t)[0] == t[0]);
    assert(lower_all("inf"@)[0] == 'i');
    assert(lower_all("infinity"@)[0] == 'i');
    assert(lower_all("nan"@)[0] == 'n');
    assert(!same_ignoring_case(t, "inf"@));
    assert(!same_ignoring_case(t, "infinity"@));
    assert(!same_ignoring_case(t, "nan"@));
    assert(literal_of(t) == number_of(false, t));
}

// ---- rounding ----

pub proof fn lemma_million()
    ensures
        pow10(6) == 1_000_000,
{
    reveal_with_fuel(pow10, 7);
}

/// A number that is less than half away from an integer rounds to it.
proof fn lemma_rounds_to(n: nat, d: nat, k: nat)
    requires
        d > 0,
        2 * (n - k * d) < d,
        2 * (k * d - n) < d,
    ensures
        half_even(n, d) == k,
{
    if n >= k * d {
        let r = n - k * d;
        lemma_fundamental_div_mod_converse(n as int, d as int, k as int, r);
    } else {
        let r = n - (k - 1) * d;
        assert(k > 0) by {
            if k == 0 {
                assert(k * d == 0) by (nonlinear_arith)
                    requires
                        k == 0,
                ;
            }
        }
        assert((k - 1) * d == k * d - d) by (nonlinear_arith);
        lemma_fundamental_div_mod_converse(n as int, d as int, k - 1, r);
    }
}

/// A number is at most half away from the integer that it rounds to.
pub(crate) proof fn lemma_rounding_error(n: nat, d: nat)
    requires
        d > 0,
    ensures
        2 * (n - half_even(n, d) * d) <= d,
        2 * (half_even(n, d) * d - n) <= d,
{
    let (q, r) = (n / d, n % d);
    lemma_fundamental_div_mod(n as int, d as int);
    assert(q * d == d * q) by (nonlinear_arith);
    assert((q + 1) * d == q * d + d) by (nonlinear_arith);
}

// ---- millionths ----

/// The spacing around some millionths.
proof fn lemma_millionths_ulp(k: nat, j: nat)
    requires
        k > 0,
        j == ulp(24, k * pow2(149), 1_000_000),
    ensures
        is_ulp(24, k * pow2(149), 1_000_000, j),
        j > 0,
        k < 16_000_000 ==> j <= 129,
        k <= 16_000_000 ==> j <= 130,
        k >= 16_000_000 ==> j >= 130,
{
    let (u, d) = (pow2(149), 1_000_000nat);
    let n = k * u;
    lemma2_to64();
    lemma_pow2_pos(149);
    lemma_ulp_exists(24, n, d);
    assert(n >= u) by (nonlinear_arith)
        requires
            k > 0,
            n == k * u,
    ;
    lemma_pow2_adds(24, 125);
    lemma_pow2_adds(4, 149);
    if j == 0 {
        lemma_pow2_pos(125);
        assert(u == pow2(24) * pow2(125));
        lemma_pow2_mono(20, 125);
        assert(pow2(24) * pow2(125) >= pow2(24) * 1_000_000) by (nonlinear_arith)
            requires
                pow2(125) >= pow2(20),
                pow2(20) == 1_048_576,
        ;
    }
    if j >= 130 && k < 16_000_000 {
        lemma_pow2_mono(153, (23 + j) as nat);
        assert(d * pow2((23 + j) as nat) >= d * (16 * u)) by (nonlinear_arith)
            requires
                pow2((23 + j) as nat) >= pow2(153),
                pow2(153) == 16 * u,
        ;
        assert(k * u < d * (16 * u)) by (nonlinear_arith)
            requires
                k < 16_000_000,
                d == 1_000_000,
                u > 0,
        ;
    }
    if j >= 131 && k <= 16_000_000 {
        lemma_pow2_mono(154, (23 + j) as nat);
        lemma_pow2_adds(1, 153);
        assert(d * pow2((23 + j) as nat) >= d * (32 * u)) by (nonlinear_arith)
            requires
                pow2((23 + j) as nat) >= pow2(154),
                pow2(154) == 32 * u,
        ;
        assert(k * u < d * (32 * u)) by (nonlinear_arith)
            requires
                k <= 16_000_000,
                d == 1_000_000,
                u > 0,
        ;
    }
    if j < 130 && k >= 16_000_000 {
        lemma_pow2_mono(24 + j, 153);
        assert(d * pow2(24 + j) <= d * (16 * u)) by (nonlinear_arith)
            requires
                pow2(24 + j) <= pow2(153),
                pow2(153) == 16 * u,
        ;
        assert(k * u >= d * (16 * u)) by (nonlinear_arith)
            requires
                k >= 16_000_000,
                d == 1_000_000,
                u > 0,
        ;
    }
}

/// How many spacings some millionths are.
proof fn lemma_millionths_man(k: nat, j: nat)
    requires
        k > 0,
        j == ulp(24, k * pow2(149), 1_000_000),
    ensures
        0x80_0000 <= half_even(k * pow2(149), 1_000_000 * pow2(j)) <= 0x100_0000,
{
    let (u, d) = (pow2(149), 1_000_000nat);
    let n = k * u;
    lemma_millionths_ulp(k, j);
    lemma2_to64();
    lemma_pow2_pos(j);
    lemma_pow2_adds(23, j);
    lemma_pow2_adds(24, j);
    let dj = d * pow2(j);
    assert(dj > 0) by (nonlinear_arith)
        requires
            dj == d * pow2(j),
            d == 1_000_000,
            pow2(j) > 0,
    ;
    assert(0x80_0000 * dj == d * pow2((24 + j - 1) as nat)) by (nonlinear_arith)
        requires
            dj == d * pow2(j),
            pow2((24 + j - 1) as nat) == 0x80_0000 * pow2(j),
    ;
    assert(0x100_0000 * dj == d * pow2(24 + j)) by (nonlinear_arith)
        requires
            dj == d * pow2(j),
            pow2(24 + j) == 0x100_0000 * pow2(j),
    ;
    lemma_half_even_range(n, dj, 0x80_0000, 0x100_0000);
}

/// The pattern nearest to some millionths.
proof fn lemma_millionths(k: nat)
    requires
        k > 0,
    ensures
        ({
            let j = ulp(24, k * pow2(149), 1_000_000);
            let h = half_even(k * pow2(149), 1_000_000 * pow2(j));
            let m = nearest(Width::Single, k * pow2(149), 1_000_000);
            &&& m > 0
            &&& k <= 16_000_000 ==> m < 0x7f80_0000
            &&& m < 0x7f80_0000 ==> m == j * 0x80_0000 + h
        }),
{
    let j = ulp(24, k * pow2(149), 1_000_000);
    lemma_millionths_ulp(k, j);
    lemma_millionths_man(k, j);
    lemma_hidden(Width::Single);
}

/// Millionths below sixteen survive being rounded to a number.
proof fn lemma_small_places(k: nat)
    requires
        0 < k < 16_000_000,
    ensures
        last_places(
            Width::Single,
            nearest(Width::Single, k * pow2(149), 1_000_000) as nat,
            6,
        ) == k,
{
    let (u, d) = (pow2(149), 1_000_000nat);
    let n = k * u;
    let j = ulp(24, n, d);
    let dj = d * pow2(j);
    let h = half_even(n, dj);
    lemma_millionths(k);
    lemma_millionths_ulp(k, j);
    lemma_millionths_man(k, j);
    lemma_pattern_units(Width::Single, j, h);
    lemma_million();
    lemma_pow2_pos(j);
    lemma_pow2_pos(149);
    assert(dj > 0) by (nonlinear_arith)
        requires
            dj == d * pow2(j),
            d == 1_000_000,
            pow2(j) > 0,
    ;
    lemma_rounding_error(n, dj);
    lemma2_to64();
    lemma_pow2_adds(20, 129);
    lemma_pow2_mono(j, 129);
    assert(dj < u) by (nonlinear_arith)
        requires
            dj == d * pow2(j),
            d == 1_000_000,
            0 < pow2(j) <= pow2(129),
            u == 1_048_576 * pow2(129),
    ;
    let x = h * pow2(j) * d;
    assert(x == h * dj) by (nonlinear_arith)
        requires
            x == h * pow2(j) * d,
            dj == d * pow2(j),
    ;
    lemma_rounds_to(x, u, k);
}

/// A number of at least sixteen survives being written with six decimals.
proof fn lemma_large_places(mag: nat)
    requires
        mag < 0x7f80_0000,
        mag_exp(Width::Single, mag) >= 130,
    ensures
        ({
            let q = last_places(Width::Single, mag, 6);
            q > 0 && nearest(Width::Single, q * pow2(149), 1_000_000) == mag
        }),
{
    let w = Width::Single;
    let (u, d) = (pow2(149), 1_000_000nat);
    let (j, h) = (mag_exp(w, mag), mag_man(w, mag));
    lemma_mag(w, mag);
    lemma_hidden(w);
    lemma_million();
    lemma2_to64();
    lemma_pow2_pos(149);
    lemma_pow2_pos(j);
    let dj = d * pow2(j);
    let x = units(w, mag) * d;
    assert(x == h * dj) by (nonlinear_arith)
        requires
            x == h * pow2(j) * d,
            dj == d * pow2(j),
    ;
    let q = last_places(w, mag, 6);
    assert(q == half_even(x, u));
    lemma_rounding_error(x, u);
    lemma_pow2_adds(19, 130);
    lemma_pow2_mono(130, j);
    assert(u < dj) by (nonlinear_arith)
        requires
            dj == d * pow2(j),
            d == 1_000_000,
            pow2(j) >= pow2(130),
            u == 524_288 * pow2(130),
            pow2(130) > 0,
    ;
    let n = q * u;
    lemma_pow2_pos(130);
    assert(dj > 0);
    lemma_pow2_adds(23, j);
    lemma_pow2_adds(24, j);
    assert(0x80_0000 * dj == d * pow2((24 + j - 1) as nat)) by (nonlinear_arith)
        requires
            dj == d * pow2(j),
            pow2((24 + j - 1) as nat) == 0x80_0000 * pow2(j),
    ;
    assert(0x100_0000 * dj == d * pow2(24 + j)) by (nonlinear_arith)
        requires
            dj == d * pow2(j),
            pow2(24 + j) == 0x100_0000 * pow2(j),
    ;
    assert(h * dj + dj <= 0x100_0000 * dj) by (nonlinear_arith)
        requires
            h + 1 <= 0x100_0000,
            dj > 0,
    ;
    if h == 0x80_0000 {
        // A power of two: a whole number, which six decimals hold exactly.
        lemma_pow2_adds(149, (23 + j - 149) as nat);
        let c = pow2((23 + j - 149) as nat);
        assert(x == (c * d) * u) by (nonlinear_arith)
            requires
                x == h * dj,
                h == 0x80_0000,
                dj == d * pow2(j),
                0x80_0000 * pow2(j) == u * c,
        ;
        lemma_rounds_to(x, u, c * d);
        assert(n == x);
    } else {
        assert(h * dj >= 0x80_0000 * dj + dj) by (nonlinear_arith)
            requires
                h >= 0x80_0000 + 1,
                dj > 0,
        ;
    }
    assert(is_ulp(24, n, d, j));
    lemma_ulp_is(24, n, d, j);
    lemma_rounds_to(n, dj, h);
    assert(q > 0) by {
        if q == 0 {
            assert(n == 0) by (nonlinear_arith)
                requires
                    n == q * u,
                    q == 0,
            ;
        }
    }
}

// ---- numbers that come back ----

/// The millionths that a number is written as.
pub open spec fn millionths(mag: nat) -> nat {
    last_places(Width::Single, mag, 6)
}

/// What some millionths are read as.
pub open spec fn read_millionths(q: nat) -> u64 {
    decimal_mag(Width::Single, q, -6)
}

/// A positive number that is not zero to six decimals is read back as a positive
/// number.
pub proof fn lemma_written_is_read(mag: nat)
    requires
        mag < 0x7f80_0000,
        millionths(mag) > 0,
    ensures
        0 < read_millionths(millionths(mag)) < 0x7f80_0000,
{
    let w = Width::Single;
    let q = millionths(mag);
    lemma_million();
    if mag_exp(w, mag) >= 130 {
        lemma_large_places(mag);
        lemma_mag(w, mag);
    } else {
        let (j, h) = (mag_exp(w, mag), mag_man(w, mag));
        lemma_mag(w, mag);
        lemma2_to64();
        lemma_pow2_pos(149);
        lemma_pow2_mono(j, 129);
        lemma_pow2_adds(24, 129);
        lemma_pow2_adds(4, 149);
        let x = units(w, mag) * 1_000_000;
        assert(x < 16_000_000 * pow2(149)) by (nonlinear_arith)
            requires
                x == h * pow2(j) * 1_000_000,
                h < 0x100_0000,
                0 < pow2(j) <= pow2(129),
                0x100_0000 * pow2(129) == 16 * pow2(149),
        ;
        assert(0 * pow2(149) <= x) by (nonlinear_arith);
        lemma_half_even_range(x, pow2(149), 0, 16_000_000);
        lemma_millionths(q);
    }
}

/// The number that was read from a text with at most six decimals is read again
/// from the text that is written for it.
pub proof fn lemma_read_is_kept(k: nat)
    requires
        k > 0,
        read_millionths(k) < 0x7f80_0000,
    ensures
        read_millionths(k) > 0,
        millionths(read_millionths(k) as nat) > 0,
        read_millionths(millionths(read_millionths(k) as nat)) == read_millionths(k),
{
    lemma_million();
    lemma_millionths(k);
    if k < 16_000_000 {
        lemma_small_places(k);
    } else {
        let j = ulp(24, k * pow2(149), 1_000_000);
        lemma_millionths_ulp(k, j);
        lemma_millionths_man(k, j);
        lemma_pattern_units(Width::Single, j, half_even(k * pow2(149), 1_000_000 * pow2(j)));
        lemma_large_places(read_millionths(k) as nat);
    }
}

/// A number of at least sixteen is read back unchanged.
pub proof fn lemma_large_is_kept(mag: nat)
    requires
        mag < 0x7f80_0000,
        mag_exp(Width::Single, mag) >= 130,
    ensures
        millionths(mag) > 0,
        read_millionths(millionths(mag)) == mag,
{
    lemma_million();
    lemma_large_places(mag);
}

/// A number is read back within a millionth of what was written.
pub proof fn lemma_read_is_near(mag: nat)
    requires
        mag < 0x7f80_0000,
        millionths(mag) > 0,
    ensures
        ({
            let x = units(Width::Single, mag) as int;
            let y = units(Width::Single, read_millionths(millionths(mag)) as nat) as int;
            (y - x) * 1_000_000 <= pow2(149) && (x - y) * 1_000_000 <= pow2(149)
        }),
{
    let w = Width::Single;
    let q = millionths(mag);
    lemma_million();
    lemma_pow2_pos(149);
    lemma_written_is_read(mag);
    lemma_rounding_error(units(w, mag) * 1_000_000, pow2(149));
    law_nearest_is_nearest(w, q * pow2(149), 1_000_000, mag);
}

/// A number of more than half a millionth is not written as zero.
pub proof fn lemma_is_written(mag: nat)
    requires
        2 * (units(Width::Single, mag) * 1_000_000) > pow2(149),
    ensures
        millionths(mag) > 0,
{
    lemma_million();
    lemma_pow2_pos(149);
    lemma_rounding_error(units(Width::Single, mag) * 1_000_000, pow2(149));
    let q = millionths(mag);
    if q == 0 {
        assert(q * pow2(149) == 0) by (nonlinear_arith)
            requires
                q == 0,
        ;
    }
}

} // verus!
