//! Numbers as text with a fixed number of decimals.

use crate::bignat::BigNat;
use crate::binary::{Binary32, Binary64};
use crate::decimal::pow10;
use crate::float::{units, unpack, Parts, Width};
use crate::rounding::{half_even, lemma_half_even_cancel};
use crate::text::{append, decimal, digit_char, to_chars};
use vstd::arithmetic::div_mod::lemma_fundamental_div_mod_converse;
use vstd::arithmetic::power2::{
    lemma2_to64, lemma_pow2_adds, lemma_pow2_pos, lemma_pow2_unfold, pow2,
};
use vstd::prelude::*;

verus! {

/// A magnitude in units of the last of `n` decimals, to the nearest; of two
/// equally near, the even one.
pub open spec fn last_places(w: Width, mag: nat, n: nat) -> nat {
    half_even(units(w, mag) * pow10(n), pow2(w.unit()))
}

/// Some zeros.
pub open spec fn zeros(n: int) -> Seq<char> {
    Seq::new(
        if n > 0 {
            n as nat
        } else {
            0
        },
        |i: int| '0',
    )
}

/// A natural number with `n` decimals, as text.
pub open spec fn with_point(v: nat, n: nat) -> Seq<char> {
    let d = decimal(v);
    let s = zeros(n + 1 - d.len()) + d;
    if n == 0 {
        s
    } else {
        s.take(s.len() - n) + "."@ + s.skip(s.len() - n)
    }
}

/// The sign of a number; `plus` asks for one also when it is not negative.
pub open spec fn sign_text(neg: bool, plus: bool) -> Seq<char> {
    if neg {
        "-"@
    } else if plus {
        "+"@
    } else {
        ""@
    }
}

/// A number with `n` decimals, as text.
pub open spec fn fixed_text(w: Width, a: Parts, n: nat, plus: bool) -> Seq<char> {
    if a.mag > w.inf() {
        "NaN"@
    } else if a.mag == w.inf() {
        sign_text(a.neg, plus) + "inf"@
    } else {
        sign_text(a.neg, plus) + with_point(last_places(w, a.mag as nat, n), n)
    }
}

/// `n / 2^u`, rounded to the nearest, ties to even.
fn halve_out(n: BigNat, u: u32) -> (r: BigNat)
    ensures
        r@ == half_even(n@, pow2(u as nat)),
{
    let ghost n0 = n@;
    let mut v: BigNat = n;
    let mut half: bool = false;
    let mut sticky: bool = false;
    let ghost mut tail: nat = 0;
    let mut k: u32 = 0;
    proof {
        lemma2_to64();
        assert(v@ * pow2(0) == v@) by (nonlinear_arith)
            requires
                pow2(0) == 1,
        ;
    }
    while k < u
        invariant
            k <= u,
            n0 == v@ * pow2(k as nat) + tail,
            tail < pow2(k as nat),
            half == (2 * tail >= pow2(k as nat)),
            sticky == (if half {
                2 * tail > pow2(k as nat)
            } else {
                tail > 0
            }),
        decreases u - k,
    {
        let ghost v0 = v@;
        let bit: u32 = v.divide(2);
        proof {
            let p = pow2(k as nat) as int;
            lemma_pow2_pos(k as nat);
            lemma_pow2_unfold((k + 1) as nat);
            vstd::arithmetic::div_mod::lemma_fundamental_div_mod(v0 as int, 2);
            let v1 = v@ as int;
            let b = bit as int;
            assert(v0 * p == v1 * (2 * p) + b * p) by (nonlinear_arith)
                requires
                    v0 == 2 * v1 + b,
            ;
            if b == 1 {
                assert(b * p == p);
            } else {
                assert(b * p == 0);
            }
            tail = (b * p + tail) as nat;
        }
        sticky = sticky || half;
        half = bit == 1;
        k += 1;
    }
    proof {
        lemma_pow2_pos(u as nat);
        lemma_fundamental_div_mod_converse(n0 as int, pow2(u as nat) as int, v@ as int, tail as int);
    }
    if half {
        if sticky {
            v.mul_add(1, 1);
        } else {
            let odd: bool = is_odd(&v);
            if odd {
                v.mul_add(1, 1);
            }
        }
    }
    v
}

fn is_odd(v: &BigNat) -> (r: bool)
    ensures
        r == (v@ % 2 == 1),
{
    let mut c: BigNat = v.duplicate();
    c.divide(2) == 1
}

/// Writes a natural number in decimal, last digit first.
fn digits_of(n: BigNat) -> (r: Vec<char>)
    ensures
        r@ == decimal(n@).reverse(),
{
    let ghost n0 = n@;
    let mut v: BigNat = n;
    let mut out: Vec<char> = Vec::new();
    let ghost mut rest: nat = n0;
    loop
        invariant_except_break
            v@ == rest,
            decimal(n0).len() >= out@.len(),
            decimal(n0) == decimal(rest) + out@.reverse(),
        ensures
            decimal(n0) == out@.reverse(),
        decreases rest,
    {
        let d: u32 = v.divide(10);
        let c: char = (48 + d as u8) as char;
        assert(c == digit_char(d as nat));
        let ghost before = out@;
        out.push(c);
        proof {
            assert(out@.reverse() =~= seq![c] + before.reverse());
        }
        if v.is_zero() {
            proof {
                assert(rest < 10) by {
                    vstd::arithmetic::div_mod::lemma_fundamental_div_mod(rest as int, 10);
                }
                assert(decimal(rest) == seq![c]);
            }
            break;
        }
        proof {
            vstd::arithmetic::div_mod::lemma_fundamental_div_mod(rest as int, 10);
            assert(rest >= 10);
            assert(decimal(rest) == decimal(rest / 10).push(c));
            assert(decimal(rest / 10).push(c) + before.reverse() =~= decimal(rest / 10) + (seq![c]
                + before.reverse()));
            rest = rest / 10;
        }
    }
    assert(out@.reverse().reverse() =~= out@);
    out
}

/// Writes a number with `n` decimals.
fn write_fixed(w: Width, a: Parts, n: u32, plus: bool) -> (r: Vec<char>)
    requires
        n <= 100,
    ensures
        r@ == fixed_text(w, a, n as nat, plus),
{
    if a.mag > w.get_inf() {
        return to_chars("NaN");
    }
    let mut out: Vec<char> = if a.neg {
        to_chars("-")
    } else if plus {
        to_chars("+")
    } else {
        to_chars("")
    };
    if a.mag == w.get_inf() {
        let inf: Vec<char> = to_chars("inf");
        append(&mut out, inf.as_slice());
        return out;
    }
    let (man, exp) = unpack(w, a.mag);
    let unit: i32 = w.get_unit();
    let common: i32 = if exp < unit {
        exp
    } else {
        unit
    };
    let mut num: BigNat = BigNat::small((man / 0x1_0000_0000) as u32);
    num.mul_add(0x1_0000, 0);
    num.mul_add(0x1_0000, (man % 0x1_0000_0000) as u32);
    assert(num@ == man);
    let mut i: u32 = 0;
    proof {
        assert(man * pow10(0) == man) by (nonlinear_arith)
            requires
                pow10(0) == 1,
        ;
    }
    while i < n
        invariant
            i <= n,
            num@ == man * pow10(i as nat),
        decreases n - i,
    {
        num.mul_add(10, 0);
        i += 1;
        assert(man * (10 * pow10((i - 1) as nat)) == (man * pow10((i - 1) as nat)) * 10)
            by (nonlinear_arith);
    }
    let ghost base = num@;
    let mut j: i32 = 0;
    proof {
        lemma2_to64();
        assert(base * pow2(0) == base) by (nonlinear_arith)
            requires
                pow2(0) == 1,
        ;
    }
    while j < exp - common
        invariant
            0 <= j <= exp - common,
            0 <= common <= exp <= 2045,
            num@ == base * pow2(j as nat),
        decreases exp - common - j,
    {
        proof {
            lemma_pow2_unfold((j + 1) as nat);
            let p = pow2(j as nat);
            assert(base * (2 * p) == (base * p) * 2) by (nonlinear_arith);
        }
        num.mul_add(2, 0);
        j += 1;
    }
    let down: u32 = (unit - common) as u32;
    proof {
        let rest = (exp - common) as nat;
        lemma_pow2_adds(rest, common as nat);
        lemma_pow2_adds(down as nat, common as nat);
        assert(rest + common as nat == exp as nat);
        assert(down as nat + common as nat == w.unit());
        lemma_pow2_pos(down as nat);
        lemma_pow2_pos(common as nat);
        lemma_half_even_cancel(num@, pow2(down as nat), pow2(common as nat));
        let (m, t, pr, pc) = (
            man as int,
            pow10(n as nat) as int,
            pow2(rest) as int,
            pow2(common as nat) as int,
        );
        assert(((m * t) * pr) * pc == (m * (pr * pc)) * t) by (nonlinear_arith);
    }
    let q: BigNat = halve_out(num, down);
    let ghost qv = q@;
    assert(qv == last_places(w, a.mag as nat, n as nat));
    let back: Vec<char> = digits_of(q);
    let ghost d = decimal(qv);
    let ghost s = zeros(n + 1 - d.len()) + d;
    let ghost start = out@;
    let len: usize = back.len();
    let total: usize = if len < n as usize + 1 {
        n as usize + 1
    } else {
        len
    };
    assert(s.len() == total);
    assert(d.len() == len);
    assert(back@.reverse() =~= d) by {
        assert(back@ == d.reverse());
    }
    let mut k: usize = 0;
    let point: usize = total - n as usize;
    let ghost goal = with_point(qv, n as nat);
    proof {
        reveal_strlit(".");
    }
    while k < total
        invariant
            k <= total,
            n <= 100,
            len == back@.len(),
            len == d.len(),
            total == s.len(),
            total == point + n,
            point >= 1,
            s == zeros(n + 1 - d.len()) + d,
            total >= len,
            back@ == d.reverse(),
            goal == with_point(qv, n as nat),
            d == decimal(qv),
            "."@ =~= seq!['.'],
            out@ == start + goal.take(
                if k > point {
                    k + 1
                } else {
                    k as int
                },
            ),
            goal.len() == (if n > 0 {
                total + 1
            } else {
                total as int
            }),
        decreases total - k,
    {
        if k == point {
            out.push('.');
            assert(out@ =~= start + goal.take(k + 1));
        }
        let c: char = if k < total - len {
            '0'
        } else {
            back[total - 1 - k]
        };
        assert(c == s[k as int]);
        out.push(c);
        k += 1;
        assert(goal[if k - 1 >= point {
            k as int
        } else {
            k - 1
        }] == c);
        assert(out@ =~= start + goal.take(
            if k > point {
                k + 1
            } else {
                k as int
            },
        ));
    }
    assert(goal.take(goal.len() as int) =~= goal);
    assert(out@ =~= start + goal);
    out
}

impl Binary32 {
    /// This number with `n` decimals, as text.
    pub open spec fn fixed(self, n: nat) -> Seq<char> {
        fixed_text(Width::Single, self.parts(), n, false)
    }

    /// Writes this number with `n` decimals.
    pub fn to_fixed(self, n: u32) -> (r: Vec<char>)
        requires
            n <= 100,
        ensures
            r@ == self.fixed(n as nat),
    {
        write_fixed(Width::Single, self.split(), n, false)
    }
}

impl Binary64 {
    /// This number with `n` decimals, as text.
    pub open spec fn fixed(self, n: nat) -> Seq<char> {
        fixed_text(Width::Double, self.parts(), n, false)
    }

    /// This number with a sign and `n` decimals, as text.
    pub open spec fn signed_fixed(self, n: nat) -> Seq<char> {
        fixed_text(Width::Double, self.parts(), n, true)
    }

    /// Writes this number with `n` decimals.
    pub fn to_fixed(self, n: u32) -> (r: Vec<char>)
        requires
            n <= 100,
        ensures
            r@ == self.fixed(n as nat),
    {
        write_fixed(Width::Double, self.split(), n, false)
    }

    /// Writes this number with a sign and `n` decimals.
    pub fn to_signed_fixed(self, n: u32) -> (r: Vec<char>)
        requires
            n <= 100,
        ensures
            r@ == self.signed_fixed(n as nat),
    {
        write_fixed(Width::Double, self.split(), n, true)
    }
}

} // verus!
