//! What numbers are written as: the nearest decimal of so many places.

use crate::binary::{Binary32, Binary64};
use crate::decimal::pow10;
use crate::fixed::{fixed_text, last_places, sign_text, zeros};
use crate::float::{units, Parts, Width};
use crate::matching::{lemma_number, number};
use crate::places::{lemma_decimal_spells, lemma_rounding_error, lemma_zeros_spell};
use crate::plot::{csv_of, csv_rows};
use crate::reals::{lemma_magnitude, num, num64, real_of, size};
use crate::text::{all_digits, decimal, is_digit};
use vstd::arithmetic::power2::{lemma_pow2_pos, pow2};
use vstd::prelude::*;

verus! {

/// `10^n`.
pub open spec fn tens(n: nat) -> real
    decreases n,
{
    if n == 0 {
        1 as real
    } else {
        10 as real * tens((n - 1) as nat)
    }
}

pub(crate) proof fn lemma_tens(n: nat)
    ensures
        pow10(n) as real == tens(n),
        tens(n) >= 1 as real,
    decreases n,
{
    if n > 0 {
        lemma_tens((n - 1) as nat);
    }
}

/// Whether a text is a decimal of `n` places that is as near to a number as can be: a
/// whole part, a point and `n` digits, which stand for no more than half a step of the
/// last place more or less.
pub open spec fn is_decimal_of(whole: Seq<char>, places: Seq<char>, n: nat, x: real) -> bool {
    &&& all_digits(whole)
    &&& all_digits(places)
    &&& whole.len() >= 1
    &&& places.len() == n
    &&& 2 as real * size(number(whole + places) as real - x * tens(n)) <= 1 as real
}

proof fn lemma_written(w: Width, a: Parts, n: nat, plus: bool) -> (r: (Seq<char>, Seq<char>))
    requires
        a.mag < w.inf(),
        n >= 1,
    ensures
        is_decimal_of(r.0, r.1, n, size(real_of(w, a))),
        fixed_text(w, a, n, plus) == sign_text(a.neg, plus) + (r.0 + "."@ + r.1),
{
    let (u, d) = (units(w, a.mag as nat), pow2(w.unit()));
    let v = last_places(w, a.mag as nat, n);
    let t = decimal(v);
    lemma_decimal_spells(v);
    let s = zeros(n + 1 - t.len()) + t;
    lemma_zeros_spell(n + 1 - t.len(), t);
    let k = s.len() - n;
    let (whole, places) = (s.take(k), s.skip(k));
    assert(whole + places =~= s);
    assert(all_digits(whole)) by {
        assert forall|i: int| 0 <= i < whole.len() implies is_digit(#[trigger] whole[i]) by {
            assert(whole[i] == s[i]);
        }
    }
    assert(all_digits(places)) by {
        assert forall|i: int| 0 <= i < places.len() implies is_digit(
            #[trigger] places[i],
        ) by {
            assert(places[i] == s[k + i]);
        }
    }
    lemma_number(s);
    assert(number(s) == v);
    lemma_pow2_pos(w.unit());
    lemma_rounding_error(u * pow10(n), d);
    lemma_magnitude(w, a);
    lemma_tens(n);
    let x = size(real_of(w, a));
    let (ur, dr, vr, p) = (u as real, d as real, v as real, tens(n));
    assert((u * pow10(n)) as real == ur * p) by (nonlinear_arith)
        requires
            ur == u as real,
            p == pow10(n) as real,
    ;
    assert((v * d) as real == vr * dr) by (nonlinear_arith)
        requires
            vr == v as real,
            dr == d as real,
    ;
    assert(2 as real * size(vr - x * p) <= 1 as real) by (nonlinear_arith)
        requires
            x * dr == ur,
            2 as real * size(vr * dr - ur * p) <= dr,
            dr > 0 as real,
    ;
    (whole, places)
}

/// A number in single precision is written as the nearest decimal of `n` places, with a
/// minus sign if it is negative.
pub proof fn law_number_is_written(a: Binary32, n: nat)
    requires
        a.is_finite(),
        n >= 1,
    ensures
        exists|whole: Seq<char>, places: Seq<char>| #[trigger]
            is_decimal_of(whole, places, n, size(num(a))) && a.fixed(n) == (if a.parts().neg {
                "-"@
            } else {
                ""@
            }) + (whole + "."@ + places),
{
    let r = lemma_written(Width::Single, a.parts(), n, false);
    assert(is_decimal_of(r.0, r.1, n, size(num(a))));
}

/// The same of double precision, with and without a plus sign.
pub proof fn law_double_is_written(a: Binary64, n: nat)
    requires
        a.is_finite(),
        n >= 1,
    ensures
        exists|whole: Seq<char>, places: Seq<char>| #[trigger]
            is_decimal_of(whole, places, n, size(num64(a))) && a.fixed(n) == (if a.parts().neg {
                "-"@
            } else {
                ""@
            }) + (whole + "."@ + places),
        exists|whole: Seq<char>, places: Seq<char>| #[trigger]
            is_decimal_of(whole, places, n, size(num64(a))) && a.signed_fixed(n) == (
            if a.parts().neg {
                "-"@
            } else {
                "+"@
            }) + (whole + "."@ + places),
{
    let r = lemma_written(Width::Double, a.parts(), n, false);
    assert(is_decimal_of(r.0, r.1, n, size(num64(a))));
    let q = lemma_written(Width::Double, a.parts(), n, true);
    assert(is_decimal_of(q.0, q.1, n, size(num64(a))));
}

/// The line of a point: its distance with four places, its height with six.
pub open spec fn table_line(p: (Binary32, Binary32)) -> Seq<char> {
    p.0.fixed(4) + ","@ + p.1.fixed(6) + "\n"@
}

/// The table of a profile has a heading, and a line for every point, in order.
pub proof fn law_table_has_a_line_for_every_point(p: Seq<(Binary32, Binary32)>, i: int)
    requires
        0 <= i < p.len(),
    ensures
        csv_of(p) == csv_of(p.take(i)) + table_line(p[i]) + csv_rows(p.skip(i + 1)),
        csv_of(p.take(0)) == "distance_nm,height_nm\n"@,
    decreases p.len(),
{
    assert(p.take(0) =~= Seq::empty());
    assert(csv_of(p.take(0)) =~= "distance_nm,height_nm\n"@);
    let q = p.drop_last();
    if i < p.len() - 1 {
        law_table_has_a_line_for_every_point(q, i);
        assert(q.take(i) =~= p.take(i));
        let rest = p.skip(i + 1);
        assert(rest.drop_last() =~= q.skip(i + 1));
        assert(rest.last() == p.last());
        let last = table_line(p.last());
        assert(q[i] == p[i]);
        assert(csv_rows(rest) == csv_rows(q.skip(i + 1)) + last);
        assert(csv_of(p) =~= csv_of(q) + last);
        assert(csv_of(q) + last =~= csv_of(p.take(i)) + table_line(p[i]) + (csv_rows(q.skip(i + 1))
            + last));
    } else {
        assert(q =~= p.take(i));
        assert(p.skip(i + 1) =~= Seq::empty());
        assert(csv_of(p) =~= csv_of(p.take(i)) + table_line(p[i]) + csv_rows(p.skip(i + 1)));
    }
}

} // verus!
