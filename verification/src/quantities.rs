//! What the quantities of a header say: numbers, read in front of their units.

use crate::binary::Binary32;
use crate::decimal::{decimal_mag, exponent_of, number_of, pow10, Literal};
use crate::float::{Parts, Width};
use crate::matching::{lemma_number, number};
use crate::reading::{law_word_is_a_run, lemma_front};
use crate::reals::{
    law_negation, lemma_grain, lemma_ratio_is_near, lemma_zero_parts, num, real_of, rounds_to,
};
use crate::scale::{last_number, number_before, sensitivity_name};
use crate::text::{
    all_digits, is_digit, is_white, lemma_digits_then, lemma_find, lemma_run_before, lower_all,
    position_of, run_before, same_ignoring_case, stands_at, strip, strip_front, trimmed, word_len,
    words_of, CharSet,
};
use crate::written::{lemma_tens, tens};
use vstd::arithmetic::power2::pow2;
use vstd::prelude::*;

verus! {

// ---- decimals ----

/// Digits, a point and more digits are read as the number that they spell, rounded.
pub proof fn law_decimal_is_read(whole: Seq<char>, places: Seq<char>)
    requires
        all_digits(whole),
        all_digits(places),
        whole.len() >= 1,
    ensures
        ({
            let t = whole + "."@ + places;
            let x = number(whole + places) as real / tens(places.len());
            &&& Binary32::literal(t) is Some
            &&& Binary32::literal("-"@ + t) is Some
            &&& Binary32::literal(t)->0.is_finite() ==> rounds_to(
                Width::Single,
                x,
                num(Binary32::literal(t)->0),
            )
            &&& Binary32::literal(t)->0.is_finite() ==> rounds_to(
                Width::Single,
                -x,
                num(Binary32::literal("-"@ + t)->0),
            )
        }),
{
    let t = whole + "."@ + places;
    let s = whole + places;
    let n = places.len();
    reveal_strlit("-");
    lemma_point(whole, places, false);
    lemma_point(whole, places, true);
    let m = "-"@ + t;
    assert(m.drop_first() =~= t);
    assert(m[0] == '-');
    assert(all_digits(s)) by {
        assert forall|i: int| 0 <= i < s.len() implies is_digit(#[trigger] s[i]) by {
            if i >= whole.len() {
                assert(s[i] == places[i - whole.len()]);
            } else {
                assert(s[i] == whole[i]);
            }
        }
    }
    lemma_number(s);
    lemma_tens(n);
    let d = number(s) as nat;
    let mag = decimal_mag(Width::Single, d, -(n as int));
    let a = Parts { neg: false, mag };
    let b = Parts { neg: true, mag };
    let v = Binary32::literal(t)->0;
    let y = Binary32::literal(m)->0;
    assert(pow10(0) == 1);
    if v.is_finite() {
        if d == 0 {
            let p = tens(n);
            assert(0 as real / p == 0 as real) by (nonlinear_arith)
                requires
                    p > 0 as real,
            ;
            lemma_zero_number(a);
            lemma_zero_number(b);
        } else {
            assert(n == 0 ==> d * pow10(0) * pow2(149) == d
                * pow2(149)) by (nonlinear_arith)
                requires
                    pow10(0) == 1,
            ;
            lemma_ratio_is_near(d, pow10(n));
        }
        law_negation(Width::Single, a);
    }
}

proof fn lemma_zero_number(a: Parts)
    requires
        a.mag == 0,
    ensures
        Binary32::of(a).is_finite(),
        num(Binary32::of(a)) == 0 as real,
        real_of(Width::Single, a) == 0 as real,
        rounds_to(Width::Single, 0 as real, 0 as real),
        rounds_to(Width::Single, -(0 as real), 0 as real),
{
    lemma_zero_parts(Width::Single, a);
    lemma_grain();
}

/// What a decimal says.
proof fn lemma_point(a: Seq<char>, b: Seq<char>, neg: bool)
    requires
        all_digits(a),
        all_digits(b),
        a.len() >= 1,
    ensures
        ({
            let t = a + "."@ + b;
            let said = Literal::Finite { neg, digits: a + b, scale: -(b.len() as int) };
            &&& number_of(neg, t) == Some(said)
            &&& !same_ignoring_case(t, "inf"@)
            &&& !same_ignoring_case(t, "infinity"@)
            &&& !same_ignoring_case(t, "nan"@)
            &&& is_digit(t[0])
        }),
{
    reveal_strlit(".");
    reveal_strlit("inf");
    reveal_strlit("infinity");
    reveal_strlit("nan");
    let t = a + "."@ + b;
    let k = a.len() as int;
    let tail = "."@ + b;
    assert(t =~= a + tail);
    assert(tail[0] == '.');
    lemma_digits_then(a, tail);
    assert(t[k] == '.');
    assert(t.skip(k + 1) =~= b);
    let none = Seq::<char>::empty();
    lemma_digits_then(b, none);
    assert(b + none =~= b);
    assert(b.skip(b.len() as int) =~= none);
    assert(b.take(b.len() as int) =~= b);
    assert(t.take(k) =~= a);
    assert(exponent_of(none) == Some(0int));
    assert(t[0] == a[0]);
    assert(is_digit(a[0]));
    assert(lower_all(t)[0] == t[0]);
    assert(lower_all("inf"@)[0] == 'i');
    assert(lower_all("infinity"@)[0] == 'i');
    assert(lower_all("nan"@)[0] == 'n');
}

// ---- numbers in front of units ----

proof fn lemma_word_ends(s: Seq<char>)
    ensures
        word_len(s) <= s.len(),
        forall|k: int| 0 <= k < word_len(s) ==> !is_white(#[trigger] s[k]),
        word_len(s) < s.len() ==> is_white(s[word_len(s) as int]),
    decreases s.len(),
{
    if s.len() > 0 && !is_white(s[0]) {
        let t = s.drop_first();
        lemma_word_ends(t);
        assert forall|k: int| 0 <= k < word_len(s) implies !is_white(#[trigger] s[k]) by {
            if k > 0 {
                assert(s[k] == t[k - 1]);
            }
        }
        if word_len(t) < t.len() {
            assert(s[word_len(t) as int + 1] == t[word_len(t) as int]);
        }
    }
}

/// The words of a text whose first part ends with something white are those of its parts.
proof fn lemma_words_follow(a: Seq<char>, b: Seq<char>)
    requires
        a.len() == 0 || is_white(a.last()),
    ensures
        words_of(a + b) == words_of(a) + words_of(b),
    decreases a.len(),
{
    let i = lemma_front(a, CharSet::White);
    let (gap, t) = (a.take(i), a.skip(i));
    assert forall|k: int| 0 <= k < gap.len() implies is_white(#[trigger] gap[k]) by {
        assert(CharSet::White.has(a[k]));
    }
    if t.len() == 0 {
        assert(a =~= gap);
        law_word_is_a_run(gap, Seq::empty(), Seq::empty());
        assert(words_of(a) =~= Seq::empty());
        lemma_gap_passed(gap, b);
        assert(words_of(a) + words_of(b) =~= words_of(b));
    } else {
        let n = word_len(t) as int;
        lemma_word_ends(t);
        let (w, rest) = (t.take(n), t.skip(n));
        assert(t[0] == a[i]);
        assert(!is_white(t[0]));
        assert(t.last() == a.last());
        assert(n < t.len()) by {
            if n == t.len() {
                assert(!is_white(t[n - 1]));
            }
        }
        assert(n > 0) by {
            if n == 0 {
                assert(is_white(t[0]));
            }
        }
        assert(rest[0] == t[n]);
        assert forall|k: int| 0 <= k < w.len() implies !is_white(#[trigger] w[k]) by {
            assert(w[k] == t[k]);
        }
        assert(a =~= gap + w + rest);
        assert(a + b =~= gap + w + (rest + b));
        law_word_is_a_run(gap, w, rest);
        assert((rest + b)[0] == rest[0]);
        law_word_is_a_run(gap, w, rest + b);
        assert(rest.last() == a.last());
        lemma_words_follow(rest, b);
        assert(seq![w] + (words_of(rest) + words_of(b)) =~= seq![w] + words_of(rest) + words_of(b));
    }
}

proof fn lemma_gap_passed(gap: Seq<char>, b: Seq<char>)
    requires
        forall|k: int| 0 <= k < gap.len() ==> is_white(#[trigger] gap[k]),
    ensures
        words_of(gap + b) == words_of(b),
    decreases gap.len(),
{
    let s = gap + b;
    if gap.len() > 0 {
        let g = gap.drop_first();
        assert forall|k: int| 0 <= k < g.len() implies is_white(#[trigger] g[k]) by {
            assert(g[k] == gap[k + 1]);
        }
        lemma_gap_passed(g, b);
        assert(s.drop_first() =~= g + b);
        assert(s[0] == gap[0]);
        assert(strip_front(s, CharSet::White) == strip_front(g + b, CharSet::White));
    } else {
        assert(s =~= b);
    }
}

/// The number of a unit is the word in front of it, without brackets: whatever stands
/// before that word, and whatever white stands between the two. It is the first place of
/// the unit that counts.
pub proof fn law_number_stands_before_its_unit(
    front: Seq<char>,
    word: Seq<char>,
    gap: Seq<char>,
    unit: Seq<char>,
    rest: Seq<char>,
)
    requires
        front.len() == 0 || is_white(front.last()),
        word.len() > 0,
        forall|k: int| 0 <= k < word.len() ==> !is_white(#[trigger] word[k]),
        forall|k: int| 0 <= k < gap.len() ==> is_white(#[trigger] gap[k]),
        forall|k: int|
            0 <= k < front.len() + word.len() + gap.len() ==> !#[trigger] stands_at(
                front + word + gap + unit + rest,
                unit,
                k,
            ),
    ensures
        number_before(front + word + gap + unit + rest, unit) == Binary32::literal(
            strip(word, CharSet::Brackets),
        ),
{
    let s = front + word + gap + unit + rest;
    let at = front.len() as int + word.len() + gap.len();
    assert(s.subrange(at, at + unit.len()) =~= unit);
    assert(stands_at(s, unit, at));
    lemma_find(s, unit, 0);
    assert(position_of(s, unit) == Some(at));
    let t = word + gap;
    assert(s.take(at) =~= front + t);
    lemma_words_follow(front, t);
    let none = Seq::<char>::empty();
    law_word_is_a_run(none, word, gap);
    assert(none + word + gap =~= t);
    law_word_is_a_run(gap, none, none);
    assert(words_of(gap) =~= Seq::empty());
    assert(words_of(t) =~= seq![word]);
    let ws = words_of(front) + seq![word];
    assert(words_of(s.take(at)) == ws);
    assert(ws.last() == word);
}

/// The last number of some words is that of the last word that is one.
pub proof fn law_last_number_is_the_last(ws: Seq<Seq<char>>, i: int)
    requires
        0 <= i < ws.len(),
        Binary32::literal(strip(ws[i], CharSet::Brackets)) is Some,
        forall|k: int|
            i < k < ws.len() ==> Binary32::literal(
                strip(#[trigger] ws[k], CharSet::Brackets),
            ) is None,
    ensures
        last_number(ws) == Binary32::literal(strip(ws[i], CharSet::Brackets)),
    decreases ws.len(),
{
    if i < ws.len() - 1 {
        assert(Binary32::literal(strip(ws[ws.len() - 1], CharSet::Brackets)) is None);
        assert forall|k: int| i < k < ws.drop_last().len() implies Binary32::literal(
            strip(#[trigger] ws.drop_last()[k], CharSet::Brackets),
        ) is None by {
            assert(ws.drop_last()[k] == ws[k]);
        }
        law_last_number_is_the_last(ws.drop_last(), i);
    }
}

/// The name of a sensitivity is what stands in brackets behind `Sens.`, without the white
/// around it.
pub proof fn law_sensitivity_is_named_in_brackets(
    front: Seq<char>,
    name: Seq<char>,
    rest: Seq<char>,
)
    requires
        forall|k: int| 0 <= k < name.len() ==> #[trigger] name[k] != ']',
        forall|k: int|
            0 <= k < front.len() ==> !#[trigger] stands_at(
                front + "[Sens."@ + name + "]"@ + rest,
                "[Sens."@,
                k,
            ),
    ensures
        sensitivity_name(front + "[Sens."@ + name + "]"@ + rest) == Some(trimmed(name)),
{
    reveal_strlit("]");
    let mark = "[Sens."@;
    let s = front + mark + name + "]"@ + rest;
    let at = front.len() as int;
    assert(s.subrange(at, at + mark.len()) =~= mark);
    assert(stands_at(s, mark, at));
    lemma_find(s, mark, 0);
    assert(position_of(s, mark) == Some(at));
    let t = s.skip(at + mark.len());
    assert(t =~= name + "]"@ + rest);
    lemma_run_before(t, ']');
    let n = run_before(t, ']') as int;
    assert(t[name.len() as int] == ']');
    assert(n == name.len()) by {
        if n < name.len() {
            assert(t[n] == name[n]);
        }
    }
    assert(t.take(n) =~= name);
}

} // verus!
