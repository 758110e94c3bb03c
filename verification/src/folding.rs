//! The case of the letters of a pattern does not matter.

use crate::binary::Binary64;
use crate::calibration::lemma_lower_strip;
use crate::decimal::{after_sign, exponent_of, literal_of, number_of};
use crate::name_filter::{
    alts_of, brace_of, cond_of, conds_of, filter_of, flushed, lets_through, op_of, parsed,
    starts_with_op, Folding, Part,
};
use crate::text::{
    all_digits, digit_run, is_digit, lower, lower_all, parts, run_before, same_ignoring_case,
    stands_at, trimmed, upper, upper_all, CharSet,
};
use vstd::prelude::*;

verus! {

/// What is not a letter stays what it is in lower case, and nothing else turns
/// into it.
spec fn is_caseless(c: char) -> bool {
    !('A' <= c && c <= 'Z') && !('a' <= c && c <= 'z')
}

proof fn lemma_caseless(x: char, c: char)
    requires
        is_caseless(c),
    ensures
        lower(x) == c <==> x == c,
        is_digit(lower(x)) == is_digit(x),
        is_digit(x) ==> lower(x) == x,
        lower(lower(x)) == lower(x),
{
}

proof fn lemma_lower_twice(s: Seq<char>)
    ensures
        lower_all(lower_all(s)) == lower_all(s),
{
    assert forall|i: int| 0 <= i < s.len() implies lower(lower(#[trigger] s[i])) == lower(s[i]) by {
        lemma_caseless(s[i], ' ');
    }
    assert(lower_all(lower_all(s)) =~= lower_all(s));
}

/// Cutting and lower-casing can change places.
proof fn lemma_lower_cut(s: Seq<char>, a: int, b: int)
    requires
        0 <= a <= b <= s.len(),
    ensures
        lower_all(s).subrange(a, b) == lower_all(s.subrange(a, b)),
        lower_all(s).skip(a) == lower_all(s.skip(a)),
        lower_all(s).take(b) == lower_all(s.take(b)),
{
    assert(lower_all(s).subrange(a, b) =~= lower_all(s.subrange(a, b)));
    assert(lower_all(s).skip(a) =~= lower_all(s.skip(a)));
    assert(lower_all(s).take(b) =~= lower_all(s.take(b)));
}

proof fn lemma_lower_run(s: Seq<char>, c: char)
    requires
        is_caseless(c),
    ensures
        run_before(lower_all(s), c) == run_before(s, c) <= s.len(),
    decreases s.len(),
{
    if s.len() > 0 {
        lemma_caseless(s[0], c);
        assert(lower_all(s).drop_first() =~= lower_all(s.drop_first()));
        lemma_lower_run(s.drop_first(), c);
    }
}

proof fn lemma_lower_digits(s: Seq<char>)
    ensures
        digit_run(lower_all(s)) == digit_run(s) <= s.len(),
        lower_all(s).take(digit_run(s) as int) == s.take(digit_run(s) as int),
    decreases s.len(),
{
    if s.len() > 0 {
        lemma_caseless(s[0], ' ');
        let t = s.drop_first();
        assert(lower_all(s).drop_first() =~= lower_all(t));
        lemma_lower_digits(t);
        if is_digit(s[0]) {
            let n = digit_run(t) as int;
            let (x, y) = (lower_all(s).take(n + 1), s.take(n + 1));
            assert forall|i: int| 0 <= i < n + 1 implies #[trigger] x[i] == y[i] by {
                if i > 0 {
                    assert(lower_all(t).take(n)[i - 1] == t.take(n)[i - 1]);
                }
            }
            assert(lower_all(s).take(n + 1) =~= s.take(n + 1));
        } else {
            assert(lower_all(s).take(0) =~= s.take(0));
        }
    } else {
        assert(lower_all(s).take(0) =~= s.take(0));
    }
}

proof fn lemma_lower_all_digits(s: Seq<char>)
    ensures
        all_digits(lower_all(s)) == all_digits(s),
        all_digits(s) ==> lower_all(s) == s,
{
    assert forall|i: int| 0 <= i < s.len() implies is_digit(lower(#[trigger] s[i])) == is_digit(
        s[i],
    ) && (is_digit(s[i]) ==> lower(s[i]) == s[i]) by {
        lemma_caseless(s[i], ' ');
    }
    if all_digits(lower_all(s)) {
        assert forall|i: int| 0 <= i < s.len() implies is_digit(#[trigger] s[i]) by {
            assert(is_digit(lower_all(s)[i]));
        }
    }
    if all_digits(s) {
        assert(lower_all(s) =~= s);
    }
}

proof fn lemma_lower_sign(s: Seq<char>)
    ensures
        after_sign(lower_all(s)) == (after_sign(s).0, lower_all(after_sign(s).1)),
{
    if s.len() > 0 {
        lemma_caseless(s[0], '-');
        lemma_caseless(s[0], '+');
        assert(lower_all(s).drop_first() =~= lower_all(s.drop_first()));
    }
}

proof fn lemma_lower_exponent(s: Seq<char>)
    ensures
        exponent_of(lower_all(s)) == exponent_of(s),
{
    if s.len() > 0 {
        assert(lower(s[0]) == 'e' <==> s[0] == 'e' || s[0] == 'E');
        let t = s.drop_first();
        assert(lower_all(s).drop_first() =~= lower_all(t));
        lemma_lower_sign(t);
        lemma_lower_all_digits(after_sign(t).1);
    }
}

proof fn lemma_lower_number(neg: bool, t: Seq<char>)
    ensures
        number_of(neg, lower_all(t)) == number_of(neg, t),
{
    let l = lower_all(t);
    lemma_lower_digits(t);
    let a = digit_run(t) as int;
    if a < t.len() {
        lemma_caseless(t[a], '.');
    }
    let dot = a < t.len() && t[a] == '.';
    let from = if dot {
        a + 1
    } else {
        a
    };
    let u = t.skip(from);
    lemma_lower_cut(t, from, t.len() as int);
    lemma_lower_digits(u);
    let b = if dot {
        digit_run(u) as int
    } else {
        0
    };
    lemma_lower_cut(u, b, u.len() as int);
    lemma_lower_exponent(u.skip(b));
    assert(l.skip(from).take(b) =~= u.take(b)) by {
        if !dot {
            assert(l.skip(from).take(0) =~= u.take(0));
        }
    }
}

/// A number is the same in lower case.
proof fn lemma_lower_literal(s: Seq<char>)
    ensures
        Binary64::literal(lower_all(s)) == Binary64::literal(s),
{
    lemma_lower_sign(s);
    let (neg, t) = after_sign(s);
    lemma_lower_twice(t);
    lemma_lower_number(neg, t);
    assert(literal_of(lower_all(s)) == literal_of(s));
}

/// A text without letters stands where it stood.
proof fn lemma_lower_stands(s: Seq<char>, pat: Seq<char>)
    requires
        forall|i: int| 0 <= i < pat.len() ==> is_caseless(#[trigger] pat[i]),
    ensures
        stands_at(lower_all(s), pat, 0) == stands_at(s, pat, 0),
{
    let n = pat.len() as int;
    if n <= s.len() {
        assert forall|i: int| 0 <= i < n implies (lower(s[i]) == #[trigger] pat[i]) == (s[i]
            == pat[i]) by {
            lemma_caseless(s[i], pat[i]);
        }
        if lower_all(s).subrange(0, n) == pat {
            assert forall|i: int| 0 <= i < n implies s.subrange(0, n)[i] == #[trigger] pat[i] by {
                assert(lower_all(s).subrange(0, n)[i] == pat[i]);
            }
            assert(s.subrange(0, n) =~= pat);
        }
        if s.subrange(0, n) == pat {
            assert forall|i: int| 0 <= i < n implies lower_all(s).subrange(0, n)[i]
                == #[trigger] pat[i] by {
                assert(s.subrange(0, n)[i] == pat[i]);
            }
            assert(lower_all(s).subrange(0, n) =~= pat);
        }
    }
}

proof fn lemma_lower_op(s: Seq<char>)
    ensures
        op_of(lower_all(s)) == op_of(s),
        op_of(s) matches Some(p) ==> 0 < p.1 <= s.len(),
{
    reveal_strlit("<=");
    reveal_strlit(">=");
    reveal_strlit("!=");
    reveal_strlit("==");
    reveal_strlit("<");
    reveal_strlit(">");
    reveal_strlit("=");
    lemma_lower_stands(s, "<="@);
    lemma_lower_stands(s, ">="@);
    lemma_lower_stands(s, "!="@);
    lemma_lower_stands(s, "=="@);
    lemma_lower_stands(s, "<"@);
    lemma_lower_stands(s, ">"@);
    lemma_lower_stands(s, "="@);
}

/// Both are understood, and then alike, or neither is.
pub open spec fn same_reading<T>(a: Result<T, Seq<char>>, b: Result<T, Seq<char>>) -> bool {
    match (a, b) {
        (Ok(x), Ok(y)) => x == y,
        (Err(x), Err(y)) => true,
        _ => false,
    }
}

proof fn lemma_lower_cond(s: Seq<char>)
    ensures
        same_reading(cond_of(lower_all(s)), cond_of(s)),
{
    lemma_lower_strip(s, CharSet::White);
    let p = trimmed(s);
    lemma_lower_op(p);
    if let Some((op, n)) = op_of(p) {
        lemma_lower_cut(p, n, p.len() as int);
        lemma_lower_strip(p.skip(n), CharSet::White);
        lemma_lower_literal(trimmed(p.skip(n)));
    }
}

spec fn lower_each(v: Seq<Seq<char>>) -> Seq<Seq<char>> {
    Seq::new(v.len(), |i: int| lower_all(v[i]))
}

proof fn lemma_lower_conds(ps: Seq<Seq<char>>)
    ensures
        same_reading(conds_of(lower_each(ps)), conds_of(ps)),
    decreases ps.len(),
{
    if ps.len() > 0 {
        assert(lower_each(ps).drop_last() =~= lower_each(ps.drop_last()));
        assert(lower_each(ps).last() == lower_all(ps.last()));
        lemma_lower_conds(ps.drop_last());
        lemma_lower_cond(ps.last());
    }
}

proof fn lemma_lower_parts(s: Seq<char>, c: char)
    requires
        is_caseless(c),
    ensures
        parts(lower_all(s), c) == lower_each(parts(s, c)),
    decreases s.len(),
{
    lemma_lower_run(s, c);
    let i = run_before(s, c) as int;
    if i >= s.len() {
        assert(parts(lower_all(s), c) =~= lower_each(parts(s, c)));
    } else {
        lemma_lower_cut(s, i + 1, s.len() as int);
        lemma_lower_cut(s, 0, i);
        lemma_lower_parts(s.skip(i + 1), c);
        let rest = parts(s.skip(i + 1), c);
        assert(lower_each(seq![s.take(i)] + rest) =~= seq![lower_all(s.take(i))] + lower_each(
            rest,
        ));
    }
}

proof fn lemma_lower_alts(ps: Seq<Seq<char>>)
    ensures
        alts_of(Folding::Ascii, lower_each(ps)) == alts_of(Folding::Ascii, ps),
{
    assert forall|i: int| 0 <= i < ps.len() implies alts_of(Folding::Ascii, lower_each(ps))[i]
        == alts_of(Folding::Ascii, ps)[i] by {
        lemma_lower_strip(ps[i], CharSet::White);
        lemma_lower_twice(trimmed(ps[i]));
    }
    assert(alts_of(Folding::Ascii, lower_each(ps)) =~= alts_of(Folding::Ascii, ps));
}

proof fn lemma_lower_brace(s: Seq<char>)
    ensures
        same_reading(brace_of(Folding::Ascii, lower_all(s)), brace_of(Folding::Ascii, s)),
{
    lemma_lower_strip(s, CharSet::White);
    let t = trimmed(s);
    lemma_lower_run(t, '|');
    if t.len() > 0 {
        lemma_caseless(t[0], '<');
        lemma_caseless(t[0], '>');
        lemma_caseless(t[0], '=');
        lemma_caseless(t[0], '!');
        assert(starts_with_op(lower_all(t)) == starts_with_op(t));
    }
    lemma_lower_parts(t, '|');
    lemma_lower_parts(t, ',');
    lemma_lower_alts(parts(t, '|'));
    lemma_lower_conds(parts(t, ','));
}

proof fn lemma_lower_parsed(s: Seq<char>, lit: Seq<char>, acc: Seq<Part>)
    ensures
        same_reading(
            parsed(Folding::Ascii, lower_all(s), lit, acc),
            parsed(Folding::Ascii, s, lit, acc),
        ),
    decreases s.len(),
{
    let f = Folding::Ascii;
    let l = lower_all(s);
    let none = Seq::<char>::empty();
    if s.len() > 0 {
        lemma_caseless(s[0], '*');
        lemma_caseless(s[0], '{');
        lemma_caseless(s[0], '}');
        lemma_lower_cut(s, 1, s.len() as int);
        let done = flushed(acc, lit);
        if s[0] == '*' {
            if s.len() > 1 {
                lemma_caseless(s[1], '*');
            }
            if s.len() > 1 && s[1] == '*' {
                lemma_lower_cut(s, 2, s.len() as int);
                lemma_lower_parsed(s.skip(2), none, done.push(Part::DoubleStar));
            } else {
                lemma_lower_parsed(s.skip(1), none, done.push(Part::Star));
            }
        } else if s[0] == '{' {
            lemma_lower_run(s, '}');
            let end = run_before(s, '}') as int;
            if end < s.len() {
                lemma_lower_cut(s, 1, end);
                lemma_lower_cut(s, end + 1, s.len() as int);
                lemma_lower_brace(s.subrange(1, end));
                if let Ok(b) = brace_of(f, s.subrange(1, end)) {
                    lemma_lower_parsed(s.skip(end + 1), none, done.push(b));
                }
            }
        } else if s[0] != '}' {
            assert(f.char(l[0]) =~= f.char(s[0]));
            lemma_lower_parsed(s.skip(1), lit + f.char(s[0]), acc);
        }
    }
}

proof fn lemma_lower_filter(p: Seq<char>)
    ensures
        same_reading(filter_of(Folding::Ascii, lower_all(p)), filter_of(Folding::Ascii, p)),
{
    lemma_lower_strip(p, CharSet::White);
    let t = trimmed(p);
    lemma_lower_run(t, '*');
    lemma_lower_run(t, '{');
    lemma_lower_parsed(t, Seq::empty(), Seq::empty());
    lemma_lower_twice(t);
}

/// Patterns that differ in the case of ASCII letters alone are the same filter,
/// or neither is understood.
pub proof fn law_pattern_ignores_case(p: Seq<char>, q: Seq<char>)
    requires
        same_ignoring_case(p, q),
    ensures
        same_reading(filter_of(Folding::Ascii, p), filter_of(Folding::Ascii, q)),
{
    lemma_lower_filter(p);
    lemma_lower_filter(q);
}

/// The case of neither a pattern nor a name matters: a pattern and its upper-case
/// form let the same names through, and a name passes as its upper-case and its
/// lower-case form do.
pub proof fn law_case_does_not_matter(p: Seq<char>, name: Seq<char>)
    ensures
        same_reading(filter_of(Folding::Ascii, p), filter_of(Folding::Ascii, upper_all(p))),
        same_reading(filter_of(Folding::Ascii, p), filter_of(Folding::Ascii, lower_all(p))),
        filter_of(Folding::Ascii, p) matches Ok(Some(f)) ==> {
            let g = filter_of(Folding::Ascii, upper_all(p))->Ok_0->Some_0;
            &&& lets_through(g, lower_all(name)) == lets_through(f, lower_all(name))
            &&& lets_through(f, lower_all(upper_all(name))) == lets_through(f, lower_all(name))
            &&& lets_through(f, lower_all(lower_all(name))) == lets_through(f, lower_all(name))
        },
{
    lemma_lower_upper(p);
    lemma_lower_upper(name);
    lemma_lower_twice(p);
    lemma_lower_twice(name);
    law_pattern_ignores_case(p, upper_all(p));
    law_pattern_ignores_case(p, lower_all(p));
}

proof fn lemma_lower_upper(s: Seq<char>)
    ensures
        lower_all(upper_all(s)) == lower_all(s),
{
    assert forall|i: int| 0 <= i < s.len() implies lower(upper(#[trigger] s[i])) == lower(
        s[i],
    ) by {}
    assert(lower_all(upper_all(s)) =~= lower_all(s));
}

} // verus!
