//! What patterns for file names mean: which names each part of one lets through,
//! and how the text of a pattern spells its parts.

use crate::binary::Binary64;
use crate::decimal::{float_of, literal_of, pow10, Literal};
use crate::float::{of_int, Width};
use crate::name_filter::{
    alts_of, brace_of, cond_of, conds_of, flushed, has_char, law_digit_run_is_taken_whole, op_of,
    parsed, parts_match, starts_with_op, Cond, Folding, Op, Part,
};
use crate::reals::{law_compare64, lemma_whole_double, num64};
use crate::text::{
    all_digits, digits_value, is_digit, is_white, lemma_digits_then, lemma_run_before, lower,
    lower_all, parts, run_before, same_ignoring_case, stands_at, strip_back, strip_front, trimmed,
    CharSet,
};
use vstd::prelude::*;

verus! {

// ---- comparisons ----

/// Whether two numbers compare as an operator says.
pub open spec fn compares(op: Op, x: real, y: real) -> bool {
    match op {
        Op::Lt => x < y,
        Op::Le => x <= y,
        Op::Gt => x > y,
        Op::Ge => x >= y,
        Op::Eq => x == y,
        Op::Ne => x != y,
    }
}

/// A condition holds of a number exactly when the two real numbers compare as its
/// operator says.
pub proof fn law_condition_compares(c: Cond, v: Binary64)
    requires
        c.value.is_finite(),
        v.is_finite(),
    ensures
        c.holds(v) <==> compares(c.op, num64(v), num64(c.value)),
{
    law_compare64(v, c.value);
    law_compare64(c.value, v);
}

/// The operators fit together, whatever the numbers are: `<=` is `<` or `=`, `>=`
/// is `>` or `=`, `!=` is not `=`, and `<` is `>` the other way round.
pub proof fn law_operators_fit_together(b: Binary64, v: Binary64)
    ensures
        (Cond { op: Op::Le, value: b }).holds(v) <==> (Cond { op: Op::Lt, value: b }).holds(v) || (
        Cond { op: Op::Eq, value: b }).holds(v),
        (Cond { op: Op::Ge, value: b }).holds(v) <==> (Cond { op: Op::Gt, value: b }).holds(v) || (
        Cond { op: Op::Eq, value: b }).holds(v),
        (Cond { op: Op::Ne, value: b }).holds(v) <==> !(Cond { op: Op::Eq, value: b }).holds(v),
        (Cond { op: Op::Lt, value: b }).holds(v) <==> (Cond { op: Op::Gt, value: v }).holds(b),
        (Cond { op: Op::Eq, value: b }).holds(v) <==> (Cond { op: Op::Eq, value: v }).holds(b),
        !((Cond { op: Op::Lt, value: b }).holds(v) && (Cond { op: Op::Eq, value: b }).holds(v)),
        !((Cond { op: Op::Lt, value: b }).holds(v) && (Cond { op: Op::Gt, value: b }).holds(v)),
{
}

// ---- numbers ----

/// The number that decimal digits spell.
pub open spec fn number(d: Seq<char>) -> int
    decreases d.len(),
{
    if d.len() == 0 {
        0
    } else {
        10 * number(d.drop_last()) + (d.last() as int - '0' as int)
    }
}

pub proof fn lemma_number(d: Seq<char>)
    requires
        all_digits(d),
    ensures
        number(d) == digits_value(d),
        number(d) >= 0,
    decreases d.len(),
{
    if d.len() > 0 {
        assert(is_digit(d[d.len() - 1]));
        assert(all_digits(d.drop_last())) by {
            assert forall|i: int| 0 <= i < d.len() - 1 implies is_digit(
                #[trigger] d.drop_last()[i],
            ) by {
                assert(is_digit(d[i]));
            }
        }
        lemma_number(d.drop_last());
    }
}

/// A text of digits is not a word.
proof fn lemma_not_a_word(d: Seq<char>, word: Seq<char>)
    requires
        d.len() > 0,
        is_digit(d[0]),
        word.len() > 0,
        'a' <= word[0] <= 'z',
    ensures
        !same_ignoring_case(d, word),
{
    if same_ignoring_case(d, word) {
        assert(lower_all(d)[0] == lower(d[0]));
        assert(lower_all(word)[0] == lower(word[0]));
    }
}

proof fn lemma_words()
    ensures
        "inf"@.len() > 0 && 'a' <= "inf"@[0] <= 'z',
        "infinity"@.len() > 0 && 'a' <= "infinity"@[0] <= 'z',
        "nan"@.len() > 0 && 'a' <= "nan"@[0] <= 'z',
{
    reveal_strlit("inf");
    reveal_strlit("infinity");
    reveal_strlit("nan");
}

/// Digits spell their number: one of up to 53 bits is read as it is.
pub proof fn law_digits_are_their_number(d: Seq<char>)
    requires
        d.len() > 0,
        all_digits(d),
        number(d) <= 0x20_0000_0000_0000,
    ensures
        Binary64::literal(d) is Some,
        Binary64::literal(d)->0.is_finite(),
        num64(Binary64::literal(d)->0) == number(d) as real,
{
    let w = Width::Double;
    assert(is_digit(d[0]));
    lemma_number(d);
    lemma_words();
    lemma_not_a_word(d, "inf"@);
    lemma_not_a_word(d, "infinity"@);
    lemma_not_a_word(d, "nan"@);
    let none = Seq::<char>::empty();
    assert(d + none =~= d);
    lemma_digits_then(d, none);
    assert(d.skip(d.len() as int) =~= none);
    assert(none.skip(0) =~= none);
    assert(d.take(d.len() as int) =~= d);
    assert(d + none.take(0) =~= d);
    assert(literal_of(d) matches Some(Literal::Finite { neg: false, digits, scale }) && digits == d
        && scale == 0);
    let n = digits_value(d);
    assert(pow10(0) == 1);
    assert(n * pow10(0) == n) by (nonlinear_arith)
        requires
            pow10(0) == 1,
    ;
    lemma_whole_double(n);
    assert(float_of(w, d) == Some(of_int(w, n as int))) by {
        reveal(of_int);
    }
}

// ---- what the parts let through ----

/// An empty pattern lets nothing but the empty name through: a pattern matches
/// whole names.
pub proof fn law_nothing_matches_nothing(s: Seq<char>)
    ensures
        parts_match(Seq::empty(), s) <==> s.len() == 0,
{
}

/// A literal before the rest of a pattern stands at the start of the name, and
/// the rest matches what follows.
pub proof fn law_literal_stands_at_the_start(l: Seq<char>, ts: Seq<Part>, s: Seq<char>)
    ensures
        parts_match(seq![Part::Literal(l)] + ts, s) <==> exists|rest: Seq<char>|
            s == #[trigger] (l + rest) && parts_match(ts, rest),
{
    let all = seq![Part::Literal(l)] + ts;
    assert(all.drop_first() =~= ts);
    assert(all[0] == Part::Literal(l));
    if parts_match(all, s) {
        assert(s =~= l + s.skip(l.len() as int)) by {
            assert(s.subrange(0, l.len() as int) == l);
            assert forall|i: int| 0 <= i < l.len() implies s[i] == l[i] by {
                assert(s.subrange(0, l.len() as int)[i] == s[i]);
            }
        }
    }
    if exists|rest: Seq<char>| s == #[trigger] (l + rest) && parts_match(ts, rest) {
        let rest = choose|rest: Seq<char>| s == #[trigger] (l + rest) && parts_match(ts, rest);
        assert(s.skip(l.len() as int) =~= rest);
        assert(s.subrange(0, l.len() as int) =~= l);
    }
}

/// Two stars before the rest of a pattern take any run of characters, and the rest
/// matches what follows.
pub proof fn law_double_star_takes_anything(ts: Seq<Part>, s: Seq<char>)
    ensures
        parts_match(seq![Part::DoubleStar] + ts, s) <==> exists|n: int|
            0 <= n <= s.len() && parts_match(ts, #[trigger] s.skip(n)),
{
    let all = seq![Part::DoubleStar] + ts;
    assert(all.drop_first() =~= ts);
    assert(all[0] == Part::DoubleStar);
}

/// Alternatives before the rest of a pattern: one of them stands at the start of
/// the name, and the rest matches what follows.
pub proof fn law_an_alternative_stands_at_the_start(
    alts: Seq<Seq<char>>,
    ts: Seq<Part>,
    s: Seq<char>,
)
    ensures
        parts_match(seq![Part::Alt(alts)] + ts, s) <==> exists|k: int|
            0 <= k < alts.len() && parts_match(
                seq![Part::Literal(#[trigger] alts[k])] + ts,
                s,
            ),
{
    let all = seq![Part::Alt(alts)] + ts;
    assert(all.drop_first() =~= ts);
    assert(all[0] == Part::Alt(alts));
    assert forall|k: int| 0 <= k < alts.len() implies (parts_match(
        seq![Part::Literal(#[trigger] alts[k])] + ts,
        s,
    ) == (stands_at(s, alts[k], 0) && parts_match(ts, s.skip(alts[k].len() as int)))) by {
        let one = seq![Part::Literal(alts[k])] + ts;
        assert(one.drop_first() =~= ts);
        assert(one[0] == Part::Literal(alts[k]));
    }
    if parts_match(all, s) {
        let k = choose|k: int|
            0 <= k < alts.len() && stands_at(s, #[trigger] alts[k], 0) && parts_match(
                all.drop_first(),
                s.skip(alts[k].len() as int),
            );
        assert(stands_at(s, alts[k], 0) && parts_match(ts, s.skip(alts[k].len() as int)));
        assert(parts_match(seq![Part::Literal(alts[k])] + ts, s));
    }
    if exists|k: int|
        0 <= k < alts.len() && parts_match(seq![Part::Literal(#[trigger] alts[k])] + ts, s) {
        let k = choose|k: int|
            0 <= k < alts.len() && parts_match(seq![Part::Literal(#[trigger] alts[k])] + ts, s);
        assert(all[0]->Alt_0 == alts);
        assert(stands_at(s, all[0]->Alt_0[k], 0) && parts_match(
            all.drop_first(),
            s.skip(all[0]->Alt_0[k].len() as int),
        ));
    }
}

// ---- how patterns are spelled ----

/// Parts that were read before stay in front.
proof fn lemma_parsed_front(f: Folding, s: Seq<char>, lit: Seq<char>, acc: Seq<Part>)
    ensures
        match parsed(f, s, lit, Seq::empty()) {
            Ok(ts) => parsed(f, s, lit, acc) == Ok::<Seq<Part>, Seq<char>>(acc + ts),
            Err(e) => parsed(f, s, lit, acc) == Err::<Seq<Part>, Seq<char>>(e),
        },
    decreases s.len(),
{
    let none = Seq::<char>::empty();
    let nil = Seq::<Part>::empty();
    assert(flushed(acc, lit) =~= acc + flushed(nil, lit));
    if s.len() == 0 {
    } else if s[0] == '*' {
        let (p, t) = if s.len() > 1 && s[1] == '*' {
            (Part::DoubleStar, s.skip(2))
        } else {
            (Part::Star, s.skip(1))
        };
        lemma_parsed_front(f, t, none, flushed(acc, lit).push(p));
        lemma_parsed_front(f, t, none, flushed(nil, lit).push(p));
        if let Ok(ts) = parsed(f, t, none, nil) {
            assert(flushed(acc, lit).push(p) + ts =~= acc + (flushed(nil, lit).push(p) + ts));
        }
    } else if s[0] == '{' {
        let end = run_before(s, '}') as int;
        if end < s.len() {
            if let Ok(p) = brace_of(f, s.subrange(1, end)) {
                let t = s.skip(end + 1);
                lemma_run_before(s, '}');
                lemma_parsed_front(f, t, none, flushed(acc, lit).push(p));
                lemma_parsed_front(f, t, none, flushed(nil, lit).push(p));
                if let Ok(ts) = parsed(f, t, none, nil) {
                    assert(flushed(acc, lit).push(p) + ts =~= acc + (flushed(nil, lit).push(p)
                        + ts));
                }
            }
        }
    } else if s[0] != '}' {
        lemma_parsed_front(f, s.skip(1), lit + f.char(s[0]), acc);
    }
}

/// What a pattern spells, or that it is not understood.
pub open spec fn spells(f: Folding, s: Seq<char>, ts: Seq<Part>) -> bool {
    parsed(f, s, Seq::empty(), Seq::empty()) == Ok::<Seq<Part>, Seq<char>>(ts)
}

/// The end of a pattern spells nothing more.
pub proof fn law_end_of_a_pattern(f: Folding)
    ensures
        spells(f, Seq::empty(), Seq::empty()),
{
}

/// `**` spells two stars, and a `*` that no other follows spells one.
pub proof fn law_stars_are_read(f: Folding, s: Seq<char>, ts: Seq<Part>)
    requires
        spells(f, s, ts),
    ensures
        spells(f, seq!['*', '*'] + s, seq![Part::DoubleStar] + ts),
        s.len() == 0 || s[0] != '*' ==> spells(f, seq!['*'] + s, seq![Part::Star] + ts),
{
    let nil = Seq::<Part>::empty();
    let none = Seq::<char>::empty();
    let two = seq!['*', '*'] + s;
    let one = seq!['*'] + s;
    assert(two.skip(2) =~= s);
    assert(one.skip(1) =~= s);
    lemma_parsed_front(f, s, none, nil.push(Part::DoubleStar));
    lemma_parsed_front(f, s, none, nil.push(Part::Star));
    assert(nil.push(Part::DoubleStar) =~= seq![Part::DoubleStar]);
    assert(nil.push(Part::Star) =~= seq![Part::Star]);
}

/// Whether a character has a meaning of its own in a pattern.
pub open spec fn is_special(c: char) -> bool {
    c == '*' || c == '{' || c == '}'
}

/// Some characters in lower case, one by one.
pub open spec fn folded(f: Folding, l: Seq<char>) -> Seq<char>
    decreases l.len(),
{
    if l.len() == 0 {
        Seq::empty()
    } else {
        folded(f, l.drop_last()) + f.char(l.last())
    }
}

/// Ordinary text up to a special character, or up to the end, spells itself in
/// lower case.
pub proof fn law_text_is_read(f: Folding, l: Seq<char>, s: Seq<char>, ts: Seq<Part>)
    requires
        folded(f, l).len() > 0,
        forall|i: int| 0 <= i < l.len() ==> !is_special(#[trigger] l[i]),
        s.len() == 0 || is_special(s[0]),
        spells(f, s, ts),
    ensures
        spells(f, l + s, seq![Part::Literal(folded(f, l))] + ts),
{
    let none = Seq::<char>::empty();
    let nil = Seq::<Part>::empty();
    lemma_text(f, l, s, l.len() as int);
    assert((l + s).skip(l.len() as int) =~= s);
    assert(l.take(l.len() as int) =~= l);
    let lit = folded(f, l);
    let front = seq![Part::Literal(lit)];
    assert(flushed(nil, lit) =~= front);
    lemma_parsed_front(f, s, none, front);
    if s.len() == 0 {
        assert(ts =~= nil);
    } else {
        // a special character ends the text in the same way whatever stood before
        assert(flushed(front, none) == front);
        assert(parsed(f, s, lit, nil) == parsed(f, s, none, front));
    }
}

/// Reading `n` ordinary characters puts them behind the text before.
proof fn lemma_text(f: Folding, l: Seq<char>, s: Seq<char>, n: int)
    requires
        0 <= n <= l.len(),
        forall|i: int| 0 <= i < l.len() ==> !is_special(#[trigger] l[i]),
    ensures
        parsed(f, l + s, Seq::empty(), Seq::empty()) == parsed(
            f,
            (l + s).skip(n),
            folded(f, l.take(n)),
            Seq::empty(),
        ),
    decreases n,
{
    if n == 0 {
        assert((l + s).skip(0) =~= l + s);
        assert(l.take(0).len() == 0);
    } else {
        lemma_text(f, l, s, n - 1);
        let t = (l + s).skip(n - 1);
        assert(t[0] == l[n - 1]);
        assert(!is_special(l[n - 1]));
        assert(t.skip(1) =~= (l + s).skip(n));
        assert(l.take(n).drop_last() =~= l.take(n - 1));
        assert(l.take(n).last() == l[n - 1]);
    }
}

/// What stands between braces is one part.
pub proof fn law_braces_are_read(f: Folding, body: Seq<char>, p: Part, s: Seq<char>, ts: Seq<Part>)
    requires
        !has_char(body, '}'),
        brace_of(f, body) == Ok::<Part, Seq<char>>(p),
        spells(f, s, ts),
    ensures
        spells(f, seq!['{'] + body + seq!['}'] + s, seq![p] + ts),
{
    let nil = Seq::<Part>::empty();
    let none = Seq::<char>::empty();
    let all = seq!['{'] + body + seq!['}'] + s;
    let n = body.len() as int;
    lemma_run_before(body, '}');
    lemma_run_is(all, '}', n + 1);
    assert(all.subrange(1, n + 1) =~= body);
    assert(all.skip(n + 2) =~= s);
    lemma_parsed_front(f, s, none, nil.push(p));
    assert(nil.push(p) =~= seq![p]);
}

/// Where a character stands first.
proof fn lemma_run_is(s: Seq<char>, c: char, n: int)
    requires
        0 <= n < s.len(),
        s[n] == c,
        forall|i: int| 0 <= i < n ==> s[i] != c,
    ensures
        run_before(s, c) == n,
{
    lemma_run_before(s, c);
    let k = run_before(s, c) as int;
    if k < n {
        assert(s[k] != c);
    }
    if k > n {
        assert(s[n] != c);
    }
}

/// How an operator is spelled.
pub open spec fn op_text(op: Op) -> Seq<char> {
    match op {
        Op::Lt => seq!['<'],
        Op::Le => seq!['<', '='],
        Op::Gt => seq!['>'],
        Op::Ge => seq!['>', '='],
        Op::Eq => seq!['='],
        Op::Ne => seq!['!', '='],
    }
}

/// Text without whitespace at its ends is not trimmed.
proof fn lemma_trimmed(s: Seq<char>)
    requires
        s.len() > 0,
        !is_white(s[0]),
        !is_white(s.last()),
    ensures
        trimmed(s) == s,
{
    assert(strip_front(s, CharSet::White) == s);
    assert(strip_back(s, CharSet::White) == s);
}

proof fn lemma_op(op: Op, b: Seq<char>)
    requires
        b.len() > 0,
        all_digits(b),
    ensures
        ({
            let t = op_text(op) + b;
            op_of(t) == Some((op, op_text(op).len() as int)) && starts_with_op(t)
        }),
{
    let t = op_text(op) + b;
    reveal_strlit("<=");
    reveal_strlit(">=");
    reveal_strlit("!=");
    reveal_strlit("==");
    reveal_strlit("<");
    reveal_strlit(">");
    reveal_strlit("=");
    assert(is_digit(b[0]));
    assert(t[op_text(op).len() as int] == b[0]);
    lemma_stands2(t, "<="@);
    lemma_stands2(t, ">="@);
    lemma_stands2(t, "!="@);
    lemma_stands2(t, "=="@);
    lemma_stands1(t, "<"@);
    lemma_stands1(t, ">"@);
    lemma_stands1(t, "="@);
}

proof fn lemma_stands2(t: Seq<char>, p: Seq<char>)
    requires
        p.len() == 2,
        t.len() >= 2,
    ensures
        stands_at(t, p, 0) <==> t[0] == p[0] && t[1] == p[1],
{
    let u = t.subrange(0, 2);
    assert(u[0] == t[0] && u[1] == t[1]);
    if t[0] == p[0] && t[1] == p[1] {
        assert(u =~= p);
    }
}

proof fn lemma_stands1(t: Seq<char>, p: Seq<char>)
    requires
        p.len() == 1,
        t.len() >= 1,
    ensures
        stands_at(t, p, 0) <==> t[0] == p[0],
{
    let u = t.subrange(0, 1);
    assert(u[0] == t[0]);
    if t[0] == p[0] {
        assert(u =~= p);
    }
}

/// A comparison between braces is a condition with its operator and its number.
pub proof fn law_comparison_is_read(f: Folding, op: Op, b: Seq<char>)
    requires
        b.len() > 0,
        all_digits(b),
        Binary64::literal(b) is Some,
    ensures
        brace_of(f, op_text(op) + b) == Ok::<Part, Seq<char>>(
            Part::Num(seq![Cond { op, value: Binary64::literal(b)->0 }]),
        ),
        !has_char(op_text(op) + b, '}'),
{
    let o = op_text(op);
    let t = o + b;
    let n = b.len() as int;
    assert(is_digit(b[n - 1]) && is_digit(b[0]));
    assert(t.last() == b[n - 1]);
    lemma_trimmed(t);
    lemma_op(op, b);
    assert forall|i: int| 0 <= i < t.len() implies t[i] != '|' && t[i] != ',' && t[i] != '}' by {
        if i >= o.len() {
            assert(is_digit(b[i - o.len()]));
            assert(t[i] == b[i - o.len()]);
        }
    }
    lemma_run_before(t, '|');
    lemma_run_before(t, ',');
    lemma_run_before(t, '}');
    assert(parts(t, ',') == seq![t]);
    assert(t.skip(o.len() as int) =~= b);
    lemma_trimmed(b);
    let c = Cond { op, value: Binary64::literal(b)->0 };
    assert(cond_of(t) == Ok::<Cond, Seq<char>>(c));
    let ps = seq![t];
    assert(ps.drop_last() =~= Seq::empty());
    assert(ps.last() == t);
    reveal_with_fuel(conds_of, 2);
    assert(Seq::<Cond>::empty().push(c) =~= seq![c]);
}

/// A numeric comparison at the start of a pattern lets a name through exactly when
/// the digits that the name starts with spell a number that compares so, and the
/// rest of the pattern matches what follows them.
pub proof fn law_comparison_filters(
    f: Folding,
    op: Op,
    b: Seq<char>,
    s: Seq<char>,
    ts: Seq<Part>,
    digits: Seq<char>,
    rest: Seq<char>,
)
    requires
        b.len() > 0,
        all_digits(b),
        number(b) <= 0x20_0000_0000_0000,
        digits.len() > 0,
        all_digits(digits),
        number(digits) <= 0x20_0000_0000_0000,
        rest.len() == 0 || !is_digit(rest[0]),
        spells(f, s, ts),
    ensures
        parsed(
            f,
            seq!['{'] + (op_text(op) + b) + seq!['}'] + s,
            Seq::empty(),
            Seq::empty(),
        ) matches Ok(all) && (parts_match(all, digits + rest) <==> compares(
            op,
            number(digits) as real,
            number(b) as real,
        ) && parts_match(ts, rest)),
{
    law_digits_are_their_number(b);
    law_digits_are_their_number(digits);
    law_comparison_is_read(f, op, b);
    let c = Cond { op, value: Binary64::literal(b)->0 };
    let conds = seq![c];
    law_braces_are_read(f, op_text(op) + b, Part::Num(conds), s, ts);
    law_digit_run_is_taken_whole(conds, ts, digits, rest);
    law_condition_compares(c, Binary64::literal(digits)->0);
    assert(conds[0] == c);
}

/// Between braces a text with a `|` is a list of alternatives, in lower case and
/// without the whitespace around each; so is one that starts with no operator.
pub proof fn law_alternatives_are_read(f: Folding, body: Seq<char>)
    requires
        trimmed(body).len() > 0,
        has_char(trimmed(body), '|') || !(trimmed(body)[0] == '<' || trimmed(body)[0] == '>'
            || trimmed(body)[0] == '=' || trimmed(body)[0] == '!'),
        forall|i: int|
            0 <= i < parts(trimmed(body), '|').len() ==> f.text(
                trimmed(#[trigger] parts(trimmed(body), '|')[i]),
            ).len() > 0,
    ensures
        brace_of(f, body) matches Ok(Part::Alt(alts)) && {
            &&& alts.len() == parts(trimmed(body), '|').len()
            &&& forall|i: int|
                0 <= i < alts.len() ==> #[trigger] alts[i] == f.text(
                    trimmed(parts(trimmed(body), '|')[i]),
                )
        },
{
    let t = trimmed(body);
    let alts = alts_of(f, parts(t, '|'));
    assert forall|i: int| 0 <= i < alts.len() implies (#[trigger] alts[i]).len() > 0 by {
        assert(f.text(trimmed(parts(t, '|')[i])).len() > 0);
    }
}

} // verus!
