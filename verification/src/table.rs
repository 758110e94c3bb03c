//! The text format of the calibration table.

use crate::binary::Binary32;
use crate::calibration::{
    as_map, id_key, is_sorted, lemma_as_map, normalize_id, Calibration, Listing, Registry,
};
use crate::decimal::pow10;
use crate::fixed::{fixed_text, last_places, sign_text, with_point, zeros};
use crate::float::{lemma_hidden, mag_exp, mag_man, of_int, signed, units, Width};
use crate::order::{lemma_units_follow, lemma_zero, value};
use crate::places::{
    lemma_is_written, lemma_large_is_kept, lemma_places_read, lemma_read_is_kept,
    lemma_read_is_near, lemma_written_is_read, millionths, read_millionths,
};
use crate::rounding::{half_even, is_ulp, lemma_ulp_is, round_mag};
use crate::text::{
    append, decimal, digit_char, is_digit, is_white, lemma_run_before, lemma_strip_front, lines,
    lines_of, precedes, run_before, strip_back, strip_front, to_chars, to_decimal, to_text, trim,
    trimmed, views, without_return, word_len, words, words_of, CharSet,
};
use vstd::arithmetic::div_mod::lemma_fundamental_div_mod_converse;
use vstd::arithmetic::power2::{
    lemma2_to64, lemma2_to64_rest, lemma_pow2_adds, lemma_pow2_pos, pow2,
};
use vstd::prelude::*;

verus! {

/// A factor: a number that is positive and finite.
pub open spec fn factor_of(tok: Seq<char>) -> Option<Binary32> {
    match Binary32::literal(tok) {
        Some(v) => if v.is_finite() && Binary32::of_integer(0).below(v) {
            Some(v)
        } else {
            None
        },
        None => None,
    }
}

/// A line of the table.
pub enum TableLine {
    /// Blank, or a comment.
    Ignored,
    /// Not understood.
    Bad,
    Entry { key: Seq<char>, cal: Calibration },
}

/// The entry that the words of a line spell.
pub open spec fn entry_of(ws: Seq<Seq<char>>) -> TableLine {
    if ws.len() < 3 || ws.len() > 4 || id_key(ws[0]).len() == 0 {
        TableLine::Bad
    } else {
        match (
            factor_of(ws[1]),
            factor_of(ws[2]),
            if ws.len() == 4 {
                factor_of(ws[3])
            } else {
                Some(Binary32::of_integer(1))
            },
        ) {
            (Some(x), Some(y), Some(z)) => TableLine::Entry {
                key: id_key(ws[0]),
                cal: Calibration { x, y, z },
            },
            _ => TableLine::Bad,
        }
    }
}

/// What a line of the table says.
pub open spec fn table_line(raw: Seq<char>) -> TableLine {
    let line = trimmed(raw);
    if line.len() == 0 || line[0] == '#' {
        TableLine::Ignored
    } else {
        entry_of(words_of(line))
    }
}

/// What has been read of a table.
pub struct TableState {
    pub map: Map<Seq<char>, Calibration>,
    /// The numbers of the lines that were skipped.
    pub bad: Seq<usize>,
}

/// What has been read after some lines.
pub open spec fn table_after(ls: Seq<Seq<char>>) -> TableState
    decreases ls.len(),
{
    if ls.len() == 0 {
        TableState { map: Map::empty(), bad: Seq::empty() }
    } else {
        let before = table_after(ls.drop_last());
        match table_line(ls.last()) {
            TableLine::Ignored => before,
            TableLine::Bad => TableState {
                map: before.map,
                bad: before.bad.push(ls.len() as usize),
            },
            TableLine::Entry { key, cal } => TableState {
                map: before.map.insert(key, cal),
                bad: before.bad,
            },
        }
    }
}

/// What a text says as a table.
pub open spec fn table_of(text: Seq<char>) -> TableState {
    table_after(lines_of(text))
}

/// Some numbers with commas between them.
pub open spec fn number_list(ns: Seq<usize>) -> Seq<char>
    decreases ns.len(),
{
    if ns.len() == 0 {
        Seq::empty()
    } else if ns.len() == 1 {
        decimal(ns[0] as nat)
    } else {
        number_list(ns.drop_last()) + ", "@ + decimal(ns.last() as nat)
    }
}

/// The report on skipped lines.
pub open spec fn skip_report(bad: Seq<usize>) -> Seq<char> {
    "Skipped lines: "@ + number_list(bad)
}

fn factor(tok: &[char]) -> (r: Option<Binary32>)
    ensures
        r == factor_of(tok@),
{
    match Binary32::parse(tok) {
        Some(v) => if v.is_finite() && Binary32::from_usize(0).below(v) {
            Some(v)
        } else {
            None
        },
        None => None,
    }
}

fn read_entry(ws: &Vec<Vec<char>>) -> (r: Option<(String, Calibration)>)
    ensures
        match r {
            Some(e) => entry_of(views(ws@)) == (TableLine::Entry { key: e.0@, cal: e.1 }),
            None => entry_of(views(ws@)) == TableLine::Bad,
        },
{
    let n: usize = ws.len();
    if n < 3 || n > 4 {
        return None;
    }
    assert(forall|i: int| 0 <= i < n ==> views(ws@)[i] == #[trigger] ws@[i]@);
    let id: String = normalize_id(to_text(ws[0].as_slice()).as_str());
    assert(ws@[0]@ == views(ws@)[0]);
    let chars: Vec<char> = to_chars(id.as_str());
    if chars.len() == 0 {
        return None;
    }
    assert(ws@[1]@ == views(ws@)[1]);
    assert(ws@[2]@ == views(ws@)[2]);
    let x: Binary32 = match factor(ws[1].as_slice()) {
        Some(v) => v,
        None => {
            return None;
        },
    };
    let y: Binary32 = match factor(ws[2].as_slice()) {
        Some(v) => v,
        None => {
            return None;
        },
    };
    let z: Binary32 = if n == 4 {
        assert(ws@[3]@ == views(ws@)[3]);
        match factor(ws[3].as_slice()) {
            Some(v) => v,
            None => {
                return None;
            },
        }
    } else {
        Binary32::from_usize(1)
    };
    Some((id, Calibration { x, y, z }))
}

fn list_numbers(ns: &Vec<usize>) -> (r: Vec<char>)
    ensures
        r@ == number_list(ns@),
{
    let mut out: Vec<char> = Vec::new();
    let sep: Vec<char> = to_chars(", ");
    let mut i: usize = 0;
    assert(ns@.take(0).len() == 0);
    assert(out@ =~= number_list(ns@.take(0)));
    while i < ns.len()
        invariant
            i <= ns@.len(),
            sep@ == ", "@,
            out@ == number_list(ns@.take(i as int)),
        decreases ns@.len() - i,
    {
        let ghost before = out@;
        let ghost t = ns@.take(i as int + 1);
        assert(t.drop_last() == ns@.take(i as int));
        assert(t.last() == ns@[i as int]);
        if i > 0 {
            append(&mut out, sep.as_slice());
        }
        let d: Vec<char> = to_decimal(ns[i]);
        append(&mut out, d.as_slice());
        proof {
            if i == 0 {
                assert(before =~= Seq::empty());
                assert(out@ =~= d@);
            }
        }
        i += 1;
    }
    assert(ns@.take(i as int) == ns@);
    out
}

/// Reads a table; the second result reports the lines that were skipped.
pub fn parse_table(text: &str) -> (r: (Registry, Option<String>))
    ensures
        r.0.wf(),
        r.0@ == table_of(text@).map,
        match r.1 {
            None => table_of(text@).bad.len() == 0,
            Some(e) => table_of(text@).bad.len() > 0 && e@ == skip_report(table_of(text@).bad),
        },
{
    let chars: Vec<char> = to_chars(text);
    let ls: Vec<Vec<char>> = lines(chars.as_slice());
    let ghost all = views(ls@);
    let mut entries: Registry = Registry::new();
    let mut bad: Vec<usize> = Vec::new();
    let mut i: usize = 0;
    assert(all.take(0).len() == 0);
    assert(bad@ =~= Seq::empty());
    while i < ls.len()
        invariant
            i <= ls@.len(),
            all == views(ls@),
            entries.wf(),
            entries@ == table_after(all.take(i as int)).map,
            bad@ == table_after(all.take(i as int)).bad,
        decreases ls@.len() - i,
    {
        proof {
            assert(all.take(i as int + 1).drop_last() == all.take(i as int));
            assert(all.take(i as int + 1).last() == ls@[i as int]@);
        }
        let line: &[char] = trim(ls[i].as_slice());
        i += 1;
        if line.len() == 0 || line[0] == '#' {
            continue;
        }
        let ws: Vec<Vec<char>> = words(line);
        match read_entry(&ws) {
            Some((key, cal)) => {
                entries.insert(key, cal);
            },
            None => {
                bad.push(i);
            },
        }
    }
    assert(all.take(i as int) == all);
    if bad.len() == 0 {
        (entries, None)
    } else {
        let list: Vec<char> = list_numbers(&bad);
        let t: String = to_text(list.as_slice());
        (entries, Some("Skipped lines: ".to_owned().concat(t.as_str())))
    }
}

// ---- writing ----

/// The comments at the top of the file.
pub open spec fn head() -> Seq<char> {
    "# Kintuba AFM Viewer — instrument XYZ calibration"@ + "\n"@
        + "# <serial number>  <x scale>  <y scale>  <z scale>"@ + "\n"@
}

/// The line of an entry, without its end.
pub open spec fn entry_text(e: (Seq<char>, Calibration)) -> Seq<char> {
    e.0 + "  "@ + e.1.x.fixed(6) + "  "@ + e.1.y.fixed(6) + "  "@ + e.1.z.fixed(6)
}

/// The lines of some entries.
pub open spec fn entry_lines(l: Listing) -> Seq<char>
    decreases l.len(),
{
    if l.len() == 0 {
        Seq::empty()
    } else {
        entry_lines(l.drop_last()) + (entry_text(l.last()) + "\n"@)
    }
}

/// A table as text.
pub open spec fn rendered(l: Listing) -> Seq<char> {
    head() + entry_lines(l)
}

/// Writes a table.
pub fn render_table(entries: &Registry) -> (r: String)
    ensures
        r@ == rendered(entries.listing()),
{
    let ghost l = entries.listing();
    let n: usize = entries.len();
    let gap: Vec<char> = to_chars("  ");
    let end: Vec<char> = to_chars("\n");
    let mut out: Vec<char> = to_chars("# Kintuba AFM Viewer — instrument XYZ calibration");
    append(&mut out, end.as_slice());
    let second: Vec<char> = to_chars("# <serial number>  <x scale>  <y scale>  <z scale>");
    append(&mut out, second.as_slice());
    append(&mut out, end.as_slice());
    assert(out@ =~= head() + entry_lines(l.take(0)));
    let mut i: usize = 0;
    while i < n
        invariant
            n == l.len(),
            l == entries.listing(),
            i <= n,
            gap@ == "  "@,
            end@ == "\n"@,
            out@ == head() + entry_lines(l.take(i as int)),
        decreases n - i,
    {
        let ghost before = out@;
        let ghost t = l.take(i as int + 1);
        assert(t.drop_last() == l.take(i as int));
        assert(t.last() == l[i as int]);
        let (key, cal) = entries.entry(i);
        let k: Vec<char> = to_chars(key.as_str());
        append(&mut out, k.as_slice());
        append(&mut out, gap.as_slice());
        let x: Vec<char> = cal.x.to_fixed(6);
        append(&mut out, x.as_slice());
        append(&mut out, gap.as_slice());
        let y: Vec<char> = cal.y.to_fixed(6);
        append(&mut out, y.as_slice());
        append(&mut out, gap.as_slice());
        let z: Vec<char> = cal.z.to_fixed(6);
        append(&mut out, z.as_slice());
        append(&mut out, end.as_slice());
        assert(out@ =~= before + (entry_text(l[i as int]) + "\n"@));
        assert(out@ =~= head() + entry_lines(t));
        i += 1;
    }
    assert(l.take(i as int) == l);
    to_text(out.as_slice())
}

// ---- reading back what was written ----

/// Some characters without whitespace.
pub open spec fn is_word(s: Seq<char>) -> bool {
    s.len() > 0 && forall|i: int| 0 <= i < s.len() ==> !is_white(#[trigger] s[i])
}

/// A key that survives in a line of the table: one word, not a comment, and in
/// its normal form.
pub open spec fn is_plain_key(k: Seq<char>) -> bool {
    is_word(k) && k[0] != '#' && id_key(k) == k
}

/// A factor that is not zero to six decimals.
pub open spec fn is_writable(v: Binary32) -> bool {
    v.is_finite() && Binary32::of_integer(0).below(v) && millionths(v.parts().mag as nat) > 0
}

/// The number nearest to some millionths.
pub open spec fn of_millionths(k: nat) -> Binary32 {
    Binary32::of(signed(false, read_millionths(k)))
}

/// A factor that six decimals keep: one that was read from a text with at most
/// as many, or one that is at least sixteen.
pub open spec fn is_kept(v: Binary32) -> bool {
    (exists|k: nat| k > 0 && v == #[trigger] of_millionths(k)) || Binary32::of_integer(16).at_most(
        v,
    )
}

pub open spec fn all_writable(c: Calibration) -> bool {
    is_writable(c.x) && is_writable(c.y) && is_writable(c.z)
}

/// A factor with six decimals.
pub open spec fn reread(v: Binary32) -> Binary32 {
    factor_of(v.fixed(6))->0
}

pub open spec fn all_kept(c: Calibration) -> bool {
    is_kept(c.x) && is_kept(c.y) && is_kept(c.z)
}

/// Some entries with their factors to six decimals.
pub open spec fn reread_all(l: Listing) -> Listing {
    Seq::new(
        l.len(),
        |i: int|
            (
                l[i].0,
                Calibration { x: reread(l[i].1.x), y: reread(l[i].1.y), z: reread(l[i].1.z) },
            ),
    )
}

proof fn lemma_decimal_word(n: nat)
    ensures
        decimal(n).len() > 0,
        forall|i: int| 0 <= i < decimal(n).len() ==> is_digit(#[trigger] decimal(n)[i]),
    decreases n,
{
    if n >= 10 {
        lemma_decimal_word(n / 10);
        let t = decimal(n / 10);
        assert(decimal(n) == t.push(digit_char(n % 10)));
        assert forall|i: int| 0 <= i < decimal(n).len() implies is_digit(
            #[trigger] decimal(n)[i],
        ) by {
            if i < t.len() {
                assert(decimal(n)[i] == t[i]);
            }
        }
    }
}

/// A written number is one word, and ends in no carriage return.
proof fn lemma_fixed_word(v: Binary32)
    ensures
        is_word(v.fixed(6)),
{
    let a = v.parts();
    let w = Width::Single;
    reveal_strlit("NaN");
    reveal_strlit("inf");
    reveal_strlit("-");
    reveal_strlit("+");
    reveal_strlit("");
    reveal_strlit(".");
    let t = fixed_text(w, a, 6, false);
    if a.mag > w.inf() {
    } else if a.mag == w.inf() {
    } else {
        let q = last_places(w, a.mag as nat, 6);
        lemma_decimal_word(q);
        let d = decimal(q);
        let s = zeros(7 - d.len()) + d;
        let body = with_point(q, 6);
        assert(body == s.take(s.len() - 6) + "."@ + s.skip(s.len() - 6));
        assert forall|i: int| 0 <= i < s.len() implies is_digit(#[trigger] s[i]) by {
            if i >= zeros(7 - d.len()).len() {
                assert(s[i] == d[i - zeros(7 - d.len()).len()]);
            }
        }
        assert forall|i: int| 0 <= i < body.len() implies !is_white(#[trigger] body[i]) by {
            let k = s.len() - 6;
            if i < k {
                assert(body[i] == s[i]);
            } else if i == k {
                assert(body[i] == '.');
            } else {
                assert(body[i] == s[i - 1]);
            }
        }
        let sign = sign_text(a.neg, false);
        assert(t == sign + body);
        assert forall|i: int| 0 <= i < t.len() implies !is_white(#[trigger] t[i]) by {
            if i >= sign.len() {
                assert(t[i] == body[i - sign.len()]);
            }
        }
    }
}

proof fn lemma_strip_none(s: Seq<char>)
    requires
        s.len() > 0,
        !is_white(s[0]),
        !is_white(s.last()),
    ensures
        trimmed(s) == s,
{
    assert(strip_front(s, CharSet::White) == s);
    assert(strip_back(s, CharSet::White) == s);
}

proof fn lemma_word_then(w: Seq<char>, rest: Seq<char>)
    requires
        forall|i: int| 0 <= i < w.len() ==> !is_white(#[trigger] w[i]),
        rest.len() == 0 || is_white(rest[0]),
    ensures
        word_len(w + rest) == w.len(),
    decreases w.len(),
{
    let s = w + rest;
    if w.len() == 0 {
        assert(s =~= rest);
    } else {
        assert(s[0] == w[0]);
        assert(s.drop_first() =~= w.drop_first() + rest);
        lemma_word_then(w.drop_first(), rest);
    }
}

/// A word, a gap of two spaces, and more words.
proof fn lemma_words_gap(w: Seq<char>, rest: Seq<char>)
    requires
        is_word(w),
        rest.len() > 0,
        !is_white(rest[0]),
    ensures
        words_of(w + "  "@ + rest) == seq![w] + words_of(rest),
{
    reveal_strlit("  ");
    let gap = "  "@;
    let s = w + gap + rest;
    assert(s =~= w + (gap + rest));
    assert((gap + rest)[0] == ' ');
    lemma_word_then(w, gap + rest);
    assert(s[0] == w[0]);
    assert(strip_front(s, CharSet::White) == s);
    assert(s.take(w.len() as int) =~= w);
    assert(s.skip(w.len() as int) =~= gap + rest);
    lemma_gap(rest);
    assert(words_of(s) == seq![w] + words_of(gap + rest));
}

/// Two spaces before a word do not matter.
proof fn lemma_gap(rest: Seq<char>)
    requires
        rest.len() > 0,
        !is_white(rest[0]),
    ensures
        words_of("  "@ + rest) == words_of(rest),
{
    reveal_strlit("  ");
    let s = "  "@ + rest;
    let t = s.drop_first();
    assert(s[0] == ' ');
    assert(t[0] == ' ');
    assert(t.drop_first() =~= rest);
    assert(strip_front(rest, CharSet::White) == rest);
    assert(strip_front(t, CharSet::White) == rest);
    assert(strip_front(s, CharSet::White) == rest);
}

proof fn lemma_one_word(w: Seq<char>)
    requires
        is_word(w),
    ensures
        words_of(w) == seq![w],
{
    let none = Seq::<char>::empty();
    lemma_word_then(w, none);
    assert(w + none =~= w);
    assert(strip_front(w, CharSet::White) == w);
    assert(w.take(w.len() as int) =~= w);
    assert(w.skip(w.len() as int) =~= none);
    assert(strip_front(none, CharSet::White).len() == 0) by {
        lemma_strip_front(none, CharSet::White);
    }
    assert(words_of(none) =~= Seq::empty());
    assert(words_of(w) =~= seq![w]);
}

/// Four words with gaps between them.
proof fn lemma_four_words(k: Seq<char>, x: Seq<char>, y: Seq<char>, z: Seq<char>)
    requires
        is_word(k),
        is_word(x),
        is_word(y),
        is_word(z),
    ensures
        words_of(k + "  "@ + x + "  "@ + y + "  "@ + z) == seq![k, x, y, z],
        trimmed(k + "  "@ + x + "  "@ + y + "  "@ + z) == k + "  "@ + x + "  "@ + y + "  "@ + z,
        (k + "  "@ + x + "  "@ + y + "  "@ + z)[0] == k[0],
        (k + "  "@ + x + "  "@ + y + "  "@ + z).last() == z.last(),
        (k + "  "@ + x + "  "@ + y + "  "@ + z).len() > 0,
{
    let gap = "  "@;
    let line = k + gap + x + gap + y + gap + z;
    let from_y = y + gap + z;
    let from_x = x + gap + from_y;
    assert(line =~= k + gap + from_x);
    assert(from_y[0] == y[0]);
    assert(from_x[0] == x[0]);
    lemma_one_word(z);
    lemma_words_gap(y, z);
    lemma_words_gap(x, from_y);
    lemma_words_gap(k, from_x);
    assert(words_of(line) =~= seq![k, x, y, z]);
    assert(line[0] == k[0]);
    assert(line.last() == z.last());
    assert(z.last() == z[z.len() - 1]);
    lemma_strip_none(line);
}

/// What a factor is read back as.
proof fn lemma_reread(v: Binary32)
    requires
        is_writable(v),
    ensures
        factor_of(v.fixed(6)) == Some(of_millionths(millionths(v.parts().mag as nat))),
{
    reveal(of_int);
    reveal_strlit("");
    let w = Width::Single;
    let a = v.parts();
    assert(!a.neg && a.mag > 0);
    let q = millionths(a.mag as nat);
    assert(v.fixed(6) =~= with_point(q, 6));
    lemma_places_read(q);
    lemma_written_is_read(a.mag as nat);
    let r = of_millionths(q);
    assert(r.parts() == signed(false, read_millionths(q)));
}

proof fn lemma_decimal_range(k: nat)
    ensures
        read_millionths(k) <= 0x7f80_0000,
{
    if k > 0 {
        let m = round_mag(24, 0x7f80_0000, k * pow2(149), pow10(6));
        assert(m <= 0x7f80_0000);
    }
}

/// A pattern of at least that of sixteen has a wide spacing.
proof fn lemma_sixteen(mag: u64)
    requires
        mag < 0x7f80_0000,
        Binary32::of_integer(16).at_most(Binary32 { bits: mag as u32 }),
    ensures
        mag_exp(Width::Single, mag as nat) >= 130,
{
    reveal(of_int);
    let n = 16 * pow2(149);
    lemma2_to64();
    lemma_pow2_adds(4, 149);
    lemma_pow2_pos(149);
    lemma_pow2_adds(23, 130);
    lemma_pow2_adds(24, 130);
    assert(is_ulp(24, n, 1, 130));
    lemma_ulp_is(24, n, 1, 130);
    lemma_fundamental_div_mod_converse(n as int, pow2(130) as int, 0x80_0000, 0);
    lemma_hidden(Width::Single);
    assert(half_even(n, pow2(130)) == 0x80_0000);
    assert(round_mag(24, 0x7f80_0000, n, 1) == 131 * 0x80_0000);
    assert(mag >= 131 * 0x80_0000);
    assert(mag / 0x80_0000 >= 131) by (nonlinear_arith)
        requires
            mag >= 131 * 0x80_0000,
    ;
}

/// A factor that six decimals keep is read back unchanged.
pub proof fn law_kept_factor_comes_back(v: Binary32)
    requires
        is_kept(v),
        is_writable(v),
    ensures
        reread(v) == v,
{
    reveal(of_int);
    lemma_reread(v);
    let a = v.parts();
    assert(!a.neg);
    assert(v == Binary32::of(a));
    if exists|k: nat| k > 0 && v == #[trigger] of_millionths(k) {
        let k = choose|k: nat| k > 0 && v == #[trigger] of_millionths(k);
        lemma_decimal_range(k);
        assert(a.mag == read_millionths(k));
        lemma_read_is_kept(k);
    } else {
        lemma_sixteen(a.mag);
        lemma_large_is_kept(a.mag as nat);
    }
}

/// Reading a table, writing it and reading it again changes nothing.
pub proof fn law_rereading_is_stable(v: Binary32)
    requires
        is_writable(v),
    ensures
        is_writable(reread(v)),
        reread(reread(v)) == reread(v),
{
    reveal(of_int);
    lemma_reread(v);
    let q = millionths(v.parts().mag as nat);
    let r = of_millionths(q);
    assert(!v.parts().neg && v.parts().mag > 0);
    lemma_written_is_read(v.parts().mag as nat);
    assert(r.parts() == signed(false, read_millionths(q)));
    lemma_read_is_kept(q);
    assert(is_writable(r));
    assert(is_kept(r));
    law_kept_factor_comes_back(r);
}

/// The line of a plain entry reads back as that entry.
proof fn lemma_entry_line(e: (Seq<char>, Calibration))
    requires
        is_plain_key(e.0),
        all_writable(e.1),
    ensures
        table_line(entry_text(e)) == (TableLine::Entry {
            key: e.0,
            cal: Calibration { x: reread(e.1.x), y: reread(e.1.y), z: reread(e.1.z) },
        }),
        without_return(entry_text(e)) == entry_text(e),
{
    lemma_fixed_word(e.1.x);
    lemma_fixed_word(e.1.y);
    lemma_fixed_word(e.1.z);
    lemma_four_words(e.0, e.1.x.fixed(6), e.1.y.fixed(6), e.1.z.fixed(6));
    lemma_reread(e.1.x);
    lemma_reread(e.1.y);
    lemma_reread(e.1.z);
    let z = e.1.z.fixed(6);
    assert(z.last() == z[z.len() - 1]);
    assert(!is_white(entry_text(e).last()));
}

proof fn lemma_run_prefix(s: Seq<char>, t: Seq<char>, c: char)
    requires
        run_before(s, c) < s.len(),
    ensures
        run_before(s + t, c) == run_before(s, c),
    decreases s.len(),
{
    if s[0] != c {
        assert((s + t).drop_first() =~= s.drop_first() + t);
        lemma_run_prefix(s.drop_first(), t, c);
    }
    assert((s + t)[0] == s[0]);
}

proof fn lemma_run_none(s: Seq<char>, t: Seq<char>, c: char)
    requires
        forall|i: int| 0 <= i < s.len() ==> s[i] != c,
        t.len() > 0,
        t[0] == c,
    ensures
        run_before(s + t, c) == s.len(),
    decreases s.len(),
{
    if s.len() == 0 {
        assert(s + t =~= t);
    } else {
        assert((s + t)[0] == s[0]);
        assert((s + t).drop_first() =~= s.drop_first() + t);
        lemma_run_none(s.drop_first(), t, c);
    }
}

/// One more line at the end of some complete lines.
proof fn lemma_lines_append(s: Seq<char>, line: Seq<char>)
    requires
        s.len() == 0 || s.last() == '\n',
        forall|i: int| 0 <= i < line.len() ==> line[i] != '\n',
    ensures
        lines_of(s + (line + seq!['\n'])) == lines_of(s).push(without_return(line)),
    decreases s.len(),
{
    let end = seq!['\n'];
    let t = line + end;
    if s.len() == 0 {
        assert(s + t =~= t);
        lemma_run_none(line, end, '\n');
        assert(t.take(line.len() as int) =~= line);
        let rest = t.skip(line.len() as int + 1);
        assert(rest.len() == 0);
        assert(lines_of(rest) =~= Seq::empty());
        assert(lines_of(t) =~= seq![without_return(line)]);
        assert(lines_of(s).push(without_return(line)) =~= seq![without_return(line)]);
    } else {
        let i = run_before(s, '\n') as int;
        lemma_run_before(s, '\n');
        assert(s[s.len() - 1] == '\n');
        assert(i < s.len());
        lemma_run_prefix(s, t, '\n');
        let all = s + t;
        assert(all.take(i) =~= s.take(i));
        assert(all.skip(i + 1) =~= s.skip(i + 1) + t);
        let rest = s.skip(i + 1);
        assert(rest.len() == 0 || rest.last() == s.last());
        lemma_lines_append(rest, line);
        let first = seq![without_return(s.take(i))];
        assert(lines_of(all) =~= first + lines_of(rest + t));
        assert(first + lines_of(rest).push(without_return(line)) =~= (first + lines_of(rest)).push(
            without_return(line),
        ));
    }
}

proof fn lemma_no_feed(e: (Seq<char>, Calibration))
    requires
        is_plain_key(e.0),
    ensures
        forall|i: int| 0 <= i < entry_text(e).len() ==> entry_text(e)[i] != '\n',
{
    let (k, x, y, z) = (e.0, e.1.x.fixed(6), e.1.y.fixed(6), e.1.z.fixed(6));
    reveal_strlit("  ");
    lemma_fixed_word(e.1.x);
    lemma_fixed_word(e.1.y);
    lemma_fixed_word(e.1.z);
    let t = entry_text(e);
    let (a, b, c) = (k.len() as int, x.len() as int, y.len() as int);
    assert forall|i: int| 0 <= i < t.len() implies t[i] != '\n' by {
        if i < a {
            assert(t[i] == k[i]);
        } else if i < a + 2 {
            assert(t[i] == "  "@[i - a]);
        } else if i < a + 2 + b {
            assert(t[i] == x[i - a - 2]);
        } else if i < a + b + 4 {
            assert(t[i] == "  "@[i - a - 2 - b]);
        } else if i < a + b + 4 + c {
            assert(t[i] == y[i - a - b - 4]);
        } else if i < a + b + c + 6 {
            assert(t[i] == "  "@[i - a - b - 4 - c]);
        } else {
            assert(t[i] == z[i - a - b - c - 6]);
        }
    }
}

/// The comments at the top are two lines that say nothing.
proof fn lemma_head()
    ensures
        head().len() > 0,
        head().last() == '\n',
        table_of(head()).map == Map::<Seq<char>, Calibration>::empty(),
        table_of(head()).bad.len() == 0,
{
    let a = "# Kintuba AFM Viewer — instrument XYZ calibration"@;
    let b = "# <serial number>  <x scale>  <y scale>  <z scale>"@;
    let none = Seq::<char>::empty();
    reveal_strlit("# Kintuba AFM Viewer — instrument XYZ calibration");
    reveal_strlit("# <serial number>  <x scale>  <y scale>  <z scale>");
    reveal_strlit("\n");
    assert("\n"@ =~= seq!['\n']);
    lemma_lines_append(none, a);
    let first = none + (a + seq!['\n']);
    lemma_lines_append(first, b);
    assert(head() =~= first + (b + seq!['\n']));
    assert(lines_of(none) =~= Seq::empty());
    let ls = lines_of(head());
    assert(ls =~= seq![a, b]);
    assert(a[0] == '#' && b[0] == '#');
    lemma_strip_none(a);
    lemma_strip_none(b);
    assert(ls.drop_last() =~= seq![a]);
    assert(seq![a].drop_last() =~= Seq::empty());
    assert(table_line(a) == TableLine::Ignored);
    assert(table_line(b) == TableLine::Ignored);
    assert(table_after(Seq::<Seq<char>>::empty()).bad.len() == 0);
    assert(table_after(seq![a]) == table_after(Seq::<Seq<char>>::empty()));
    assert(table_after(ls) == table_after(seq![a]));
}

/// Reading what was written gives back every entry, with its factors to six
/// decimals, and no line is skipped; factors that six decimals keep come back
/// unchanged.
pub proof fn law_reads_back_what_was_written(l: Listing)
    requires
        forall|i: int|
            0 <= i < l.len() ==> is_plain_key((#[trigger] l[i]).0) && all_writable(l[i].1),
    ensures
        table_of(rendered(l)).map == as_map(reread_all(l)),
        table_of(rendered(l)).bad.len() == 0,
        (forall|i: int| 0 <= i < l.len() ==> all_kept((#[trigger] l[i]).1)) ==> table_of(
            rendered(l),
        ).map == as_map(l),
{
    lemma_read_back(l);
    if forall|i: int| 0 <= i < l.len() ==> all_kept((#[trigger] l[i]).1) {
        assert forall|i: int| 0 <= i < l.len() implies reread_all(l)[i] == #[trigger] l[i] by {
            law_kept_factor_comes_back(l[i].1.x);
            law_kept_factor_comes_back(l[i].1.y);
            law_kept_factor_comes_back(l[i].1.z);
        }
        assert(reread_all(l) =~= l);
    }
}

/// `0.000001`.
pub const MILLIONTH: u32 = 0x3586_37bd;

/// A finite factor of at least a millionth.
pub open spec fn is_usual(v: Binary32) -> bool {
    v.is_finite() && (Binary32 { bits: MILLIONTH }).at_most(v)
}

pub open spec fn all_usual(c: Calibration) -> bool {
    is_usual(c.x) && is_usual(c.y) && is_usual(c.z)
}

/// Whether two finite numbers differ by at most a millionth.
pub open spec fn is_near(a: Binary32, b: Binary32) -> bool {
    a.is_finite() && b.is_finite() && (value(a) - value(b)) * 1_000_000 <= pow2(149) && (value(b)
        - value(a)) * 1_000_000 <= pow2(149)
}

pub open spec fn all_near(a: Calibration, b: Calibration) -> bool {
    is_near(a.x, b.x) && is_near(a.y, b.y) && is_near(a.z, b.z)
}

/// A finite factor of at least a millionth can be written, and is read back to
/// within a millionth.
pub proof fn law_factor_comes_back_to_a_millionth(v: Binary32)
    requires
        is_usual(v),
    ensures
        is_writable(v),
        is_near(reread(v), v),
{
    let w = Width::Single;
    let low = Binary32 { bits: MILLIONTH };
    let m: nat = 0x3586_37bd;
    lemma_zero();
    assert(mag_exp(w, m) == 106 && mag_man(w, m) == 0x86_37bd);
    lemma_pow2_adds(43, 106);
    lemma2_to64_rest();
    lemma_pow2_pos(106);
    assert(units(w, m) == 0x86_37bd * pow2(106));
    assert(low.parts().mag == m && !low.parts().neg);
    lemma_units_follow(low, v);
    assert(!v.parts().neg);
    lemma_is_written(v.parts().mag as nat);
    lemma_reread(v);
    lemma_written_is_read(v.parts().mag as nat);
    lemma_read_is_near(v.parts().mag as nat);
    let q = millionths(v.parts().mag as nat);
    assert(of_millionths(q).parts() == signed(false, read_millionths(q)));
}

/// A table of usual factors comes back: no line is skipped, the keys are the
/// same, and each factor is within a millionth of what it was.
pub proof fn law_table_comes_back(l: Listing)
    requires
        is_sorted(l),
        forall|i: int| 0 <= i < l.len() ==> is_plain_key((#[trigger] l[i]).0) && all_usual(l[i].1),
    ensures
        table_of(rendered(l)).bad.len() == 0,
        table_of(rendered(l)).map.dom() == as_map(l).dom(),
        forall|k: Seq<char>| #[trigger]
            as_map(l).dom().contains(k) ==> all_near(table_of(rendered(l)).map[k], as_map(l)[k]),
{
    let r = reread_all(l);
    assert forall|i: int| 0 <= i < l.len() implies all_writable((#[trigger] l[i]).1) && all_near(
        r[i].1,
        l[i].1,
    ) by {
        law_factor_comes_back_to_a_millionth(l[i].1.x);
        law_factor_comes_back_to_a_millionth(l[i].1.y);
        law_factor_comes_back_to_a_millionth(l[i].1.z);
    }
    law_reads_back_what_was_written(l);
    assert forall|i: int, j: int| 0 <= i < j < r.len() implies precedes(r[i].0, r[j].0) by {
        assert(r[i].0 == l[i].0 && r[j].0 == l[j].0);
    }
    lemma_as_map(l);
    lemma_as_map(r);
    assert forall|k: Seq<char>| as_map(r).dom().contains(k) == as_map(l).dom().contains(k) by {
        if as_map(l).dom().contains(k) {
            let i = choose|i: int| 0 <= i < l.len() && #[trigger] l[i].0 == k;
            assert(r[i].0 == k);
        }
        if as_map(r).dom().contains(k) {
            let i = choose|i: int| 0 <= i < r.len() && #[trigger] r[i].0 == k;
            assert(l[i].0 == k);
        }
    }
    assert(as_map(r).dom() =~= as_map(l).dom());
    assert forall|k: Seq<char>| #[trigger] as_map(l).dom().contains(k) implies all_near(
        as_map(r)[k],
        as_map(l)[k],
    ) by {
        let i = choose|i: int| 0 <= i < l.len() && #[trigger] l[i].0 == k;
        assert(r[i].0 == k);
        assert(all_near(r[i].1, l[i].1));
    }
}

/// Blank lines and comments are ignored.
pub proof fn law_comments_are_ignored(before: Seq<Seq<char>>, line: Seq<char>)
    requires
        trimmed(line).len() == 0 || trimmed(line)[0] == '#',
    ensures
        table_after(before.push(line)) == table_after(before),
{
    assert(before.push(line).drop_last() =~= before);
}

/// A line that is not understood is skipped: the entries stay as they are, and
/// its number is reported.
pub proof fn law_bad_line_is_skipped(before: Seq<Seq<char>>, line: Seq<char>)
    requires
        table_line(line) == TableLine::Bad,
    ensures
        table_after(before.push(line)).map == table_after(before).map,
        table_after(before.push(line)).bad == table_after(before).bad.push(
            (before.len() + 1) as usize,
        ),
{
    assert(before.push(line).drop_last() =~= before);
}

/// A line is an instrument and its X, Y and Z factor, in this order, each of which
/// is a positive finite number; the instrument is known in lower case. A later
/// line of the same instrument replaces an earlier one.
pub proof fn law_line_is_an_entry(
    before: Seq<Seq<char>>,
    line: Seq<char>,
    id: Seq<char>,
    x: Seq<char>,
    y: Seq<char>,
    z: Seq<char>,
)
    requires
        trimmed(line).len() > 0,
        trimmed(line)[0] != '#',
        words_of(trimmed(line)) == seq![id, x, y, z],
        id_key(id).len() > 0,
    ensures
        ({
            let is_factor = |t: Seq<char>|
                Binary32::literal(t) matches Some(v) && v.is_finite() && Binary32::of_integer(
                    0,
                ).below(v);
            let all = table_after(before.push(line));
            if is_factor(x) && is_factor(y) && is_factor(z) {
                &&& all.bad == table_after(before).bad
                &&& all.map == table_after(before).map.insert(
                    id_key(id),
                    Calibration {
                        x: Binary32::literal(x)->0,
                        y: Binary32::literal(y)->0,
                        z: Binary32::literal(z)->0,
                    },
                )
            } else {
                all.map == table_after(before).map
            }
        }),
{
    assert(before.push(line).drop_last() =~= before);
}

/// A line without a third factor stands for one with the factor one.
pub proof fn law_missing_z_is_one(id: Seq<char>, x: Seq<char>, y: Seq<char>)
    requires
        id_key(id).len() > 0,
        factor_of(x) is Some,
        factor_of(y) is Some,
    ensures
        entry_of(seq![id, x, y]) == (TableLine::Entry {
            key: id_key(id),
            cal: Calibration {
                x: factor_of(x)->0,
                y: factor_of(y)->0,
                z: Binary32::of_integer(1),
            },
        }),
{
}

proof fn lemma_read_back(l: Listing)
    requires
        forall|i: int|
            0 <= i < l.len() ==> is_plain_key((#[trigger] l[i]).0) && all_writable(l[i].1),
    ensures
        table_of(rendered(l)).map == as_map(reread_all(l)),
        table_of(rendered(l)).bad.len() == 0,
        rendered(l).len() > 0,
        rendered(l).last() == '\n',
    decreases l.len(),
{
    lemma_head();
    reveal_strlit("\n");
    assert("\n"@ =~= seq!['\n']);
    if l.len() == 0 {
        assert(rendered(l) =~= head());
        assert(reread_all(l).len() == 0);
    } else {
        let t = l.drop_last();
        let e = l.last();
        assert(e == l[l.len() - 1]);
        assert forall|i: int| 0 <= i < t.len() implies is_plain_key((#[trigger] t[i]).0)
            && all_writable(t[i].1) by {
            assert(t[i] == l[i]);
        }
        lemma_read_back(t);
        lemma_line_read(rendered(t), e);
        lemma_rendered_last(l);
        assert(reread_all(l).drop_last() =~= reread_all(t));
        assert(reread_all(l).last() == (
            e.0,
            Calibration { x: reread(e.1.x), y: reread(e.1.y), z: reread(e.1.z) },
        ));
    }
}

/// The last entry is the last line.
proof fn lemma_rendered_last(l: Listing)
    requires
        l.len() > 0,
    ensures
        rendered(l) == rendered(l.drop_last()) + (entry_text(l.last()) + seq!['\n']),
{
    reveal_strlit("\n");
    assert("\n"@ =~= seq!['\n']);
    let (a, b) = (entry_lines(l.drop_last()), entry_text(l.last()) + seq!['\n']);
    assert(head() + (a + b) =~= (head() + a) + b);
}

/// A line that is written behind a table is read as one more entry.
proof fn lemma_line_read(before: Seq<char>, e: (Seq<char>, Calibration))
    requires
        before.len() > 0,
        before.last() == '\n',
        is_plain_key(e.0),
        all_writable(e.1),
    ensures
        ({
            let text = before + (entry_text(e) + seq!['\n']);
            let cal = Calibration { x: reread(e.1.x), y: reread(e.1.y), z: reread(e.1.z) };
            &&& table_of(text).map == table_of(before).map.insert(e.0, cal)
            &&& table_of(text).bad == table_of(before).bad
            &&& text.len() > 0 && text.last() == '\n'
        }),
{
    let line = entry_text(e);
    let text = before + (line + seq!['\n']);
    lemma_no_feed(e);
    lemma_entry_line(e);
    lemma_lines_append(before, line);
    let ls = lines_of(text);
    assert(ls == lines_of(before).push(line));
    assert(ls.drop_last() =~= lines_of(before));
    assert(ls.last() == line);
}

} // verus!
