//! What the numbers of a file stand for: its samples, its steps and its extents.

use crate::binary::Binary32;
use crate::channels::named_value;
use crate::drawn_line::lemma_rounded;
use crate::fields::{header_value, value_of, Entries};
use crate::float::Width;
use crate::matching::{lemma_number, number};
use crate::reals::{
    law_compare, law_of_integer, law_over, law_times, lemma_finite_times, lemma_of_integer_finite,
    lemma_power_is_kept, lemma_quotient_finite, num, rounds_to, size,
};
use crate::samples::{
    decoded, is_big_endian, law_decoded_shape, law_joined_is_row_major, long, sample, scaled_rows,
    word,
};
use crate::scale::{
    is_rectangular, last_number, lengths_of, number_before, numbers_in, scan_lines, scan_size,
    sensitivity_name, slow_axis_size, stated_size, step_height, usize_field,
};
use crate::spm::{block_image, data_slice, layout_of, raw_rows, Processing};
use crate::text::{
    all_digits, digit_run, has_text, is_digit, lemma_find, position_of, stands_at, trimmed,
    upper_all, words_of,
};
use vstd::arithmetic::power2::{lemma2_to64, pow2};
use vstd::prelude::*;

verus! {

// ---- samples ----

/// The unsigned number in some bytes, the lowest first.
pub open spec fn lowest_first(b: Seq<u8>) -> int
    decreases b.len(),
{
    if b.len() == 0 {
        0
    } else {
        b[0] as int + 0x100 * lowest_first(b.drop_first())
    }
}

/// The unsigned number in some bytes, the highest first.
pub open spec fn highest_first(b: Seq<u8>) -> int
    decreases b.len(),
{
    if b.len() == 0 {
        0
    } else {
        0x100 * highest_first(b.drop_last()) + b.last() as int
    }
}

/// Whether a text holds the word "big", in letters of either case.
pub open spec fn says_big(context: Option<Seq<char>>) -> bool {
    context matches Some(v) && exists|i: int|
        0 <= i && i + 3 <= v.len() && (#[trigger] v[i] == 'b' || v[i] == 'B') && (v[i + 1] == 'i'
            || v[i + 1] == 'I') && (v[i + 2] == 'g' || v[i + 2] == 'G')
}

/// Whether `n` is the signed number in some bytes: it is in the range of two's
/// complement, and differs from the unsigned number by a multiple of the count of
/// such numbers.
pub open spec fn is_signed_number(n: int, b: Seq<u8>, big: bool) -> bool {
    let full = if b.len() == 2 { 0x1_0000int } else { 0x1_0000_0000int };
    let unsigned = if big { highest_first(b) } else { lowest_first(b) };
    &&& -full <= 2 * n < full
    &&& (n - unsigned) % full == 0
}

/// A start context says that samples are stored high byte first when it holds the
/// word "big" in letters of either case, and only then.
pub proof fn law_byte_order(context: Option<Seq<char>>)
    ensures
        is_big_endian(context) <==> says_big(context),
{
    if let Some(v) = context {
        let u = upper_all(v);
        let p = "BIG"@;
        reveal_strlit("BIG");
        lemma_find(u, p, 0);
        if is_big_endian(context) {
            let i = position_of(u, p)->0;
            assert(stands_at(u, p, i));
            let w = u.subrange(i, i + 3);
            assert(w[0] == u[i] && w[1] == u[i + 1] && w[2] == u[i + 2]);
            assert(v[i] == 'b' || v[i] == 'B');
        }
        if says_big(context) {
            let i = choose|i: int|
                0 <= i && i + 3 <= v.len() && (#[trigger] v[i] == 'b' || v[i] == 'B') && (v[i + 1]
                    == 'i' || v[i + 1] == 'I') && (v[i + 2] == 'g' || v[i + 2] == 'G');
            let w = u.subrange(i, i + 3);
            assert(w[0] == u[i] && w[1] == u[i + 1] && w[2] == u[i + 2]);
            assert(w =~= p);
            assert(stands_at(u, p, i));
        }
    }
}

proof fn lemma_unsigned(b: Seq<u8>)
    requires
        b.len() == 2 || b.len() == 4,
    ensures
        b.len() == 2 ==> lowest_first(b) == b[0] + 0x100 * b[1],
        b.len() == 2 ==> highest_first(b) == 0x100 * b[0] + b[1],
        b.len() == 4 ==> lowest_first(b) == b[0] + 0x100 * b[1] + 0x1_0000 * b[2] + 0x100_0000
            * b[3],
        b.len() == 4 ==> highest_first(b) == 0x100_0000 * b[0] + 0x1_0000 * b[1] + 0x100 * b[2]
            + b[3],
{
    reveal_with_fuel(lowest_first, 6);
    reveal_with_fuel(highest_first, 6);
    let (c, d) = (b.drop_first(), b.drop_last());
    let (c2, d2) = (c.drop_first(), d.drop_last());
    assert(c[0] == b[1] && d.last() == b[b.len() - 2]);
    if b.len() == 4 {
        let (c3, d3) = (c2.drop_first(), d2.drop_last());
        assert(c2[0] == b[2] && c3[0] == b[3] && d2.last() == b[1] && d3.last() == b[0]);
        assert(c3.drop_first().len() == 0 && d3.drop_last().len() == 0);
    } else {
        assert(c2.len() == 0 && d2.len() == 0 && d.last() == b[0]);
    }
}

proof fn lemma_sample(b: Seq<u8>, k: int, w: int, big: bool, n: int)
    requires
        w == 2 || w == 4,
        0 <= k,
        k * w + w <= b.len(),
        is_signed_number(n, b.subrange(k * w, k * w + w), big),
    ensures
        sample(b, k, w, big) == n,
{
    let i = k * w;
    let c = b.subrange(i, i + w);
    lemma_unsigned(c);
    assert forall|j: int| 0 <= j < w implies #[trigger] c[j] == b[i + j] by {}
    assert(c[0] == b[i] && c[1] == b[i + 1]);
    let full = if w == 2 { 0x1_0000int } else { 0x1_0000_0000int };
    let unsigned = if big { highest_first(c) } else { lowest_first(c) };
    if w == 2 {
        assert(unsigned == word(b, i, big));
        assert(2 * k == i);
    } else {
        assert(c[2] == b[i + 2] && c[3] == b[i + 3]);
        assert(unsigned == long(b, i, big));
        assert(4 * k == i);
    }
    let s = sample(b, k, w, big);
    assert(-full <= 2 * s < full);
    assert((s - unsigned) % full == 0);
    assert((n - s) % full == 0) by {
        let q = (n - unsigned) / full;
        assert(n - unsigned == full * q);
    }
    assert(-full < n - s < full);
}

/// Every number of a decoded image is the signed number, in two's complement, of
/// two or four bytes of the data, in the byte order that the start context states;
/// lines follow each other, the last one of the data coming first. Integers of up
/// to 24 bits are kept as they are.
pub proof fn law_samples_are_signed_numbers(
    b: Seq<u8>,
    cols: nat,
    rows: nat,
    width: nat,
    context: Option<Seq<char>>,
    r: int,
    c: int,
    n: int,
)
    requires
        decoded(b, cols, rows, width, context) is Ok,
        0 <= r < rows,
        0 <= c < cols,
        ({
            let at = ((rows - 1 - r) * cols + c) * width;
            is_signed_number(n, b.subrange(at, at + width), says_big(context))
        }),
    ensures
        ({
            let v = decoded(b, cols, rows, width, context)->Ok_0;
            &&& v.len() == rows
            &&& v[r].len() == cols
            &&& v[r][c] == Binary32::of_integer(n)
            &&& -0x100_0000 <= n <= 0x100_0000 ==> num(v[r][c]) == n as real
        }),
{
    let k = (rows - 1 - r) * cols + c;
    lemma_position_fits(rows as int, cols as int, width as int, r, c, b.len() as int);
    law_byte_order(context);
    lemma_sample(b, k, width as int, is_big_endian(context), n);
    lemma_of_integer_finite(n);
    law_of_integer(n);
}

proof fn lemma_position_fits(rows: int, cols: int, width: int, r: int, c: int, len: int)
    requires
        0 <= r < rows,
        0 <= c < cols,
        0 < width,
        cols * rows * width <= len,
    ensures
        0 <= (rows - 1 - r) * cols + c,
        ((rows - 1 - r) * cols + c) * width + width <= len,
{
    let k = (rows - 1 - r) * cols + c;
    assert(0 <= (rows - 1 - r) * cols && (rows - 1 - r) * cols + cols <= cols * rows)
        by (nonlinear_arith)
        requires
            0 <= r < rows,
            0 < cols,
    ;
    assert(k * width + width <= (cols * rows) * width) by (nonlinear_arith)
        requires
            k + 1 <= cols * rows,
            0 < width,
    ;
}

/// Numbers of two bytes that differ are held as different heights.
pub proof fn law_samples_of_two_bytes_are_told_apart(m: int, n: int)
    requires
        -0x8000 <= m < 0x8000,
        -0x8000 <= n < 0x8000,
        Binary32::of_integer(m) == Binary32::of_integer(n),
    ensures
        m == n,
{
    lemma_of_integer_finite(m);
    lemma_of_integer_finite(n);
    law_of_integer(m);
    law_of_integer(n);
}

// ---- the numbers of a header ----

/// Whether a field starts, after whitespace, with the digits of a number.
pub open spec fn states_number(value: Option<Seq<char>>, n: int) -> bool {
    value matches Some(raw) && exists|d: Seq<char>, rest: Seq<char>|
        trimmed(raw) == #[trigger] (d + rest) && d.len() > 0 && all_digits(d) && (rest.len() == 0
            || !is_digit(rest[0])) && n == number(d)
}

/// A field is read as the number whose digits it starts with.
pub proof fn law_field_is_its_number(value: Option<Seq<char>>, name: Seq<char>)
    ensures
        usize_field(value, name) matches Ok(n) ==> states_number(value, n as int),
{
    if let Some(raw) = value {
        let t = trimmed(raw);
        let k = digit_run(t) as int;
        lemma_run(t);
        let (d, rest) = (t.take(k), t.skip(k));
        assert(t =~= d + rest);
        lemma_number(d);
        if k < t.len() {
            assert(rest[0] == t[k]);
        }
    }
}

proof fn lemma_run(s: Seq<char>)
    ensures
        digit_run(s) <= s.len(),
        all_digits(s.take(digit_run(s) as int)),
        digit_run(s) < s.len() ==> !is_digit(s[digit_run(s) as int]),
    decreases s.len(),
{
    if s.len() > 0 && is_digit(s[0]) {
        let t = s.drop_first();
        lemma_run(t);
        let k = digit_run(t) as int;
        assert forall|i: int| 0 <= i < k + 1 implies is_digit(#[trigger] s.take(k + 1)[i]) by {
            if i > 0 {
                assert(is_digit(t.take(k)[i - 1]));
                assert(s[i] == t[i - 1]);
            }
        }
        if k < t.len() {
            assert(s[k + 1] == t[k]);
        }
    }
}

/// The layout of a block is what its five fields state, and its data are the bytes
/// of the file from the offset on.
pub proof fn law_layout_is_stated(bytes: Seq<u8>, b: Entries)
    requires
        layout_of(b) is Ok,
    ensures
        ({
            let l = layout_of(b)->Ok_0;
            &&& states_number(value_of(b, "Data offset"@), l.offset as int)
            &&& states_number(value_of(b, "Data length"@), l.length as int)
            &&& states_number(value_of(b, "Samps/line"@), l.cols as int)
            &&& states_number(value_of(b, "Number of lines"@), l.rows as int)
            &&& states_number(value_of(b, "Bytes/pixel"@), l.width as int)
            &&& data_slice(bytes, l) matches Ok(d) ==> d.len() == l.length && forall|i: int|
                0 <= i < l.length ==> #[trigger] d[i] == bytes[l.offset + i]
        }),
{
    law_field_is_its_number(value_of(b, "Data offset"@), "Data offset"@);
    law_field_is_its_number(value_of(b, "Data length"@), "Data length"@);
    law_field_is_its_number(value_of(b, "Samps/line"@), "Samps/line"@);
    law_field_is_its_number(value_of(b, "Number of lines"@), "Number of lines"@);
    law_field_is_its_number(value_of(b, "Bytes/pixel"@), "Bytes/pixel"@);
}

// ---- heights ----

/// Where neither flattening nor smoothing is asked for, every height of a loaded
/// image is a signed number of the file times the nanometres per step, rounded.
pub proof fn law_loaded_heights_are_counts_times_the_step(
    bytes: Seq<u8>,
    conditions: Entries,
    blocks: Seq<Entries>,
    i: int,
    p: Processing,
    r: int,
    c: int,
    n: int,
)
    requires
        p.flatten is None,
        p.sigma.at_most(Binary32::of_integer(0)),
        block_image(bytes, conditions, blocks, i, p) is Ok,
        0 <= r < layout_of(blocks[i])->Ok_0.rows,
        0 <= c < layout_of(blocks[i])->Ok_0.cols,
        ({
            let l = layout_of(blocks[i])->Ok_0;
            let at = l.offset + ((l.rows - 1 - r) * l.cols + c) * l.width;
            is_signed_number(
                n,
                bytes.subrange(at, at + l.width),
                says_big(value_of(blocks[i], "Start context"@)),
            )
        }),
    ensures
        ({
            let l = layout_of(blocks[i])->Ok_0;
            let m = block_image(bytes, conditions, blocks, i, p)->Ok_0;
            let step = step_height(blocks[i], conditions, l.width)->Ok_0;
            let h = m.data[r * l.cols + c];
            &&& h == Binary32::of_integer(n).times(step)
            &&& step.is_finite() && h.is_finite() && -0x100_0000 <= n <= 0x100_0000 ==> rounds_to(
                Width::Single,
                n as real * num(step),
                num(h),
            )
        }),
{
    let l = layout_of(blocks[i])->Ok_0;
    let b = data_slice(bytes, l)->Ok_0;
    let context = value_of(blocks[i], "Start context"@);
    law_decoded_shape(b, l.cols, l.rows, l.width, context);
    let rows = raw_rows(bytes, blocks[i], l)->Ok_0;
    let step = step_height(blocks[i], conditions, l.width)->Ok_0;
    let nm = scaled_rows(rows, step);
    assert forall|k: int| 0 <= k < nm.len() implies (#[trigger] nm[k]).len() == l.cols by {
        assert(rows[k].len() == l.cols);
    }
    assert(rows[r].len() == l.cols);
    law_joined_is_row_major(nm, l.cols, r, c);
    assert(nm[r][c] == rows[r][c].times(step));
    let at = ((l.rows - 1 - r) * l.cols + c) * l.width;
    lemma_position_fits(
        l.rows as int,
        l.cols as int,
        l.width as int,
        r,
        c,
        b.len() as int,
    );
    assert(0 <= at) by (nonlinear_arith)
        requires
            at == ((l.rows - 1 - r) * l.cols + c) * l.width,
            0 <= (l.rows - 1 - r) * l.cols + c,
    ;
    assert(b.subrange(at, at + l.width) =~= bytes.subrange(
        l.offset + at,
        l.offset + at + l.width,
    ));
    law_samples_are_signed_numbers(b, l.cols, l.rows, l.width, context, r, c, n);
    if step.is_finite() && Binary32::of_integer(n).times(step).is_finite() && -0x100_0000 <= n
        <= 0x100_0000 {
        lemma_of_integer_finite(n);
        law_of_integer(n);
        law_times(Binary32::of_integer(n), step);
    }
}

/// A Z scale in nanometres per step is the step.
pub proof fn law_step_in_nanometres(block: Entries, conditions: Entries, bytes: nat, z: Seq<char>)
    requires
        named_value(block, "Z scale"@) == Some(z),
        number_before(z, "nm/LSB"@) is Some,
    ensures
        step_height(block, conditions, bytes) == Ok::<Binary32, Seq<char>>(
            number_before(z, "nm/LSB"@)->0,
        ),
{
}

/// The lesser of two real numbers.
pub open spec fn lesser(x: real, y: real) -> real {
    if x < y {
        x
    } else {
        y
    }
}

/// How many different samples some bytes hold.
pub open spec fn count_of(bytes: nat) -> int {
    if bytes == 2 {
        0x1_0000
    } else {
        0x1_0000_0000
    }
}

/// Whether a step is `nm` nanometres per volt times some volts, and these are the
/// lesser of what is said and of a part, the full range over a count.
pub open spec fn is_step(
    step: Binary32,
    volts: Binary32,
    part: real,
    said: Binary32,
    full: Binary32,
    nm: Binary32,
    count: int,
) -> bool {
    &&& rounds_to(Width::Single, num(full) / count as real, part)
    &&& num(volts) == lesser(num(said), part)
    &&& step == volts.times(nm)
    &&& step.is_finite() ==> rounds_to(Width::Single, num(volts) * num(nm), num(step))
}

/// A Z scale in volts: the step is the nanometres per volt of the sensitivity that
/// it names, times the volts per step, which are what the scale says but no more
/// than its full range over the count of all samples of that width.
pub proof fn law_step_in_volts(
    block: Entries,
    conditions: Entries,
    bytes: nat,
    z: Seq<char>,
    name: Seq<char>,
    sens: Seq<char>,
)
    requires
        bytes == 2 || bytes == 4,
        named_value(block, "Z scale"@) == Some(z),
        number_before(z, "nm/LSB"@) is None,
        number_before(z, "V/LSB"@) matches Some(said) && said.is_finite(),
        sensitivity_name(z) == Some(name),
        value_of(conditions, "@Sens. "@ + name) == Some(sens),
        number_before(sens, "nm/V"@) matches Some(nm) && nm.is_finite(),
        last_number(words_of(z)) matches Some(full) && full.is_finite(),
    ensures
        step_height(block, conditions, bytes) matches Ok(step) && exists|volts: Binary32, part: real|
            #[trigger] is_step(
                step,
                volts,
                part,
                number_before(z, "V/LSB"@)->0,
                last_number(words_of(z))->0,
                number_before(sens, "nm/V"@)->0,
                count_of(bytes),
            ),
{
    let said = number_before(z, "V/LSB"@)->0;
    let nm = number_before(sens, "nm/V"@)->0;
    let full = last_number(words_of(z))->0;
    let count = if bytes == 2 { 0x1_0000int } else { 0x1_0000_0000int };
    lemma2_to64();
    assert(pow2(8 * bytes) == count);
    let c = Binary32::of_integer(count);
    lemma_of_integer_finite(count);
    lemma_count(count);
    let q = full.over(c);
    lemma_quotient_finite(full, c);
    law_over(full, c);
    let volts = said.min(q);
    law_compare(q, said);
    if volts.times(nm).is_finite() {
        law_times(volts, nm);
    }
    assert(rounds_to(Width::Single, num(full) / count as real, num(q)));
    assert(num(volts) == lesser(num(said), num(q)));
    assert(step_height(block, conditions, bytes) == Ok::<Binary32, Seq<char>>(volts.times(nm)));
    let step = step_height(block, conditions, bytes)->Ok_0;
    assert(is_step(
        step,
        volts,
        num(q),
        number_before(z, "V/LSB"@)->0,
        last_number(words_of(z))->0,
        number_before(sens, "nm/V"@)->0,
        count_of(bytes),
    ));
}

/// The counts of 16 and of 32 bits are kept.
proof fn lemma_count(count: int)
    requires
        count == 0x1_0000 || count == 0x1_0000_0000,
    ensures
        num(Binary32::of_integer(count)) == count as real,
{
    lemma_of_integer_finite(count);
    law_of_integer(count);
    if count == 0x1_0000_0000 {
        lemma_power_is_kept(32);
        lemma2_to64();
    }
}

// ---- extents ----

/// Whether a length field is in micrometres.
pub open spec fn is_in_microns(raw: Seq<char>) -> bool {
    has_text(raw, "~m"@) || has_text(raw, "um"@) || has_text(raw, "µm"@)
}

/// Whether `nm` is a number of a length field in nanometres: a thousand times the
/// number where the field is in micrometres, and the number itself elsewhere.
pub open spec fn is_length(raw: Seq<char>, stated: Binary32, nm: Binary32) -> bool {
    let factor = if is_in_microns(raw) { 1000 as real } else { 1 as real };
    stated.is_finite() && nm.is_finite() ==> rounds_to(
        Width::Single,
        num(stated) * factor,
        num(nm),
    )
}

/// A length field gives its first number, and its second one if it has one, in
/// nanometres.
pub proof fn law_lengths_are_in_nanometres(raw: Seq<char>)
    ensures
        ({
            let ns = numbers_in(words_of(raw));
            match lengths_of(raw) {
                None => ns.len() == 0,
                Some((x, y)) => {
                    &&& ns.len() > 0
                    &&& is_length(raw, ns[0], x)
                    &&& ns.len() > 1 <==> y is Some
                    &&& y matches Some(v) ==> is_length(raw, ns[1], v)
                },
            }
        }),
{
    let ns = numbers_in(words_of(raw));
    let k = if is_in_microns(raw) { 1000int } else { 1int };
    lemma_of_integer_finite(k);
    law_of_integer(k);
    if ns.len() > 0 {
        let (x, y) = lengths_of(raw)->0;
        if ns[0].is_finite() && x.is_finite() {
            law_times(ns[0], Binary32::of_integer(k));
        }
        if ns.len() > 1 && ns[1].is_finite() && y->0.is_finite() {
            law_times(ns[1], Binary32::of_integer(k));
        }
    }
}

/// The first size of a scan is the extent of the columns and the second that of
/// the rows; a size that is stated once counts for both. An image whose aspect
/// ratio is not rectangular spans all of it, unless the slow axis has a size of
/// its own.
pub proof fn law_extents_are_the_stated_sizes(
    m: Entries,
    image: Entries,
    cols: int,
    rows: int,
    raw: Seq<char>,
)
    requires
        header_value(m, Some("Ciao scan list"@), "Scan Size"@) == Some(raw),
        lengths_of(raw) matches Some(p) && p.1 is Some,
        slow_axis_size(m) is None,
        !is_rectangular(header_value(image, None, "Aspect Ratio"@)),
    ensures
        scan_size(m, image, cols, rows).0 == (lengths_of(raw)->0).0,
        scan_size(m, image, cols, rows).1 == (lengths_of(raw)->0).1->0,
{
}

/// Where only one size is stated, an image that is not rectangular is square.
pub proof fn law_one_size_is_both(m: Entries, image: Entries, cols: int, rows: int)
    requires
        stated_size(m) matches Some(p) && p.1 is None,
        slow_axis_size(m) is None,
        !is_rectangular(header_value(image, None, "Aspect Ratio"@)),
    ensures
        scan_size(m, image, cols, rows).0 == (stated_size(m)->0).0,
        scan_size(m, image, cols, rows).1 == (stated_size(m)->0).0,
{
}

/// The rows of a rectangular image span as much of the slow axis as they are of
/// the lines of the scan: where the slow axis has a size of its own, and where the
/// lines of the scan are known and the scan itself is not rectangular.
pub proof fn law_rows_span_their_share(
    m: Entries,
    image: Entries,
    cols: int,
    rows: int,
    lines: nat,
    y: Binary32,
)
    requires
        stated_size(m) is Some,
        is_rectangular(header_value(image, None, "Aspect Ratio"@)),
        scan_lines(m) == Some(lines),
        0 < rows < lines <= 0x100_0000,
        slow_axis_size(m) == Some(y) || (slow_axis_size(m) is None && !is_rectangular(
            header_value(m, Some("Ciao scan list"@), "Aspect Ratio"@),
        ) && (match (stated_size(m)->0).1 {
            Some(v) => v == y,
            None => (stated_size(m)->0).0 == y,
        })),
        y.is_finite(),
        size(num(y)) <= 0x80_0000_0000 as real,
    ensures
        ({
            let e = scan_size(m, image, cols, rows);
            let true_y = num(y) * rows as real / lines as real;
            &&& e.0 == (stated_size(m)->0).0
            &&& size(num(e.1) - true_y) <= 4 as real * (size(num(y)) + 1 as real) * rows as real
                / 0x100_0000 as real
        }),
{
    let (a, b) = (Binary32::of_integer(rows), Binary32::of_integer(lines as int));
    lemma_of_integer_finite(rows);
    lemma_of_integer_finite(lines as int);
    law_of_integer(rows);
    law_of_integer(lines as int);
    let (x, r, l) = (num(y), rows as real, lines as real);
    let top = 0x80_0000_0000 as real;
    let w = 0x100_0000 as real;
    let k = (size(x) + 1 as real) * r;
    let sx = size(x);
    assert(size(x * r) == sx * r && k == sx * r + r && sx * r >= 0 as real) by (nonlinear_arith)
        requires
            sx == size(x),
            1 as real <= r,
            k == (sx + 1 as real) * r,
    ;
    assert(sx * r <= top * 0x100_0000 as real) by (nonlinear_arith)
        requires
            0 as real <= sx <= top,
            1 as real <= r <= 0x100_0000 as real,
            top == 0x80_0000_0000 as real,
    ;
    lemma_finite_times(y, a);
    law_times(y, a);
    let p = y.times(a);
    lemma_rounded(x * r, num(p), k);
    lemma_quotient_finite(p, b);
    law_over(p, b);
    let q = p.over(b);
    let (u, v) = (num(p) / l, x * r / l);
    assert(size(u - v) <= size(num(p) - x * r)) by (nonlinear_arith)
        requires
            u == num(p) / l,
            v == x * r / l,
            l >= 1 as real,
    ;
    assert(size(u) <= 2 as real * k / l && 2 as real * k / l <= k && k >= 1 as real)
        by (nonlinear_arith)
        requires
            u == num(p) / l,
            size(num(p)) <= 2 as real * k,
            l >= 2 as real,
            k >= 1 as real,
    ;
    lemma_rounded(u, num(q), k);
    assert(4 as real * (size(x) + 1 as real) * r / w == 4 as real * k / w) by (nonlinear_arith)
        requires
            k == (size(x) + 1 as real) * r,
            w > 0 as real,
    ;
}

} // verus!
