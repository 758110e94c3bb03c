//! The numbers of a header: sizes, scales, sensitivities and the instrument.

use crate::binary::Binary32;
use crate::channels::{find_named, named_value};
use crate::fields::{
    distinct, header_get, header_value, law_lookup_ignores_order, value_of, Entries, FieldMap,
};
use crate::header::ImageBlock;
use crate::text::{
    contains, digit_run, digits_value, find, has_text, leading_digits, lemma_digit_run, lower_all,
    parse_usize, parts, position, position_of, read_digits, run_before, same, split, strip,
    to_ascii_lowercase, to_chars, to_text, trim, trim_set, trimmed, usize_of, views, words,
    words_of, CharSet,
};
use vstd::arithmetic::power2::{lemma2_to64, lemma2_to64_rest, pow2};
use vstd::prelude::*;

verus! {

pub open spec fn opt_text(v: Option<&String>) -> Option<Seq<char>> {
    match v {
        Some(s) => Some(s@),
        None => None,
    }
}

// ---- integers ----

/// The number at the start of a field, after whitespace, or why there is none.
pub open spec fn usize_field(value: Option<Seq<char>>, name: Seq<char>) -> Result<nat, Seq<char>> {
    match value {
        None => Err("Missing field: "@ + name),
        Some(raw) => {
            let t = trimmed(raw);
            let digits = t.take(digit_run(t) as int);
            if digits.len() == 0 {
                Err("Failed to parse numeric field "@ + name + ": "@ + raw)
            } else if digits_value(digits) > usize::MAX {
                Err(
                    "Failed to parse field "@ + name
                        + ": number too large to fit in target type"@,
                )
            } else {
                Ok(digits_value(digits))
            }
        },
    }
}

/// Reads the number at the start of a field.
pub fn parse_usize_field(value: Option<&String>, field_name: &str) -> (r: Result<usize, String>)
    ensures
        match r {
            Ok(n) => usize_field(opt_text(value), field_name@) == Ok::<nat, Seq<char>>(n as nat),
            Err(e) => usize_field(opt_text(value), field_name@) == Err::<nat, Seq<char>>(e@),
        },
{
    let raw: &String = match value {
        Some(s) => s,
        None => {
            return Err("Missing field: ".to_owned().concat(field_name));
        },
    };
    let chars: Vec<char> = to_chars(raw.as_str());
    let t: &[char] = trim(chars.as_slice());
    let n: usize = leading_digits(t);
    proof {
        lemma_digit_run(t@);
        assert(t@.subrange(0, n as int) == t@.take(n as int));
    }
    let digits: &[char] = &t[0..n];
    if n == 0 {
        return Err(
            "Failed to parse numeric field ".to_owned().concat(field_name).concat(": ").concat(
                raw.as_str(),
            ),
        );
    }
    match read_digits(digits) {
        Some(v) => Ok(v),
        None => Err(
            "Failed to parse field ".to_owned().concat(field_name).concat(
                ": number too large to fit in target type",
            ),
        ),
    }
}

// ---- numbers with units ----

/// The number just before the first `unit`: the last word there, without
/// brackets.
pub open spec fn number_before(text: Seq<char>, unit: Seq<char>) -> Option<Binary32> {
    match position_of(text, unit) {
        None => None,
        Some(i) => {
            let ws = words_of(text.take(i));
            if ws.len() == 0 {
                None
            } else {
                Binary32::literal(strip(ws.last(), CharSet::Brackets))
            }
        },
    }
}

/// Reads the number just before the first `unit`.
pub fn parse_float_before_unit(text: &str, unit: &str) -> (r: Option<Binary32>)
    ensures
        r == number_before(text@, unit@),
{
    let s: Vec<char> = to_chars(text);
    let u: Vec<char> = to_chars(unit);
    match find(s.as_slice(), u.as_slice()) {
        None => None,
        Some(i) => {
            assert(s@.subrange(0, i as int) == s@.take(i as int));
            let all: &[char] = s.as_slice();
            let ws: Vec<Vec<char>> = words(&all[0..i]);
            assert(views(ws@).len() == ws@.len());
            if ws.len() == 0 {
                return None;
            }
            let last: &Vec<char> = &ws[ws.len() - 1];
            assert(last@ == views(ws@).last());
            Binary32::parse(trim_set(last.as_slice(), CharSet::Brackets))
        },
    }
}

/// The name of the sensitivity that a scale refers to: what stands between
/// `[Sens.` and the next `]`.
pub open spec fn sensitivity_name(text: Seq<char>) -> Option<Seq<char>> {
    match position_of(text, "[Sens."@) {
        None => None,
        Some(i) => {
            let after = text.skip(i + "[Sens."@.len());
            let end = run_before(after, ']');
            if end < after.len() {
                Some(trimmed(after.take(end as int)))
            } else {
                None
            }
        },
    }
}

/// Reads the name of the sensitivity that a scale refers to.
pub fn parse_sensitivity_name(scale_text: &str) -> (r: Option<String>)
    ensures
        match r {
            Some(s) => sensitivity_name(scale_text@) == Some(s@),
            None => sensitivity_name(scale_text@) is None,
        },
{
    let chars: Vec<char> = to_chars(scale_text);
    let s: &[char] = chars.as_slice();
    let n: usize = s.len();
    let open: Vec<char> = to_chars("[Sens.");
    match find(s, open.as_slice()) {
        None => None,
        Some(i) => {
            let from: usize = i + open.len();
            assert(s@.subrange(from as int, n as int) == s@.skip(from as int));
            let after: &[char] = &s[from..n];
            match position(after, ']') {
                Some(end) => {
                    assert(after@.subrange(0, end as int) == after@.take(end as int));
                    Some(to_text(trim(&after[0..end])))
                },
                None => None,
            }
        },
    }
}

/// The last of some words that is a number, without brackets.
pub open spec fn last_number(ws: Seq<Seq<char>>) -> Option<Binary32>
    decreases ws.len(),
{
    if ws.len() == 0 {
        None
    } else {
        match Binary32::literal(strip(ws.last(), CharSet::Brackets)) {
            Some(v) => Some(v),
            None => last_number(ws.drop_last()),
        }
    }
}

/// Reads the last number of a text.
pub fn parse_last_float(text: &str) -> (r: Option<Binary32>)
    ensures
        r == last_number(words_of(text@)),
{
    let s: Vec<char> = to_chars(text);
    let ws: Vec<Vec<char>> = words(s.as_slice());
    let ghost all = views(ws@);
    let mut n: usize = ws.len();
    assert(all.take(n as int) == all);
    while n > 0
        invariant
            all == views(ws@),
            all == words_of(text@),
            n <= ws@.len(),
            last_number(all) == last_number(all.take(n as int)),
        decreases n,
    {
        assert(all.take(n as int).last() == ws@[n as int - 1]@);
        assert(all.take(n as int).drop_last() == all.take(n as int - 1));
        let v: Option<Binary32> = Binary32::parse(
            trim_set(ws[n - 1].as_slice(), CharSet::Brackets),
        );
        if v.is_some() {
            return v;
        }
        n -= 1;
    }
    None
}

// ---- heights ----

/// The key of a sensitivity.
pub open spec fn sensitivity_key(name: Seq<char>) -> Seq<char> {
    "@Sens. "@ + name
}

/// Volts per step: what the scale says, but no more than its full range spread
/// over all steps of the sample's width.
pub open spec fn volts_per_step(said: Binary32, full: Binary32, bytes: nat) -> Binary32 {
    said.min(full.over(Binary32::of_integer(pow2(8 * bytes) as int)))
}

/// Nanometres per step of a raw sample, or why it is not known.
pub open spec fn step_height(block: Entries, conditions: Entries, bytes: nat) -> Result<
    Binary32,
    Seq<char>,
> {
    match named_value(block, "Z scale"@) {
        None => Err("Missing Z scale field in image block"@),
        Some(z) => match number_before(z, "nm/LSB"@) {
            Some(v) => Ok(v),
            None => match number_before(z, "V/LSB"@) {
                None => Err("Could not parse V/LSB from Z scale: "@ + z),
                Some(said) => match sensitivity_name(z) {
                    None => Err("Could not parse sensitivity reference from Z scale: "@ + z),
                    Some(name) => match value_of(conditions, sensitivity_key(name)) {
                        None => Err("Missing sensitivity field: "@ + sensitivity_key(name)),
                        Some(sens) => match number_before(sens, "nm/V"@) {
                            None => Err(
                                "Could not parse nm/V from sensitivity field "@ + sensitivity_key(
                                    name,
                                ) + ": "@ + sens,
                            ),
                            Some(nm) => match last_number(words_of(z)) {
                                None => Err("Could not parse full-scale V from Z scale: "@ + z),
                                Some(full) => Ok(volts_per_step(said, full, bytes).times(nm)),
                            },
                        },
                    },
                },
            },
        },
    }
}

/// Reads how many nanometres one step of a raw sample is.
pub fn parse_nm_per_lsb(
    image_block: &ImageBlock,
    measurement_conditions: &FieldMap,
    bytes_per_pixel: usize,
) -> (r: Result<Binary32, String>)
    requires
        bytes_per_pixel < 8,
    ensures
        match r {
            Ok(v) => step_height(image_block@, measurement_conditions@, bytes_per_pixel as nat)
                == Ok::<Binary32, Seq<char>>(v),
            Err(e) => step_height(image_block@, measurement_conditions@, bytes_per_pixel as nat)
                == Err::<Binary32, Seq<char>>(e@),
        },
{
    let z: &String = match find_named(&image_block.fields, "Z scale") {
        Some(v) => v,
        None => {
            return Err("Missing Z scale field in image block".to_owned());
        },
    };
    if let Some(v) = parse_float_before_unit(z.as_str(), "nm/LSB") {
        return Ok(v);
    }
    let said: Binary32 = match parse_float_before_unit(z.as_str(), "V/LSB") {
        Some(v) => v,
        None => {
            return Err("Could not parse V/LSB from Z scale: ".to_owned().concat(z.as_str()));
        },
    };
    let name: String = match parse_sensitivity_name(z.as_str()) {
        Some(s) => s,
        None => {
            return Err(
                "Could not parse sensitivity reference from Z scale: ".to_owned().concat(
                    z.as_str(),
                ),
            );
        },
    };
    let key: String = "@Sens. ".to_owned().concat(name.as_str());
    let sens: &String = match measurement_conditions.get(key.as_str()) {
        Some(v) => v,
        None => {
            return Err("Missing sensitivity field: ".to_owned().concat(key.as_str()));
        },
    };
    let nm: Binary32 = match parse_float_before_unit(sens.as_str(), "nm/V") {
        Some(v) => v,
        None => {
            return Err(
                "Could not parse nm/V from sensitivity field ".to_owned().concat(
                    key.as_str(),
                ).concat(": ").concat(sens.as_str()),
            );
        },
    };
    let full: Binary32 = match parse_last_float(z.as_str()) {
        Some(v) => v,
        None => {
            return Err("Could not parse full-scale V from Z scale: ".to_owned().concat(z.as_str()));
        },
    };
    let steps: i64 = steps_of(bytes_per_pixel);
    Ok(said.min(full.over(Binary32::from_i64(steps))).times(nm))
}

/// The number of steps of a sample of some bytes.
fn steps_of(bytes: usize) -> (r: i64)
    requires
        bytes < 8,
    ensures
        r == pow2((8 * bytes) as nat),
{
    proof {
        lemma2_to64();
        lemma2_to64_rest();
    }
    match bytes {
        0 => 1,
        1 => 0x100,
        2 => 0x1_0000,
        3 => 0x100_0000,
        4 => 0x1_0000_0000,
        5 => 0x100_0000_0000,
        6 => 0x1_0000_0000_0000,
        _ => 0x100_0000_0000_0000,
    }
}

// ---- lateral sizes ----

/// The numbers among some words, in order.
pub open spec fn numbers_in(ws: Seq<Seq<char>>) -> Seq<Binary32>
    decreases ws.len(),
{
    if ws.len() == 0 {
        Seq::empty()
    } else {
        match Binary32::literal(ws.last()) {
            Some(v) => numbers_in(ws.drop_last()).push(v),
            None => numbers_in(ws.drop_last()),
        }
    }
}

/// Nanometres per unit of a length field: microns when it says so.
pub open spec fn unit_of(raw: Seq<char>) -> Binary32 {
    if has_text(raw, "~m"@) || has_text(raw, "um"@) || has_text(raw, "µm"@) {
        Binary32::of_integer(1000)
    } else {
        Binary32::of_integer(1)
    }
}

/// The first number of a length field and the second, if any, in nanometres.
pub open spec fn lengths_of(raw: Seq<char>) -> Option<(Binary32, Option<Binary32>)> {
    let ns = numbers_in(words_of(raw));
    if ns.len() == 0 {
        None
    } else {
        Some(
            (
                ns[0].times(unit_of(raw)),
                if ns.len() > 1 {
                    Some(ns[1].times(unit_of(raw)))
                } else {
                    None
                },
            ),
        )
    }
}

/// Reads a length field.
pub fn parse_lengths_nm(raw: &str) -> (r: Option<(Binary32, Option<Binary32>)>)
    ensures
        r == lengths_of(raw@),
{
    let s: Vec<char> = to_chars(raw);
    let tilde: Vec<char> = to_chars("~m");
    let letter: Vec<char> = to_chars("um");
    let micro: Vec<char> = to_chars("µm");
    let unit: Binary32 = if contains(s.as_slice(), tilde.as_slice()) || contains(
        s.as_slice(),
        letter.as_slice(),
    ) || contains(s.as_slice(), micro.as_slice()) {
        Binary32::from_usize(1000)
    } else {
        Binary32::from_usize(1)
    };
    let ws: Vec<Vec<char>> = words(s.as_slice());
    let ghost all = views(ws@);
    let mut ns: Vec<Binary32> = Vec::new();
    let mut i: usize = 0;
    assert(all.take(0).len() == 0);
    while i < ws.len()
        invariant
            all == views(ws@),
            i <= ws@.len(),
            ns@ == numbers_in(all.take(i as int)),
        decreases ws@.len() - i,
    {
        assert(all.take(i as int + 1).last() == ws@[i as int]@);
        assert(all.take(i as int + 1).drop_last() == all.take(i as int));
        match Binary32::parse(ws[i].as_slice()) {
            Some(v) => {
                ns.push(v);
            },
            None => {},
        }
        i += 1;
    }
    assert(all.take(i as int) == all);
    if ns.len() == 0 {
        None
    } else if ns.len() > 1 {
        Some((ns[0].times(unit), Some(ns[1].times(unit))))
    } else {
        Some((ns[0].times(unit), None))
    }
}

/// Whether an aspect ratio describes a rectangle: it is not `1:1`, and the
/// number before its colon is positive and not one. None describes a square.
pub open spec fn is_rectangular(raw: Option<Seq<char>>) -> bool {
    match raw {
        None => false,
        Some(s) => {
            let t = trimmed(s);
            t != "1:1"@ && match Binary32::literal(trimmed(parts(t, ':')[0])) {
                Some(v) => Binary32::of_integer(0).below(v) && !v.equals(Binary32::of_integer(1)),
                None => false,
            }
        },
    }
}

/// Whether an aspect ratio describes a rectangular scan.
pub fn is_nonsquare_aspect(raw: Option<&String>) -> (r: bool)
    ensures
        r == is_rectangular(opt_text(raw)),
{
    let s: &String = match raw {
        Some(s) => s,
        None => {
            return false;
        },
    };
    let chars: Vec<char> = to_chars(s.as_str());
    let t: &[char] = trim(chars.as_slice());
    let square: Vec<char> = to_chars("1:1");
    if same(t, square.as_slice()) {
        return false;
    }
    let ps: Vec<Vec<char>> = split(t, ':');
    proof {
        assert(parts(t@, ':').len() >= 1);
        assert(views(ps@)[0] == ps@[0]@);
    }
    match Binary32::parse(trim(ps[0].as_slice())) {
        Some(v) => Binary32::from_usize(0).below(v) && !v.equals(Binary32::from_usize(1)),
        None => false,
    }
}

pub open spec fn lengths_in(raw: Option<Seq<char>>) -> Option<(Binary32, Option<Binary32>)> {
    match raw {
        Some(v) => lengths_of(v),
        None => None,
    }
}

pub open spec fn gives_both(v: Option<(Binary32, Option<Binary32>)>) -> bool {
    v matches Some(p) && p.1 is Some
}

/// Of three length fields the first that gives two numbers; else the first
/// that gives one.
pub open spec fn preferred_size(
    a: Option<(Binary32, Option<Binary32>)>,
    b: Option<(Binary32, Option<Binary32>)>,
    c: Option<(Binary32, Option<Binary32>)>,
) -> Option<(Binary32, Option<Binary32>)> {
    if gives_both(a) {
        a
    } else if gives_both(b) {
        b
    } else if gives_both(c) {
        c
    } else if a is Some {
        a
    } else if b is Some {
        b
    } else {
        c
    }
}

/// The scan size that a header states, from the scan list, the image list or
/// outside of both.
pub open spec fn stated_size(m: Entries) -> Option<(Binary32, Option<Binary32>)> {
    preferred_size(
        lengths_in(header_value(m, Some("Ciao scan list"@), "Scan Size"@)),
        lengths_in(header_value(m, Some("Ciao image list"@), "Scan Size"@)),
        lengths_in(header_value(m, None, "Scan Size"@)),
    )
}

/// The extent along the slow axis that the scan list names.
pub open spec fn slow_axis_size(m: Entries) -> Option<Binary32> {
    match lengths_in(header_value(m, Some("Ciao scan list"@), "Slow Axis Size"@)) {
        Some(p) => if Binary32::of_integer(0).below(p.0) {
            Some(p.0)
        } else {
            None
        },
        None => None,
    }
}

/// The number of lines that the scan list names, unless it is zero.
pub open spec fn scan_lines(m: Entries) -> Option<nat> {
    match header_value(m, Some("Ciao scan list"@), "Lines"@) {
        Some(v) => match usize_of(trimmed(v)) {
            Some(n) => if n > 0 {
                Some(n)
            } else {
                None
            },
            None => None,
        },
        None => None,
    }
}

/// `y * a / b`.
pub open spec fn proportion(y: Binary32, a: int, b: int) -> Binary32 {
    y.times(Binary32::of_integer(a)).over(Binary32::of_integer(b))
}

/// The part of the slow extent `y` that the rows of a rectangular image span.
pub open spec fn rectangular_extent(m: Entries, y: Binary32, cols: int, rows: int) -> Binary32 {
    if slow_axis_size(m) is Some {
        match scan_lines(m) {
            Some(g) => if rows < g {
                proportion(y, rows, g as int)
            } else {
                y
            },
            None => y,
        }
    } else if is_rectangular(header_value(m, Some("Ciao scan list"@), "Aspect Ratio"@)) {
        if cols > 0 {
            proportion(y, rows, cols)
        } else {
            y
        }
    } else {
        match scan_lines(m) {
            Some(g) => proportion(y, rows, g as int),
            None => y,
        }
    }
}

/// The extents of an image in nanometres: along the lines, and along the rows.
pub open spec fn scan_size(m: Entries, image_fields: Entries, cols: int, rows: int) -> (
    Binary32,
    Binary32,
) {
    match stated_size(m) {
        None => (Binary32::of_integer(1000), Binary32::of_integer(1000)),
        Some(p) => {
            let implied = match p.1 {
                Some(y) => y,
                None => p.0,
            };
            let y = match slow_axis_size(m) {
                Some(s) => s,
                None => implied,
            };
            if is_rectangular(header_value(image_fields, None, "Aspect Ratio"@)) && rows > 0 {
                (p.0, rectangular_extent(m, y, cols, rows))
            } else {
                (p.0, y)
            }
        },
    }
}

fn read_lengths(metadata: &FieldMap, section: Option<&str>, key: &str) -> (r: Option<
    (Binary32, Option<Binary32>),
>)
    ensures
        r == lengths_in(header_value(metadata@, crate::fields::opt_view(section), key@)),
{
    match header_get(metadata, section, key) {
        Some(v) => parse_lengths_nm(v.as_str()),
        None => None,
    }
}

fn has_both(v: &Option<(Binary32, Option<Binary32>)>) -> (r: bool)
    ensures
        r == gives_both(*v),
{
    match v {
        Some(p) => p.1.is_some(),
        None => false,
    }
}

/// Reads the extents of an image.
pub fn parse_scan_size_nm_xy(
    metadata: &FieldMap,
    image_fields: &FieldMap,
    cols: usize,
    rows: usize,
) -> (r: (Binary32, Binary32))
    ensures
        r == scan_size(metadata@, image_fields@, cols as int, rows as int),
{
    let a: Option<(Binary32, Option<Binary32>)> = read_lengths(
        metadata,
        Some("Ciao scan list"),
        "Scan Size",
    );
    let b: Option<(Binary32, Option<Binary32>)> = read_lengths(
        metadata,
        Some("Ciao image list"),
        "Scan Size",
    );
    let c: Option<(Binary32, Option<Binary32>)> = read_lengths(metadata, None, "Scan Size");
    let stated: Option<(Binary32, Option<Binary32>)> = if has_both(&a) {
        a
    } else if has_both(&b) {
        b
    } else if has_both(&c) {
        c
    } else if a.is_some() {
        a
    } else if b.is_some() {
        b
    } else {
        c
    };
    assert(stated == stated_size(metadata@));
    let (x, implied) = match stated {
        None => {
            return (Binary32::from_usize(1000), Binary32::from_usize(1000));
        },
        Some(p) => match p.1 {
            Some(y) => (p.0, y),
            None => (p.0, p.0),
        },
    };
    let slow: Option<Binary32> = match read_lengths(
        metadata,
        Some("Ciao scan list"),
        "Slow Axis Size",
    ) {
        Some(p) => if Binary32::from_usize(0).below(p.0) {
            Some(p.0)
        } else {
            None
        },
        None => None,
    };
    assert(slow == slow_axis_size(metadata@));
    let y: Binary32 = match slow {
        Some(s) => s,
        None => implied,
    };
    if rows == 0 || !is_nonsquare_aspect(header_get(image_fields, None, "Aspect Ratio")) {
        return (x, y);
    }
    let nonsquare_scan: bool = is_nonsquare_aspect(
        header_get(metadata, Some("Ciao scan list"), "Aspect Ratio"),
    );
    let scan_rows: usize = match header_get(metadata, Some("Ciao scan list"), "Lines") {
        Some(v) => {
            let chars: Vec<char> = to_chars(v.as_str());
            match parse_usize(trim(chars.as_slice())) {
                Some(g) => g,
                None => 0,
            }
        },
        None => 0,
    };
    assert(scan_lines(metadata@) == (if scan_rows > 0 {
        Some(scan_rows as nat)
    } else {
        None
    }));
    let rows_f: Binary32 = Binary32::from_usize(rows);
    if slow.is_some() {
        if scan_rows > 0 && rows < scan_rows {
            return (x, y.times(rows_f).over(Binary32::from_usize(scan_rows)));
        }
    } else if nonsquare_scan {
        if cols > 0 {
            return (x, y.times(rows_f).over(Binary32::from_usize(cols)));
        }
    } else if scan_rows > 0 {
        return (x, y.times(rows_f).over(Binary32::from_usize(scan_rows)));
    }
    (x, y)
}

/// An image whose aspect ratio is square has the extents that the header
/// states, whatever its grid.
pub proof fn law_square_image_is_not_rescaled(
    m: Entries,
    image_fields: Entries,
    cols: int,
    rows: int,
    other_cols: int,
    other_rows: int,
)
    requires
        !is_rectangular(header_value(image_fields, None, "Aspect Ratio"@)),
    ensures
        scan_size(m, image_fields, cols, rows) == scan_size(
            m,
            image_fields,
            other_cols,
            other_rows,
        ),
{
}

/// The aspect ratio `1:1` is square, and so is a missing one.
pub proof fn law_one_to_one_is_square()
    ensures
        !is_rectangular(None),
        !is_rectangular(Some("1:1"@)),
{
    reveal_strlit("1:1");
    let t = "1:1"@;
    assert(crate::text::strip_front(t, CharSet::White) == t);
    assert(crate::text::strip_back(t, CharSet::White) == t);
}

// ---- the instrument ----

/// An identifier in its normal form, or none when nothing is left.
pub open spec fn normal_id(raw: Seq<char>) -> Option<Seq<char>> {
    let id = lower_all(trimmed(strip(trimmed(raw), CharSet::Quote)));
    if id.len() == 0 {
        None
    } else {
        Some(id)
    }
}

pub open spec fn normal_id_in(raw: Option<Seq<char>>) -> Option<Seq<char>> {
    match raw {
        Some(v) => normal_id(v),
        None => None,
    }
}

/// The instrument that a header names: by the serial number of its scanner;
/// else by the first serial number of the file.
pub open spec fn instrument_of(m: Entries) -> Option<Seq<char>> {
    match normal_id_in(header_value(m, Some("Scanner list"@), "Serial Number"@)) {
        Some(id) => Some(id),
        None => normal_id_in(header_value(m, None, "Serial Number"@)),
    }
}

fn normalize(raw: Option<&String>) -> (r: Option<String>)
    ensures
        match r {
            Some(s) => normal_id_in(opt_text(raw)) == Some(s@),
            None => normal_id_in(opt_text(raw)) is None,
        },
{
    match raw {
        None => None,
        Some(s) => {
            let chars: Vec<char> = to_chars(s.as_str());
            let id: Vec<char> = to_ascii_lowercase(
                trim(trim_set(trim(chars.as_slice()), CharSet::Quote)),
            );
            if id.len() == 0 {
                None
            } else {
                Some(to_text(id.as_slice()))
            }
        },
    }
}

/// Reads which instrument a file comes from.
pub fn instrument_id(metadata: &FieldMap) -> (r: Option<String>)
    ensures
        match r {
            Some(s) => instrument_of(metadata@) == Some(s@),
            None => instrument_of(metadata@) is None,
        },
{
    match normalize(header_get(metadata, Some("Scanner list"), "Serial Number")) {
        Some(id) => Some(id),
        None => normalize(header_get(metadata, None, "Serial Number")),
    }
}

/// Whether two headers hold the same fields, in whatever order.
pub open spec fn same_fields(m: Entries, n: Entries) -> bool {
    &&& distinct(m)
    &&& distinct(n)
    &&& forall|i: int| 0 <= i < m.len() ==> n.contains(#[trigger] m[i])
    &&& forall|i: int| 0 <= i < n.len() ==> m.contains(#[trigger] n[i])
}

/// The extents of an image do not depend on the order of the fields.
pub proof fn law_scan_size_ignores_order(
    m: Entries,
    n: Entries,
    image: Entries,
    other: Entries,
    cols: int,
    rows: int,
)
    requires
        same_fields(m, n),
        same_fields(image, other),
    ensures
        scan_size(m, image, cols, rows) == scan_size(n, other, cols, rows),
{
    let list = Some("Ciao scan list"@);
    law_lookup_ignores_order(m, n, list, "Scan Size"@);
    law_lookup_ignores_order(m, n, Some("Ciao image list"@), "Scan Size"@);
    law_lookup_ignores_order(m, n, None, "Scan Size"@);
    law_lookup_ignores_order(m, n, list, "Slow Axis Size"@);
    law_lookup_ignores_order(m, n, list, "Aspect Ratio"@);
    law_lookup_ignores_order(m, n, list, "Lines"@);
    law_lookup_ignores_order(image, other, None, "Aspect Ratio"@);
}

/// The slow extent that the scan list names overrides the one that the scan
/// size implies.
pub proof fn law_slow_axis_size_wins(m: Entries, image: Entries, cols: int, rows: int)
    requires
        stated_size(m) is Some,
        slow_axis_size(m) is Some,
        !is_rectangular(header_value(image, None, "Aspect Ratio"@)),
    ensures
        scan_size(m, image, cols, rows) == ((stated_size(m)->0).0, slow_axis_size(m)->0),
{
}

/// The serial number of the scanner decides, whatever other serial numbers a
/// header holds.
pub proof fn law_scanner_wins(m: Entries)
    requires
        normal_id_in(header_value(m, Some("Scanner list"@), "Serial Number"@)) is Some,
    ensures
        instrument_of(m) == normal_id_in(
            header_value(m, Some("Scanner list"@), "Serial Number"@),
        ),
{
}

/// The instrument does not depend on the order of the fields.
pub proof fn law_instrument_ignores_order(m: Entries, n: Entries)
    requires
        same_fields(m, n),
    ensures
        instrument_of(m) == instrument_of(n),
{
    law_lookup_ignores_order(m, n, Some("Scanner list"@), "Serial Number"@);
    law_lookup_ignores_order(m, n, None, "Serial Number"@);
}

} // verus!
