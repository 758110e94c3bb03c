//! Raw samples: decoding them and scaling them.

use crate::binary::Binary32;
use crate::text::{
    contains, decimal, has_text, to_ascii_uppercase, to_chars, to_decimal, to_text, upper_all,
};
use vstd::prelude::*;

verus! {

/// Some rows of numbers.
pub open spec fn rows_of(v: Seq<Vec<Binary32>>) -> Seq<Seq<Binary32>> {
    Seq::new(v.len(), |i: int| v[i]@)
}

/// Whether a start context says that samples are stored high byte first.
pub open spec fn is_big_endian(context: Option<Seq<char>>) -> bool {
    context matches Some(v) && has_text(upper_all(v), "BIG"@)
}

/// The unsigned number in two bytes.
pub open spec fn word(b: Seq<u8>, i: int, big: bool) -> int {
    if big {
        b[i] * 0x100 + b[i + 1]
    } else {
        b[i] + b[i + 1] * 0x100
    }
}

/// The unsigned number in four bytes.
pub open spec fn long(b: Seq<u8>, i: int, big: bool) -> int {
    if big {
        word(b, i, big) * 0x1_0000 + word(b, i + 2, big)
    } else {
        word(b, i, big) + word(b, i + 2, big) * 0x1_0000
    }
}

/// The number that `n` stands for in two's complement with `2^bits == full`.
pub open spec fn twos_complement(n: int, full: int) -> int {
    if 2 * n >= full {
        n - full
    } else {
        n
    }
}

/// Sample `k` of some bytes, in samples of two or four bytes.
pub open spec fn sample(b: Seq<u8>, k: int, width: int, big: bool) -> int {
    if width == 2 {
        twos_complement(word(b, 2 * k, big), 0x1_0000)
    } else {
        twos_complement(long(b, 4 * k, big), 0x1_0000_0000)
    }
}

/// The rows of an image, the last line of the file first, or why there are
/// none.
pub open spec fn decoded(
    b: Seq<u8>,
    cols: nat,
    rows: nat,
    width: nat,
    context: Option<Seq<char>>,
) -> Result<Seq<Seq<Binary32>>, Seq<char>> {
    if cols * rows > usize::MAX {
        Err("Image dimensions are too large"@)
    } else if cols * rows * width > usize::MAX {
        Err("Image byte count overflow"@)
    } else if b.len() < cols * rows * width {
        Err(
            "Not enough image bytes: expected "@ + decimal(cols * rows * width) + ", got "@
                + decimal(b.len()),
        )
    } else if width != 2 && width != 4 {
        Err("Unsupported Bytes/pixel value: "@ + decimal(width))
    } else {
        Ok(
            Seq::new(
                rows,
                |r: int|
                    Seq::new(
                        cols,
                        |c: int|
                            Binary32::of_integer(
                                sample(
                                    b,
                                    (rows - 1 - r) * cols + c,
                                    width as int,
                                    is_big_endian(context),
                                ),
                            ),
                    ),
            ),
        )
    }
}

fn number(n: usize) -> (r: String)
    ensures
        r@ == decimal(n as nat),
{
    let d: Vec<char> = to_decimal(n);
    to_text(d.as_slice())
}

fn read_sample(b: &[u8], k: usize, width: usize, big: bool) -> (r: i64)
    requires
        width == 2 || width == 4,
        k * width + width <= b@.len(),
        b@.len() <= usize::MAX,
    ensures
        r == sample(b@, k as int, width as int, big),
{
    let i: usize = k * width;
    let (b0, b1) = (b[i] as i64, b[i + 1] as i64);
    let first: i64 = if big {
        b0 * 0x100 + b1
    } else {
        b0 + b1 * 0x100
    };
    if width == 2 {
        if 2 * first >= 0x1_0000 {
            first - 0x1_0000
        } else {
            first
        }
    } else {
        let (b2, b3) = (b[i + 2] as i64, b[i + 3] as i64);
        let second: i64 = if big {
            b2 * 0x100 + b3
        } else {
            b2 + b3 * 0x100
        };
        let all: i64 = if big {
            first * 0x1_0000 + second
        } else {
            first + second * 0x1_0000
        };
        if 2 * all >= 0x1_0000_0000 {
            all - 0x1_0000_0000
        } else {
            all
        }
    }
}

/// Decodes the samples of an image into rows.
pub fn decode_image_to_2d(
    data_bytes: &[u8],
    samps_per_line: usize,
    number_of_lines: usize,
    bytes_per_pixel: usize,
    start_context: Option<&String>,
) -> (r: Result<Vec<Vec<Binary32>>, String>)
    requires
        samps_per_line > 0 || (bytes_per_pixel != 2 && bytes_per_pixel != 4),
    ensures
        match r {
            Ok(v) => decoded(
                data_bytes@,
                samps_per_line as nat,
                number_of_lines as nat,
                bytes_per_pixel as nat,
                crate::scale::opt_text(start_context),
            ) == Ok::<Seq<Seq<Binary32>>, Seq<char>>(rows_of(v@)),
            Err(e) => decoded(
                data_bytes@,
                samps_per_line as nat,
                number_of_lines as nat,
                bytes_per_pixel as nat,
                crate::scale::opt_text(start_context),
            ) == Err::<Seq<Seq<Binary32>>, Seq<char>>(e@),
        },
{
    let (cols, rows, width) = (samps_per_line, number_of_lines, bytes_per_pixel);
    let len: usize = data_bytes.len();
    let pixels: usize = match cols.checked_mul(rows) {
        Some(n) => n,
        None => {
            return Err("Image dimensions are too large".to_owned());
        },
    };
    let expected: usize = match pixels.checked_mul(width) {
        Some(n) => n,
        None => {
            return Err("Image byte count overflow".to_owned());
        },
    };
    if len < expected {
        return Err(
            "Not enough image bytes: expected ".to_owned().concat(number(expected).as_str()).concat(
                ", got ",
            ).concat(number(len).as_str()),
        );
    }
    if width != 2 && width != 4 {
        return Err(
            "Unsupported Bytes/pixel value: ".to_owned().concat(number(width).as_str()),
        );
    }
    let big: bool = match start_context {
        Some(v) => {
            let chars: Vec<char> = to_chars(v.as_str());
            let up: Vec<char> = to_ascii_uppercase(chars.as_slice());
            let word: Vec<char> = to_chars("BIG");
            contains(up.as_slice(), word.as_slice())
        },
        None => false,
    };
    let ghost context = crate::scale::opt_text(start_context);
    let ghost goal = decoded(
        data_bytes@,
        cols as nat,
        rows as nat,
        width as nat,
        context,
    )->Ok_0;
    let mut image: Vec<Vec<Binary32>> = Vec::new();
    let mut r: usize = 0;
    while r < rows
        invariant
            r <= rows,
            width == 2 || width == 4,
            pixels == cols * rows,
            expected == pixels * width,
            expected <= len,
            len == data_bytes@.len(),
            big == is_big_endian(context),
            goal == Seq::new(
                rows as nat,
                |r: int|
                    Seq::new(
                        cols as nat,
                        |c: int|
                            Binary32::of_integer(
                                sample(
                                    data_bytes@,
                                    (rows - 1 - r) * cols + c,
                                    width as int,
                                    is_big_endian(context),
                                ),
                            ),
                    ),
            ),
            rows_of(image@) == goal.take(r as int),
        decreases rows - r,
    {
        let line: usize = rows - 1 - r;
        assert(line * cols + cols <= pixels) by (nonlinear_arith)
            requires
                line + 1 <= rows,
                pixels == cols * rows,
        ;
        let start: usize = line * cols;
        let mut row: Vec<Binary32> = Vec::new();
        let mut c: usize = 0;
        while c < cols
            invariant
                c <= cols,
                r < rows,
                line == rows - 1 - r,
                start == line * cols,
                start + cols <= pixels,
                width == 2 || width == 4,
                expected == pixels * width,
                expected <= len,
                len == data_bytes@.len(),
                big == is_big_endian(context),
                row@.len() == c,
                forall|k: int|
                    0 <= k < c ==> #[trigger] row@[k] == Binary32::of_integer(
                        sample(data_bytes@, (rows - 1 - r) * cols + k, width as int, big),
                    ),
            decreases cols - c,
        {
            assert((start + c) * width + width <= expected) by (nonlinear_arith)
                requires
                    start + c + 1 <= pixels,
                    expected == pixels * width,
            ;
            row.push(Binary32::from_i64(read_sample(data_bytes, start + c, width, big)));
            c += 1;
        }
        let ghost before = rows_of(image@);
        assert(row@ =~= goal[r as int]);
        image.push(row);
        assert(rows_of(image@) =~= before.push(goal[r as int]));
        r += 1;
        assert(goal.take(r as int) =~= goal.take(r as int - 1).push(goal[r as int - 1]));
    }
    assert(goal.take(r as int) =~= goal);
    Ok(image)
}

/// Rows with every number multiplied.
pub open spec fn scaled_rows(rows: Seq<Seq<Binary32>>, scale: Binary32) -> Seq<Seq<Binary32>> {
    Seq::new(
        rows.len(),
        |r: int| Seq::new(rows[r].len(), |c: int| rows[r][c].times(scale)),
    )
}

/// Multiplies every number of some rows.
pub fn apply_scale_in_place(image_2d: &mut Vec<Vec<Binary32>>, scale: Binary32)
    ensures
        rows_of(final(image_2d)@) == scaled_rows(rows_of(old(image_2d)@), scale),
{
    let ghost before = rows_of(image_2d@);
    let ghost goal = scaled_rows(before, scale);
    let mut out: Vec<Vec<Binary32>> = Vec::new();
    let mut r: usize = 0;
    while r < image_2d.len()
        invariant
            r <= image_2d@.len(),
            before == rows_of(image_2d@),
            goal == scaled_rows(before, scale),
            rows_of(out@) == goal.take(r as int),
        decreases image_2d@.len() - r,
    {
        let line: &Vec<Binary32> = &image_2d[r];
        let mut row: Vec<Binary32> = Vec::new();
        let mut c: usize = 0;
        while c < line.len()
            invariant
                c <= line@.len(),
                row@.len() == c,
                forall|k: int| 0 <= k < c ==> #[trigger] row@[k] == line@[k].times(scale),
            decreases line@.len() - c,
        {
            row.push(line[c].times(scale));
            c += 1;
        }
        assert(line@ == before[r as int]);
        assert(row@ =~= goal[r as int]);
        let ghost shown = rows_of(out@);
        out.push(row);
        assert(rows_of(out@) =~= shown.push(goal[r as int]));
        r += 1;
        assert(goal.take(r as int) =~= goal.take(r as int - 1).push(goal[r as int - 1]));
    }
    assert(goal.take(r as int) =~= goal);
    *image_2d = out;
}

/// Some rows one after the other.
pub open spec fn joined(rows: Seq<Seq<Binary32>>) -> Seq<Binary32>
    decreases rows.len(),
{
    if rows.len() == 0 {
        Seq::empty()
    } else {
        joined(rows.drop_last()) + rows.last()
    }
}

/// Writes some rows one after the other.
pub fn join_rows(image_2d: &Vec<Vec<Binary32>>) -> (r: Vec<Binary32>)
    ensures
        r@ == joined(rows_of(image_2d@)),
{
    let ghost all = rows_of(image_2d@);
    let mut out: Vec<Binary32> = Vec::new();
    let mut r: usize = 0;
    assert(all.take(0).len() == 0);
    while r < image_2d.len()
        invariant
            r <= image_2d@.len(),
            all == rows_of(image_2d@),
            out@ == joined(all.take(r as int)),
        decreases image_2d@.len() - r,
    {
        let line: &Vec<Binary32> = &image_2d[r];
        let ghost before = out@;
        let mut c: usize = 0;
        while c < line.len()
            invariant
                c <= line@.len(),
                out@ == before + line@.take(c as int),
            decreases line@.len() - c,
        {
            out.push(line[c]);
            c += 1;
            assert(line@.take(c as int) =~= line@.take(c as int - 1).push(line@[c as int - 1]));
            assert(out@ =~= before + line@.take(c as int));
        }
        r += 1;
        assert(line@.take(c as int) =~= line@);
        assert(all.take(r as int).drop_last() == all.take(r as int - 1));
        assert(all.take(r as int).last() == line@);
    }
    assert(all.take(r as int) == all);
    out
}

/// Joining rows of equal length puts them side by side.
pub proof fn lemma_joined_len(rows: Seq<Seq<Binary32>>, cols: nat)
    requires
        forall|r: int| 0 <= r < rows.len() ==> (#[trigger] rows[r]).len() == cols,
    ensures
        joined(rows).len() == rows.len() * cols,
    decreases rows.len(),
{
    if rows.len() > 0 {
        let n = rows.len() - 1;
        let t = rows.drop_last();
        assert forall|r: int| 0 <= r < t.len() implies (#[trigger] t[r]).len() == cols by {
            assert(t[r] == rows[r]);
        }
        lemma_joined_len(t, cols);
        assert(rows.last() == rows[n]);
        assert((n + 1) * cols == n * cols + cols) by (nonlinear_arith);
    } else {
        assert(0 * cols == 0);
    }
}

/// Joined rows of equal length keep each number at its place, row by row.
pub proof fn law_joined_is_row_major(rows: Seq<Seq<Binary32>>, cols: nat, r: int, c: int)
    requires
        forall|k: int| 0 <= k < rows.len() ==> (#[trigger] rows[k]).len() == cols,
        0 <= r < rows.len(),
        0 <= c < cols,
    ensures
        0 <= r * cols + c < joined(rows).len(),
        joined(rows)[r * cols + c] == rows[r][c],
    decreases rows.len(),
{
    let n = rows.len() - 1;
    let t = rows.drop_last();
    lemma_joined_len(rows, cols);
    assert forall|k: int| 0 <= k < t.len() implies (#[trigger] t[k]).len() == cols by {
        assert(t[k] == rows[k]);
    }
    lemma_joined_len(t, cols);
    assert(rows.last() == rows[n]);
    assert(0 <= r * cols) by (nonlinear_arith)
        requires
            r >= 0,
    ;
    assert((n + 1) * cols == n * cols + cols) by (nonlinear_arith);
    if r < n {
        law_joined_is_row_major(t, cols, r, c);
        assert(t[r] == rows[r]);
    }
}

/// Decoding gives the image its rows and columns.
pub proof fn law_decoded_shape(
    b: Seq<u8>,
    cols: nat,
    rows: nat,
    width: nat,
    context: Option<Seq<char>>,
)
    ensures
        decoded(b, cols, rows, width, context) matches Ok(v) ==> v.len() == rows && forall|r: int|
            0 <= r < rows ==> (#[trigger] v[r]).len() == cols,
{
}

} // verus!
