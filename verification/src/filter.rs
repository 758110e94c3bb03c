//! The image filters of the analysis tab.

use crate::binary::Binary32;
use crate::grid::lemma_place;
use crate::smooth::{copy_numbers, gaussian_reach, reach};
use crate::text::{parts, split, to_chars, trim, trimmed, views};
use vstd::prelude::*;

verus! {

/// `2^-23`, the gap between one and the next number.
pub const EPSILON: u32 = 0x3400_0000;

pub open spec fn epsilon() -> Binary32 {
    Binary32 { bits: EPSILON }
}

// ---- Gaussian ----

/// The first sample that a filter at `pos` reads.
pub open spec fn window_start(pos: int, radius: int) -> int {
    if pos > radius {
        pos - radius
    } else {
        0
    }
}

/// The end of the samples that a filter at `pos` reads.
pub open spec fn window_end(pos: int, radius: int, len: int) -> int {
    if pos + radius + 1 < len {
        pos + radius + 1
    } else {
        len
    }
}

/// The exponent of the weight that the sample at `at` has for the one at `pos`.
pub open spec fn distance_exponent(pos: int, at: int, sigma: Binary32) -> Binary32 {
    let d = Binary32::of_integer(pos).minus(Binary32::of_integer(at)).over(sigma);
    minus_half().times(d).times(d)
}

/// Minus one half.
pub const MINUS_HALF: u32 = 0xbf00_0000;

pub open spec fn minus_half() -> Binary32 {
    Binary32 { bits: MINUS_HALF }
}

/// The exponents of the weights at `pos`.
pub open spec fn exponents_at(pos: int, len: int, sigma: Binary32) -> Seq<Binary32> {
    let lo = window_start(pos, reach(sigma));
    Seq::new(
        (window_end(pos, reach(sigma), len) - lo) as nat,
        |k: int| distance_exponent(pos, lo + k, sigma),
    )
}

/// Rows of numbers.
pub open spec fn weights_of(v: Seq<Vec<Binary32>>) -> Seq<Seq<Binary32>> {
    Seq::new(v.len(), |i: int| v[i]@)
}

/// Computes the exponents of the weights of a Gaussian along an axis of `len`
/// samples, for each of them.
pub fn axis_exponents(len: usize, sigma: Binary32) -> (r: Vec<Vec<Binary32>>)
    requires
        len + reach(sigma) < usize::MAX,
    ensures
        weights_of(r@) == Seq::new(len as nat, |i: int| exponents_at(i, len as int, sigma)),
{
    let ghost goal = Seq::new(len as nat, |i: int| exponents_at(i, len as int, sigma));
    let radius: usize = gaussian_reach(sigma);
    let mut out: Vec<Vec<Binary32>> = Vec::new();
    let mut pos: usize = 0;
    while pos < len
        invariant
            pos <= len,
            radius == reach(sigma),
            len + radius < usize::MAX,
            goal == Seq::new(len as nat, |i: int| exponents_at(i, len as int, sigma)),
            weights_of(out@) == goal.take(pos as int),
        decreases len - pos,
    {
        let lo: usize = if pos > radius {
            pos - radius
        } else {
            0
        };
        let hi: usize = if pos + radius + 1 < len {
            pos + radius + 1
        } else {
            len
        };
        let mut row: Vec<Binary32> = Vec::new();
        let pf: Binary32 = Binary32::from_usize(pos);
        let mut c: usize = lo;
        while c < hi
            invariant
                lo <= c <= hi,
                pos < len,
                radius == reach(sigma),
                lo == window_start(pos as int, radius as int),
                hi == window_end(pos as int, radius as int, len as int),
                pf == Binary32::of_integer(pos as int),
                row@ == exponents_at(pos as int, len as int, sigma).take(c - lo),
            decreases hi - c,
        {
            let d: Binary32 = pf.minus(Binary32::from_usize(c)).over(sigma);
            row.push(Binary32 { bits: MINUS_HALF }.times(d).times(d));
            c += 1;
            assert(row@ =~= exponents_at(pos as int, len as int, sigma).take(c - lo));
        }
        assert(row@ =~= goal[pos as int]);
        let ghost before = weights_of(out@);
        out.push(row);
        assert(weights_of(out@) =~= before.push(goal[pos as int]));
        pos += 1;
        assert(weights_of(out@) =~= goal.take(pos as int));
    }
    assert(weights_of(out@) =~= goal);
    out
}

/// The sum of the first `n` weights.
pub open spec fn weight_sum(weights: Seq<Binary32>, n: int) -> Binary32
    decreases n,
{
    if n <= 0 {
        Binary32::of_integer(0)
    } else {
        weight_sum(weights, n - 1).plus(weights[n - 1])
    }
}

/// The sum of the first `n` products of weights with samples that lie `stride`
/// apart.
pub open spec fn product_sum(
    data: Seq<Binary32>,
    from: int,
    stride: int,
    weights: Seq<Binary32>,
    n: int,
) -> Binary32
    decreases n,
{
    if n <= 0 {
        Binary32::of_integer(0)
    } else {
        product_sum(data, from, stride, weights, n - 1).plus(
            data[from + (n - 1) * stride].times(weights[n - 1]),
        )
    }
}

/// The weighted mean of the samples around `pos` on an axis.
pub open spec fn blurred_at(
    data: Seq<Binary32>,
    base: int,
    stride: int,
    pos: int,
    radius: int,
    weights: Seq<Binary32>,
) -> Binary32 {
    product_sum(
        data,
        base + window_start(pos, radius) * stride,
        stride,
        weights,
        weights.len() as int,
    ).over(weight_sum(weights, weights.len() as int))
}

/// A grid blurred along its rows; what lies beyond the grid becomes zero.
pub open spec fn blurred_rows(
    data: Seq<Binary32>,
    w: int,
    h: int,
    radius: int,
    weights: Seq<Seq<Binary32>>,
) -> Seq<Binary32> {
    Seq::new(
        data.len(),
        |k: int|
            if k < w * h {
                blurred_at(data, (k / w) * w, 1, k % w, radius, weights[k % w])
            } else {
                Binary32::of_integer(0)
            },
    )
}

/// A grid blurred along its columns; what lies beyond the grid becomes zero.
pub open spec fn blurred_columns(
    data: Seq<Binary32>,
    w: int,
    h: int,
    radius: int,
    weights: Seq<Seq<Binary32>>,
) -> Seq<Binary32> {
    Seq::new(
        data.len(),
        |k: int|
            if k < w * h {
                blurred_at(data, k % w, w, k / w, radius, weights[k / w])
            } else {
                Binary32::of_integer(0)
            },
    )
}

/// A grid blurred along its rows and then along its columns.
pub open spec fn blurred(
    data: Seq<Binary32>,
    w: int,
    h: int,
    sigma: Binary32,
    across: Seq<Seq<Binary32>>,
    down: Seq<Seq<Binary32>>,
) -> Seq<Binary32> {
    if sigma.at_most(Binary32::of_integer(0)) || data.len() == 0 {
        data
    } else {
        blurred_columns(
            blurred_rows(data, w, h, reach(sigma), across),
            w,
            h,
            reach(sigma),
            down,
        )
    }
}

/// Weights for every sample of an axis, one for each sample of its window.
pub open spec fn fits_axis(weights: Seq<Seq<Binary32>>, len: int, radius: int) -> bool {
    weights.len() == len && forall|i: int|
        0 <= i < len ==> (#[trigger] weights[i]).len() == window_end(i, radius, len)
            - window_start(i, radius)
}

fn blur_rows(
    data: &[Binary32],
    w: usize,
    h: usize,
    radius: usize,
    weights: &Vec<Vec<Binary32>>,
) -> (r: Vec<Binary32>)
    requires
        w * h <= data@.len(),
        fits_axis(weights_of(weights@), w as int, radius as int),
    ensures
        r@ == blurred_rows(data@, w as int, h as int, radius as int, weights_of(weights@)),
{
    let ghost ws = weights_of(weights@);
    let ghost goal = blurred_rows(data@, w as int, h as int, radius as int, ws);
    let len: usize = data.len();
    let mut out: Vec<Binary32> = Vec::new();
    let mut r: usize = 0;
    assert(0 * w == 0);
    while r < h
        invariant
            r <= h,
            len == data@.len(),
            w * h <= len,
            ws == weights_of(weights@),
            fits_axis(ws, w as int, radius as int),
            goal == blurred_rows(data@, w as int, h as int, radius as int, ws),
            out@ == goal.take(r * w),
            r * w <= w * h,
        decreases h - r,
    {
        let mut c: usize = 0;
        assert((r + 1) * w == r * w + w) by (nonlinear_arith);
        assert(r * w + w <= w * h) by (nonlinear_arith)
            requires
                r + 1 <= h,
        ;
        while c < w
            invariant
                r < h,
                c <= w,
                len == data@.len(),
                w * h <= len,
                r * w + w <= w * h,
                ws == weights_of(weights@),
                fits_axis(ws, w as int, radius as int),
                goal == blurred_rows(data@, w as int, h as int, radius as int, ws),
                out@ == goal.take(r * w + c),
            decreases w - c,
        {
            proof {
                lemma_place(w as int, h as int, r as int, c as int);
            }
            assert(ws[c as int] == weights@[c as int]@);
            let row: &Vec<Binary32> = &weights[c];
            let lo: usize = if c > radius {
                c - radius
            } else {
                0
            };
            let from: usize = r * w + lo;
            let mut sum: Binary32 = Binary32::from_usize(0);
            let mut total: Binary32 = Binary32::from_usize(0);
            let mut k: usize = 0;
            while k < row.len()
                invariant
                    k <= row@.len(),
                    len == data@.len(),
                    from + row@.len() <= len,
                    sum == product_sum(data@, from as int, 1, row@, k as int),
                    total == weight_sum(row@, k as int),
                decreases row@.len() - k,
            {
                sum = sum.plus(data[from + k].times(row[k]));
                total = total.plus(row[k]);
                k += 1;
            }
            out.push(sum.over(total));
            assert(goal[r * w + c] == sum.over(total));
            assert(out@ =~= goal.take(r * w + c + 1));
            c += 1;
        }
        r += 1;
    }
    assert(h * w == w * h) by (nonlinear_arith);
    pad(&mut out, len);
    assert(out@ =~= goal);
    out
}

/// Appends zeros up to a length.
fn pad(out: &mut Vec<Binary32>, len: usize)
    requires
        old(out)@.len() <= len,
    ensures
        final(out)@ == old(out)@ + Seq::new(
            (len - old(out)@.len()) as nat,
            |i: int| Binary32::of_integer(0),
        ),
{
    let ghost before = out@;
    while out.len() < len
        invariant
            before.len() <= out@.len() <= len,
            out@ == before + Seq::new(
                (out@.len() - before.len()) as nat,
                |i: int| Binary32::of_integer(0),
            ),
        decreases len - out@.len(),
    {
        out.push(Binary32::from_usize(0));
        assert(out@ =~= before + Seq::new(
            (out@.len() - before.len()) as nat,
            |i: int| Binary32::of_integer(0),
        ));
    }
}

fn blur_columns(
    data: &[Binary32],
    w: usize,
    h: usize,
    radius: usize,
    weights: &Vec<Vec<Binary32>>,
) -> (r: Vec<Binary32>)
    requires
        w * h <= data@.len(),
        fits_axis(weights_of(weights@), h as int, radius as int),
    ensures
        r@ == blurred_columns(data@, w as int, h as int, radius as int, weights_of(weights@)),
{
    let ghost ws = weights_of(weights@);
    let ghost goal = blurred_columns(data@, w as int, h as int, radius as int, ws);
    let len: usize = data.len();
    let mut out: Vec<Binary32> = Vec::new();
    let mut r: usize = 0;
    assert(0 * w == 0);
    while r < h
        invariant
            r <= h,
            len == data@.len(),
            w * h <= len,
            ws == weights_of(weights@),
            fits_axis(ws, h as int, radius as int),
            goal == blurred_columns(data@, w as int, h as int, radius as int, ws),
            out@ == goal.take(r * w),
            r * w <= w * h,
        decreases h - r,
    {
        let mut c: usize = 0;
        assert((r + 1) * w == r * w + w) by (nonlinear_arith);
        assert(r * w + w <= w * h) by (nonlinear_arith)
            requires
                r + 1 <= h,
        ;
        assert(ws[r as int] == weights@[r as int]@);
        let row: &Vec<Binary32> = &weights[r];
        let lo: usize = if r > radius {
            r - radius
        } else {
            0
        };
        assert(lo + row@.len() <= h);
        while c < w
            invariant
                r < h,
                c <= w,
                len == data@.len(),
                w * h <= len,
                r * w + w <= w * h,
                lo == window_start(r as int, radius as int),
                row@ == ws[r as int],
                lo + row@.len() <= h,
                goal == blurred_columns(data@, w as int, h as int, radius as int, ws),
                out@ == goal.take(r * w + c),
            decreases w - c,
        {
            proof {
                lemma_place(w as int, h as int, r as int, c as int);
            }
            let ghost from = c + lo * w;
            let mut sum: Binary32 = Binary32::from_usize(0);
            let mut total: Binary32 = Binary32::from_usize(0);
            let mut k: usize = 0;
            while k < row.len()
                invariant
                    k <= row@.len(),
                    c < w,
                    len == data@.len(),
                    w * h <= len,
                    lo + row@.len() <= h,
                    from == c + lo * w,
                    sum == product_sum(data@, from, w as int, row@, k as int),
                    total == weight_sum(row@, k as int),
                decreases row@.len() - k,
            {
                proof {
                    lemma_place(w as int, h as int, lo + k, c as int);
                    assert((lo + k) * w == lo * w + k * w) by (nonlinear_arith);
                }
                sum = sum.plus(data[(lo + k) * w + c].times(row[k]));
                total = total.plus(row[k]);
                k += 1;
            }
            out.push(sum.over(total));
            assert(goal[r * w + c] == sum.over(total));
            assert(out@ =~= goal.take(r * w + c + 1));
            c += 1;
        }
        r += 1;
    }
    assert(h * w == w * h) by (nonlinear_arith);
    pad(&mut out, len);
    assert(out@ =~= goal);
    out
}

/// Blurs an image with a Gaussian; the weights are the exponentials of
/// [`axis_exponents`] for the width and for the height.
pub fn gaussian_filter_2d(
    data: &[Binary32],
    width: usize,
    height: usize,
    sigma: Binary32,
    across: &Vec<Vec<Binary32>>,
    down: &Vec<Vec<Binary32>>,
) -> (r: Vec<Binary32>)
    requires
        sigma.at_most(Binary32::of_integer(0)) || data@.len() == 0 || {
            &&& width * height <= data@.len()
            &&& fits_axis(weights_of(across@), width as int, reach(sigma))
            &&& fits_axis(weights_of(down@), height as int, reach(sigma))
        },
    ensures
        r@ == blurred(
            data@,
            width as int,
            height as int,
            sigma,
            weights_of(across@),
            weights_of(down@),
        ),
{
    if sigma.at_most(Binary32::from_usize(0)) || data.len() == 0 {
        return copy_numbers(data);
    }
    let radius: usize = gaussian_reach(sigma);
    let rows: Vec<Binary32> = blur_rows(data, width, height, radius, across);
    blur_columns(rows.as_slice(), width, height, radius, down)
}

// ---- custom kernels ----

/// The kernel that a text spells: its numbers between commas; what is not a
/// number is left out.
pub open spec fn kernel_in(ps: Seq<Seq<char>>) -> Seq<Binary32>
    decreases ps.len(),
{
    if ps.len() == 0 {
        Seq::empty()
    } else {
        match Binary32::literal(trimmed(ps.last())) {
            Some(v) => kernel_in(ps.drop_last()).push(v),
            None => kernel_in(ps.drop_last()),
        }
    }
}

/// Reads a kernel.
pub fn parse_kernel(text: &str) -> (r: Vec<Binary32>)
    ensures
        r@ == kernel_in(parts(text@, ',')),
{
    let chars: Vec<char> = to_chars(text);
    let ps: Vec<Vec<char>> = split(chars.as_slice(), ',');
    let ghost all = views(ps@);
    let mut r: Vec<Binary32> = Vec::new();
    let mut i: usize = 0;
    assert(all.take(0).len() == 0);
    while i < ps.len()
        invariant
            i <= ps@.len(),
            all == views(ps@),
            r@ == kernel_in(all.take(i as int)),
        decreases ps@.len() - i,
    {
        assert(all.take(i as int + 1).last() == ps@[i as int]@);
        assert(all.take(i as int + 1).drop_last() == all.take(i as int));
        match Binary32::parse(trim(ps[i].as_slice())) {
            Some(v) => {
                r.push(v);
            },
            None => {},
        }
        i += 1;
    }
    assert(all.take(i as int) == all);
    r
}

/// Whether weight `k` of a kernel of `size` weights, centred on `pos`, falls on
/// a sample.
pub open spec fn in_range(pos: int, k: int, size: int, len: int) -> bool {
    0 <= pos + k - size / 2 < len
}

/// The sum of those of the first `n` weights that fall on a sample.
pub open spec fn kernel_sum(kernel: Seq<Binary32>, pos: int, len: int, n: int) -> Binary32
    decreases n,
{
    if n <= 0 {
        Binary32::of_integer(0)
    } else if in_range(pos, n - 1, kernel.len() as int, len) {
        kernel_sum(kernel, pos, len, n - 1).plus(kernel[n - 1])
    } else {
        kernel_sum(kernel, pos, len, n - 1)
    }
}

/// The sum of those of the first `n` products that fall on a sample.
pub open spec fn kernel_products(
    data: Seq<Binary32>,
    base: int,
    stride: int,
    len: int,
    kernel: Seq<Binary32>,
    pos: int,
    n: int,
) -> Binary32
    decreases n,
{
    if n <= 0 {
        Binary32::of_integer(0)
    } else if in_range(pos, n - 1, kernel.len() as int, len) {
        kernel_products(data, base, stride, len, kernel, pos, n - 1).plus(
            data[base + (pos + n - 1 - kernel.len() as int / 2) * stride].times(kernel[n - 1]),
        )
    } else {
        kernel_products(data, base, stride, len, kernel, pos, n - 1)
    }
}

/// A kernel applied at one sample; the sample itself when the weights cancel.
pub open spec fn filtered_at(
    data: Seq<Binary32>,
    base: int,
    stride: int,
    len: int,
    kernel: Seq<Binary32>,
    pos: int,
) -> Binary32 {
    let n = kernel.len() as int;
    if epsilon().below(kernel_sum(kernel, pos, len, n).abs()) {
        kernel_products(data, base, stride, len, kernel, pos, n).over(
            kernel_sum(kernel, pos, len, n),
        )
    } else {
        data[base + pos * stride]
    }
}

/// A grid with a kernel applied along its rows.
pub open spec fn filtered_rows(
    data: Seq<Binary32>,
    w: int,
    h: int,
    kernel: Seq<Binary32>,
) -> Seq<Binary32> {
    Seq::new(
        data.len(),
        |k: int|
            if k < w * h {
                filtered_at(data, (k / w) * w, 1, w, kernel, k % w)
            } else {
                data[k]
            },
    )
}

/// A grid with a kernel applied along its columns.
pub open spec fn filtered_columns(
    data: Seq<Binary32>,
    w: int,
    h: int,
    kernel: Seq<Binary32>,
) -> Seq<Binary32> {
    Seq::new(
        data.len(),
        |k: int|
            if k < w * h {
                filtered_at(data, k % w, w, h, kernel, k / w)
            } else {
                data[k]
            },
    )
}

/// A grid with a kernel applied along its rows and then along its columns.
pub open spec fn filtered(
    data: Seq<Binary32>,
    w: int,
    h: int,
    kernel: Seq<Binary32>,
) -> Seq<Binary32> {
    if kernel.len() == 0 || data.len() == 0 {
        data
    } else {
        filtered_columns(filtered_rows(data, w, h, kernel), w, h, kernel)
    }
}

fn filter_at(
    data: &[Binary32],
    base: usize,
    stride: usize,
    len: usize,
    kernel: &[Binary32],
    pos: usize,
) -> (r: Binary32)
    requires
        pos < len,
        forall|k: int| 0 <= k < len ==> #[trigger] (base + k * stride) < data@.len(),
    ensures
        r == filtered_at(data@, base as int, stride as int, len as int, kernel@, pos as int),
{
    let limit: usize = data.len();
    let size: usize = kernel.len();
    let half: usize = size / 2;
    let mut sum: Binary32 = Binary32::from_usize(0);
    let mut total: Binary32 = Binary32::from_usize(0);
    let mut k: usize = 0;
    while k < size
        invariant
            k <= size,
            size == kernel@.len(),
            half == size / 2,
            limit == data@.len(),
            pos < len,
            forall|k: int| 0 <= k < len ==> #[trigger] (base + k * stride) < data@.len(),
            sum == kernel_products(
                data@,
                base as int,
                stride as int,
                len as int,
                kernel@,
                pos as int,
                k as int,
            ),
            total == kernel_sum(kernel@, pos as int, len as int, k as int),
        decreases size - k,
    {
        let hit: bool = if k < half {
            half - k <= pos
        } else {
            k - half < len - pos
        };
        assert(hit == in_range(pos as int, k as int, size as int, len as int));
        if hit {
            let at: usize = if k < half {
                pos - (half - k)
            } else {
                pos + (k - half)
            };
            assert(base + at * stride < data@.len());
            assert(0 <= at * stride) by (nonlinear_arith);
            sum = sum.plus(data[base + at * stride].times(kernel[k]));
            total = total.plus(kernel[k]);
        }
        k += 1;
    }
    if (Binary32 { bits: EPSILON }).below(total.abs()) {
        sum.over(total)
    } else {
        assert(base + pos * stride < data@.len());
        assert(0 <= pos * stride) by (nonlinear_arith);
        data[base + pos * stride]
    }
}

/// Applies a kernel to an image along both axes.
pub fn custom_kernel_filter_2d(
    data: &[Binary32],
    width: usize,
    height: usize,
    kernel: &[Binary32],
) -> (r: Vec<Binary32>)
    requires
        kernel@.len() == 0 || data@.len() == 0 || width * height <= data@.len(),
    ensures
        r@ == filtered(data@, width as int, height as int, kernel@),
{
    if kernel.len() == 0 || data.len() == 0 {
        return copy_numbers(data);
    }
    let rows: Vec<Binary32> = filter_pass(data, width, height, kernel, false);
    filter_pass(rows.as_slice(), width, height, kernel, true)
}

fn filter_pass(data: &[Binary32], w: usize, h: usize, kernel: &[Binary32], down: bool) -> (r: Vec<
    Binary32,
>)
    requires
        w * h <= data@.len(),
    ensures
        r@ == (if down {
            filtered_columns(data@, w as int, h as int, kernel@)
        } else {
            filtered_rows(data@, w as int, h as int, kernel@)
        }),
{
    let ghost goal = if down {
        filtered_columns(data@, w as int, h as int, kernel@)
    } else {
        filtered_rows(data@, w as int, h as int, kernel@)
    };
    let len: usize = data.len();
    let mut out: Vec<Binary32> = Vec::new();
    let mut r: usize = 0;
    assert(0 * w == 0);
    while r < h
        invariant
            r <= h,
            len == data@.len(),
            w * h <= len,
            goal == (if down {
                filtered_columns(data@, w as int, h as int, kernel@)
            } else {
                filtered_rows(data@, w as int, h as int, kernel@)
            }),
            out@ == goal.take(r * w),
            r * w <= w * h,
        decreases h - r,
    {
        let mut c: usize = 0;
        assert((r + 1) * w == r * w + w) by (nonlinear_arith);
        assert(r * w + w <= w * h) by (nonlinear_arith)
            requires
                r + 1 <= h,
        ;
        while c < w
            invariant
                r < h,
                c <= w,
                len == data@.len(),
                w * h <= len,
                r * w + w <= w * h,
                goal == (if down {
                    filtered_columns(data@, w as int, h as int, kernel@)
                } else {
                    filtered_rows(data@, w as int, h as int, kernel@)
                }),
                out@ == goal.take(r * w + c),
            decreases w - c,
        {
            proof {
                lemma_place(w as int, h as int, r as int, c as int);
            }
            let v: Binary32 = if down {
                assert forall|k: int| 0 <= k < h implies #[trigger] (c + k * w) < data@.len() by {
                    lemma_place(w as int, h as int, k, c as int);
                }
                filter_at(data, c, w, h, kernel, r)
            } else {
                assert forall|k: int| 0 <= k < w implies #[trigger] ((r * w) + k * 1)
                    < data@.len() by {
                    lemma_place(w as int, h as int, r as int, k);
                }
                let base: usize = r * w;
                filter_at(data, base, 1, w, kernel, c)
            };
            out.push(v);
            assert(goal[r * w + c] == v);
            assert(out@ =~= goal.take(r * w + c + 1));
            c += 1;
        }
        r += 1;
    }
    assert(h * w == w * h) by (nonlinear_arith);
    let mut k: usize = out.len();
    while k < len
        invariant
            w * h <= k <= len,
            len == data@.len(),
            goal == (if down {
                filtered_columns(data@, w as int, h as int, kernel@)
            } else {
                filtered_rows(data@, w as int, h as int, kernel@)
            }),
            out@ == goal.take(k as int),
        decreases len - k,
    {
        out.push(data[k]);
        k += 1;
        assert(out@ =~= goal.take(k as int));
    }
    assert(out@ =~= goal);
    out
}

} // verus!
