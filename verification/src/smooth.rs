//! Gaussian smoothing and convolution with a kernel.
//!
//! The weights of a Gaussian are exponentials. Their exponents are computed
//! here; the exponentials of those come from the caller.

use crate::binary::Binary32;
use crate::float::Toward;
use crate::grid::lemma_place;
use vstd::prelude::*;

verus! {

/// A copy of some numbers.
pub fn copy_numbers(s: &[Binary32]) -> (r: Vec<Binary32>)
    ensures
        r@ == s@,
{
    let mut r: Vec<Binary32> = Vec::new();
    let mut i: usize = 0;
    while i < s.len()
        invariant
            i <= s@.len(),
            r@ == s@.take(i as int),
        decreases s@.len() - i,
    {
        r.push(s[i]);
        i += 1;
        assert(s@.take(i as int) =~= s@.take(i as int - 1).push(s@[i as int - 1]));
    }
    assert(s@.take(i as int) =~= s@);
    r
}

// ---- smoothing a loaded image ----

/// How many samples a Gaussian of width `sigma` reaches to either side.
pub open spec fn reach(sigma: Binary32) -> int {
    Binary32::of_integer(3).times(sigma).integer(Toward::Ceil, 0, usize::MAX as int)
}

/// Computes how many samples a Gaussian reaches to either side.
pub fn gaussian_reach(sigma: Binary32) -> (r: usize)
    ensures
        r == reach(sigma),
{
    Binary32::from_usize(3).times(sigma).to_usize(Toward::Ceil)
}

/// The exponent of weight `i` of a Gaussian that reaches `radius` samples.
pub open spec fn kernel_exponent(sigma: Binary32, radius: int, i: int) -> Binary32 {
    let x = Binary32::of_integer(i).minus(Binary32::of_integer(radius));
    x.negate().times(x).over(Binary32::of_integer(2).times(sigma).times(sigma))
}

/// Computes the exponents of a Gaussian's weights; none when nothing is to be
/// smoothed.
pub fn kernel_exponents(sigma: Binary32) -> (r: Vec<Binary32>)
    requires
        2 * reach(sigma) < usize::MAX,
    ensures
        sigma.at_most(Binary32::of_integer(0)) ==> r@.len() == 0,
        !sigma.at_most(Binary32::of_integer(0)) ==> r@ == Seq::new(
            (2 * reach(sigma) + 1) as nat,
            |i: int| kernel_exponent(sigma, reach(sigma), i),
        ),
{
    let mut r: Vec<Binary32> = Vec::new();
    if sigma.at_most(Binary32::from_usize(0)) {
        return r;
    }
    let radius: usize = gaussian_reach(sigma);
    let ghost goal = Seq::new(
        (2 * radius + 1) as nat,
        |i: int| kernel_exponent(sigma, radius as int, i),
    );
    let rf: Binary32 = Binary32::from_usize(radius);
    let under: Binary32 = Binary32::from_usize(2).times(sigma).times(sigma);
    let mut i: usize = 0;
    while i < 2 * radius + 1
        invariant
            i <= 2 * radius + 1,
            2 * radius < usize::MAX,
            rf == Binary32::of_integer(radius as int),
            under == Binary32::of_integer(2).times(sigma).times(sigma),
            goal == Seq::new(
                (2 * radius + 1) as nat,
                |i: int| kernel_exponent(sigma, radius as int, i),
            ),
            r@ == goal.take(i as int),
        decreases 2 * radius + 1 - i,
    {
        let x: Binary32 = Binary32::from_usize(i).minus(rf);
        r.push(x.negate().times(x).over(under));
        i += 1;
        assert(r@ =~= goal.take(i as int));
    }
    assert(r@ =~= goal);
    r
}

/// The sum of the first `n` numbers.
pub open spec fn total(s: Seq<Binary32>, n: int) -> Binary32
    decreases n,
{
    if n <= 0 {
        Binary32::of_integer(0)
    } else {
        total(s, n - 1).plus(s[n - 1])
    }
}

/// Weights divided by their sum.
pub open spec fn normalised(s: Seq<Binary32>) -> Seq<Binary32> {
    Seq::new(s.len(), |i: int| s[i].over(total(s, s.len() as int)))
}

fn normalise(s: &[Binary32]) -> (r: Vec<Binary32>)
    ensures
        r@ == normalised(s@),
{
    let mut sum: Binary32 = Binary32::from_usize(0);
    let mut i: usize = 0;
    while i < s.len()
        invariant
            i <= s@.len(),
            sum == total(s@, i as int),
        decreases s@.len() - i,
    {
        sum = sum.plus(s[i]);
        i += 1;
    }
    let mut r: Vec<Binary32> = Vec::new();
    let mut i: usize = 0;
    while i < s.len()
        invariant
            i <= s@.len(),
            sum == total(s@, s@.len() as int),
            r@ == normalised(s@).take(i as int),
        decreases s@.len() - i,
    {
        r.push(s[i].over(sum));
        i += 1;
        assert(r@ =~= normalised(s@).take(i as int));
    }
    assert(r@ =~= normalised(s@));
    r
}

/// The sample that weight `k` of a kernel falls on at `pos`: `radius` to the
/// left of the kernel's middle, and the edge sample beyond an edge.
pub open spec fn tap(pos: int, k: int, radius: int, len: int) -> int {
    if pos + k - radius < 0 {
        0
    } else if pos + k - radius >= len {
        len - 1
    } else {
        pos + k - radius
    }
}

/// The sum of the first `n` products of a kernel with samples that lie
/// `stride` apart.
pub open spec fn weighted(
    data: Seq<Binary32>,
    base: int,
    stride: int,
    len: int,
    kernel: Seq<Binary32>,
    radius: int,
    pos: int,
    n: int,
) -> Binary32
    decreases n,
{
    if n <= 0 {
        Binary32::of_integer(0)
    } else {
        weighted(data, base, stride, len, kernel, radius, pos, n - 1).plus(
            data[base + tap(pos, n - 1, radius, len) * stride].times(kernel[n - 1]),
        )
    }
}

/// A grid with a kernel applied along its rows.
pub open spec fn smoothed_rows(
    data: Seq<Binary32>,
    w: int,
    h: int,
    kernel: Seq<Binary32>,
    radius: int,
) -> Seq<Binary32> {
    Seq::new(
        (w * h) as nat,
        |k: int| weighted(data, (k / w) * w, 1, w, kernel, radius, k % w, kernel.len() as int),
    )
}

/// A grid with a kernel applied along its columns.
pub open spec fn smoothed_columns(
    data: Seq<Binary32>,
    w: int,
    h: int,
    kernel: Seq<Binary32>,
    radius: int,
) -> Seq<Binary32> {
    Seq::new(
        (w * h) as nat,
        |k: int| weighted(data, k % w, w, h, kernel, radius, k / w, kernel.len() as int),
    )
}

/// A grid smoothed along its rows and then along its columns; `exps` are the
/// weights before they are divided by their sum.
pub open spec fn smoothed(
    data: Seq<Binary32>,
    w: int,
    h: int,
    sigma: Binary32,
    exps: Seq<Binary32>,
) -> Seq<Binary32> {
    if sigma.at_most(Binary32::of_integer(0)) {
        data
    } else {
        let kernel = normalised(exps);
        smoothed_columns(
            smoothed_rows(data, w, h, kernel, reach(sigma)),
            w,
            h,
            kernel,
            reach(sigma),
        )
    }
}

fn tap_of(pos: usize, k: usize, radius: usize, len: usize) -> (r: usize)
    requires
        pos < len,
    ensures
        r == tap(pos as int, k as int, radius as int, len as int),
        r < len,
{
    if k < radius {
        let back: usize = radius - k;
        if back > pos {
            0
        } else {
            pos - back
        }
    } else {
        let on: usize = k - radius;
        if on >= len - pos {
            len - 1
        } else {
            pos + on
        }
    }
}

fn smooth_rows(data: &[Binary32], w: usize, h: usize, kernel: &[Binary32], radius: usize) -> (r: Vec<
    Binary32,
>)
    requires
        w * h <= data@.len(),
    ensures
        r@ == smoothed_rows(data@, w as int, h as int, kernel@, radius as int),
{
    let ghost goal = smoothed_rows(data@, w as int, h as int, kernel@, radius as int);
    let len: usize = data.len();
    let mut out: Vec<Binary32> = Vec::new();
    let mut r: usize = 0;
    assert(0 * w == 0);
    while r < h
        invariant
            r <= h,
            len == data@.len(),
            w * h <= len,
            goal == smoothed_rows(data@, w as int, h as int, kernel@, radius as int),
            out@ == goal.take(r * w),
            r * w <= w * h,
        decreases h - r,
    {
        let mut c: usize = 0;
        assert((r + 1) * w == r * w + w) by (nonlinear_arith);
        assert(r * w + w <= w * h) by (nonlinear_arith)
            requires
                r + 1 <= h,
        ;
        while c < w
            invariant
                r < h,
                c <= w,
                len == data@.len(),
                w * h <= len,
                r * w + w <= w * h,
                goal == smoothed_rows(data@, w as int, h as int, kernel@, radius as int),
                out@ == goal.take(r * w + c),
            decreases w - c,
        {
            proof {
                lemma_place(w as int, h as int, r as int, c as int);
            }
            let base: usize = r * w;
            let mut acc: Binary32 = Binary32::from_usize(0);
            let mut k: usize = 0;
            while k < kernel.len()
                invariant
                    k <= kernel@.len(),
                    c < w,
                    len == data@.len(),
                    base + w <= len,
                    acc == weighted(
                        data@,
                        base as int,
                        1,
                        w as int,
                        kernel@,
                        radius as int,
                        c as int,
                        k as int,
                    ),
                decreases kernel@.len() - k,
            {
                let t: usize = tap_of(c, k, radius, w);
                acc = acc.plus(data[base + t].times(kernel[k]));
                k += 1;
            }
            out.push(acc);
            assert(goal[r * w + c] == acc);
            assert(out@ =~= goal.take(r * w + c + 1));
            c += 1;
        }
        r += 1;
    }
    assert(h * w == w * h) by (nonlinear_arith);
    assert(out@ =~= goal);
    out
}

fn smooth_columns(
    data: &[Binary32],
    w: usize,
    h: usize,
    kernel: &[Binary32],
    radius: usize,
) -> (r: Vec<Binary32>)
    requires
        w * h <= data@.len(),
    ensures
        r@ == smoothed_columns(data@, w as int, h as int, kernel@, radius as int),
{
    let ghost goal = smoothed_columns(data@, w as int, h as int, kernel@, radius as int);
    let len: usize = data.len();
    let mut out: Vec<Binary32> = Vec::new();
    let mut r: usize = 0;
    assert(0 * w == 0);
    while r < h
        invariant
            r <= h,
            len == data@.len(),
            w * h <= len,
            goal == smoothed_columns(data@, w as int, h as int, kernel@, radius as int),
            out@ == goal.take(r * w),
            r * w <= w * h,
        decreases h - r,
    {
        let mut c: usize = 0;
        assert((r + 1) * w == r * w + w) by (nonlinear_arith);
        assert(r * w + w <= w * h) by (nonlinear_arith)
            requires
                r + 1 <= h,
        ;
        while c < w
            invariant
                r < h,
                c <= w,
                len == data@.len(),
                w * h <= len,
                r * w + w <= w * h,
                goal == smoothed_columns(data@, w as int, h as int, kernel@, radius as int),
                out@ == goal.take(r * w + c),
            decreases w - c,
        {
            proof {
                lemma_place(w as int, h as int, r as int, c as int);
            }
            let mut acc: Binary32 = Binary32::from_usize(0);
            let mut k: usize = 0;
            while k < kernel.len()
                invariant
                    k <= kernel@.len(),
                    r < h,
                    c < w,
                    len == data@.len(),
                    w * h <= len,
                    acc == weighted(
                        data@,
                        c as int,
                        w as int,
                        h as int,
                        kernel@,
                        radius as int,
                        r as int,
                        k as int,
                    ),
                decreases kernel@.len() - k,
            {
                let t: usize = tap_of(r, k, radius, h);
                proof {
                    lemma_place(w as int, h as int, t as int, c as int);
                }
                acc = acc.plus(data[c + t * w].times(kernel[k]));
                k += 1;
            }
            out.push(acc);
            assert(goal[r * w + c] == acc);
            assert(out@ =~= goal.take(r * w + c + 1));
            c += 1;
        }
        r += 1;
    }
    assert(h * w == w * h) by (nonlinear_arith);
    assert(out@ =~= goal);
    out
}

/// Smooths an image; `exps` are the exponentials of [`kernel_exponents`].
pub fn apply_gaussian_filter(
    data: &[Binary32],
    width: usize,
    height: usize,
    sigma: Binary32,
    exps: &[Binary32],
) -> (r: Vec<Binary32>)
    requires
        width * height <= data@.len(),
    ensures
        r@ == smoothed(data@, width as int, height as int, sigma, exps@),
{
    if sigma.at_most(Binary32::from_usize(0)) {
        return copy_numbers(data);
    }
    let radius: usize = gaussian_reach(sigma);
    let kernel: Vec<Binary32> = normalise(exps);
    let rows: Vec<Binary32> = smooth_rows(data, width, height, kernel.as_slice(), radius);
    smooth_columns(rows.as_slice(), width, height, kernel.as_slice(), radius)
}

} // verus!
