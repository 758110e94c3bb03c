//! Rolling-ball background subtraction.
//!
//! A ball is rolled underneath the surface: the surface, spread over a fixed
//! working range, is eroded and then dilated with a sphere. For large balls
//! that happens on a smaller image, whose background is enlarged again; where it
//! comes out above the surface, it is the surface.

use crate::binary::Binary32;
use crate::filter::{epsilon, EPSILON};
use crate::float::Toward;
use crate::grid::lemma_place;
use crate::smooth::copy_numbers;
use vstd::prelude::*;

verus! {

pub const PLUS_INFINITY: u32 = 0x7f80_0000;

pub const MINUS_INFINITY: u32 = 0xff80_0000;

pub open spec fn plus_infinity() -> Binary32 {
    Binary32 { bits: PLUS_INFINITY }
}

pub open spec fn minus_infinity() -> Binary32 {
    Binary32 { bits: MINUS_INFINITY }
}

/// The least of the first `n` numbers.
pub open spec fn least(s: Seq<Binary32>, n: int) -> Binary32
    decreases n,
{
    if n <= 0 {
        plus_infinity()
    } else {
        least(s, n - 1).min(s[n - 1])
    }
}

/// The greatest of the first `n` numbers.
pub open spec fn greatest(s: Seq<Binary32>, n: int) -> Binary32
    decreases n,
{
    if n <= 0 {
        minus_infinity()
    } else {
        greatest(s, n - 1).max(s[n - 1])
    }
}

/// Finds the least and the greatest number.
pub fn extremes(s: &[Binary32]) -> (r: (Binary32, Binary32))
    ensures
        r.0 == least(s@, s@.len() as int),
        r.1 == greatest(s@, s@.len() as int),
{
    let mut lo: Binary32 = Binary32 { bits: PLUS_INFINITY };
    let mut hi: Binary32 = Binary32 { bits: MINUS_INFINITY };
    let mut i: usize = 0;
    while i < s.len()
        invariant
            i <= s@.len(),
            lo == least(s@, i as int),
            hi == greatest(s@, i as int),
        decreases s@.len() - i,
    {
        lo = lo.min(s[i]);
        hi = hi.max(s[i]);
        i += 1;
    }
    (lo, hi)
}

// ---- the ball ----

/// The square of the distance of an offset.
pub open spec fn distance2(di: int, dj: int) -> Binary32 {
    Binary32::of_integer(di * di + dj * dj)
}

/// Whether an offset lies within a ball of radius `r`.
pub open spec fn in_ball(r: int, di: int, dj: int) -> bool {
    distance2(di, dj).at_most(Binary32::of_integer(r * r))
}

/// The height of the ball over an offset.
pub open spec fn ball_height(r: int, di: int, dj: int) -> Binary32 {
    Binary32::of_integer(r * r).minus(distance2(di, dj)).sqrt()
}

/// The ball over the first `n` offsets of the square around it, row by row.
pub open spec fn ball(r: int, n: int) -> Seq<(i32, i32, Binary32)>
    decreases n,
{
    if n <= 0 {
        Seq::empty()
    } else {
        let di = (n - 1) % (2 * r + 1) - r;
        let dj = (n - 1) / (2 * r + 1) - r;
        if in_ball(r, di, dj) {
            ball(r, n - 1).push((di as i32, dj as i32, ball_height(r, di, dj)))
        } else {
            ball(r, n - 1)
        }
    }
}

/// All of the ball.
pub open spec fn whole_ball(r: int) -> Seq<(i32, i32, Binary32)> {
    ball(r, (2 * r + 1) * (2 * r + 1))
}

/// Builds a ball.
pub fn build_ball(r: usize) -> (v: Vec<(i32, i32, Binary32)>)
    requires
        r <= 32767,
    ensures
        v@ == whole_ball(r as int),
{
    let ri: i32 = r as i32;
    let side: i32 = 2 * ri + 1;
    assert(r * r <= 32767 * 32767) by (nonlinear_arith)
        requires
            r <= 32767,
    ;
    let r2: Binary32 = Binary32::from_usize(r * r);
    let mut v: Vec<(i32, i32, Binary32)> = Vec::new();
    let mut j: i32 = 0;
    assert(0 * side == 0);
    while j < side
        invariant
            ri == r,
            r <= 32767,
            side == 2 * ri + 1,
            0 <= j <= side,
            r2 == Binary32::of_integer(r * r),
            v@ == ball(r as int, j * side),
        decreases side - j,
    {
        let dj: i32 = j - ri;
        let mut i: i32 = 0;
        assert((j + 1) * side == j * side + side) by (nonlinear_arith);
        while i < side
            invariant
                ri == r,
                r <= 32767,
                side == 2 * ri + 1,
                0 <= j < side,
                dj == j - ri,
                0 <= i <= side,
                r2 == Binary32::of_integer(r * r),
                v@ == ball(r as int, j * side + i),
            decreases side - i,
        {
            let di: i32 = i - ri;
            proof {
                lemma_place(side as int, side as int, j as int, i as int);
                assert(0 <= di * di <= 32767 * 32767) by (nonlinear_arith)
                    requires
                        -32767 <= di <= 32767,
                ;
                assert(0 <= dj * dj <= 32767 * 32767) by (nonlinear_arith)
                    requires
                        -32767 <= dj <= 32767,
                ;
            }
            let d2: Binary32 = Binary32::from_i64((di * di + dj * dj) as i64);
            if d2.at_most(r2) {
                v.push((di, dj, r2.minus(d2).sqrt()));
            }
            i += 1;
        }
        j += 1;
    }
    v
}

// ---- erosion and dilation ----

pub open spec fn clamped(v: int, len: int) -> int {
    if v < 0 {
        0
    } else if v >= len {
        len - 1
    } else {
        v
    }
}

/// The surface under one point of the ball that is centred on column `x` of row
/// `y`; beyond an edge, the edge.
pub open spec fn under(
    g: Seq<Binary32>,
    w: int,
    h: int,
    x: int,
    y: int,
    p: (i32, i32, Binary32),
) -> Binary32 {
    g[clamped(y + p.1, h) * w + clamped(x + p.0, w)]
}

/// The lowest position of the ball against the first `n` of its points when it
/// is eroded with, the highest when it is dilated with.
pub open spec fn rolled(
    g: Seq<Binary32>,
    w: int,
    h: int,
    b: Seq<(i32, i32, Binary32)>,
    dilate: bool,
    x: int,
    y: int,
    n: int,
) -> Binary32
    decreases n,
{
    if n <= 0 {
        if dilate {
            minus_infinity()
        } else {
            plus_infinity()
        }
    } else if dilate {
        rolled(g, w, h, b, dilate, x, y, n - 1).max(
            under(g, w, h, x, y, b[n - 1]).plus(b[n - 1].2),
        )
    } else {
        rolled(g, w, h, b, dilate, x, y, n - 1).min(
            under(g, w, h, x, y, b[n - 1]).minus(b[n - 1].2),
        )
    }
}

/// One pass of the ball over a surface.
pub open spec fn morphed(
    g: Seq<Binary32>,
    w: int,
    h: int,
    b: Seq<(i32, i32, Binary32)>,
    dilate: bool,
) -> Seq<Binary32> {
    Seq::new(
        (w * h) as nat,
        |k: int| rolled(g, w, h, b, dilate, k % w, k / w, b.len() as int),
    )
}

fn shift(v: usize, d: i32, len: usize) -> (r: usize)
    requires
        v < len,
    ensures
        r == clamped(v + d, len as int),
        r < len,
{
    if d < 0 {
        let back: usize = (-(d as i64)) as usize;
        if back > v {
            0
        } else {
            v - back
        }
    } else {
        let on: usize = d as usize;
        if on >= len - v {
            len - 1
        } else {
            v + on
        }
    }
}

/// Makes one pass of the ball over a surface: erosion, or dilation.
pub fn ball_morph(
    g: &[Binary32],
    w: usize,
    h: usize,
    ball: &[(i32, i32, Binary32)],
    dilate: bool,
) -> (r: Vec<Binary32>)
    requires
        w * h <= g@.len(),
    ensures
        r@ == morphed(g@, w as int, h as int, ball@, dilate),
{
    let ghost goal = morphed(g@, w as int, h as int, ball@, dilate);
    let len: usize = g.len();
    let mut out: Vec<Binary32> = Vec::new();
    let mut y: usize = 0;
    assert(0 * w == 0);
    while y < h
        invariant
            y <= h,
            len == g@.len(),
            w * h <= len,
            goal == morphed(g@, w as int, h as int, ball@, dilate),
            out@ == goal.take(y * w),
            y * w <= w * h,
        decreases h - y,
    {
        let mut x: usize = 0;
        assert((y + 1) * w == y * w + w) by (nonlinear_arith);
        assert(y * w + w <= w * h) by (nonlinear_arith)
            requires
                y + 1 <= h,
        ;
        while x < w
            invariant
                y < h,
                x <= w,
                len == g@.len(),
                w * h <= len,
                y * w + w <= w * h,
                goal == morphed(g@, w as int, h as int, ball@, dilate),
                out@ == goal.take(y * w + x),
            decreases w - x,
        {
            proof {
                lemma_place(w as int, h as int, y as int, x as int);
            }
            let mut acc: Binary32 = if dilate {
                Binary32 { bits: MINUS_INFINITY }
            } else {
                Binary32 { bits: PLUS_INFINITY }
            };
            let mut n: usize = 0;
            while n < ball.len()
                invariant
                    n <= ball@.len(),
                    x < w,
                    y < h,
                    len == g@.len(),
                    w * h <= len,
                    acc == rolled(
                        g@,
                        w as int,
                        h as int,
                        ball@,
                        dilate,
                        x as int,
                        y as int,
                        n as int,
                    ),
                decreases ball@.len() - n,
            {
                let (di, dj, bh) = ball[n];
                let xx: usize = shift(x, di, w);
                let yy: usize = shift(y, dj, h);
                proof {
                    lemma_place(w as int, h as int, yy as int, xx as int);
                }
                let s: Binary32 = g[yy * w + xx];
                if dilate {
                    acc = acc.max(s.plus(bh));
                } else {
                    acc = acc.min(s.minus(bh));
                }
                n += 1;
            }
            out.push(acc);
            assert(goal[y * w + x] == acc);
            assert(out@ =~= goal.take(y * w + x + 1));
            x += 1;
        }
        y += 1;
    }
    assert(h * w == w * h) by (nonlinear_arith);
    assert(out@ =~= goal);
    out
}

/// A surface opened with a ball: eroded, then dilated.
pub open spec fn opened(g: Seq<Binary32>, w: int, h: int, r: int) -> Seq<Binary32> {
    let b = whole_ball(r);
    morphed(morphed(g, w, h, b, false), w, h, b, true)
}

/// Opens a surface with a ball.
pub fn ball_opening(g: &[Binary32], w: usize, h: usize, r: usize) -> (v: Vec<Binary32>)
    requires
        w * h <= g@.len(),
        r <= 32767,
    ensures
        v@ == opened(g@, w as int, h as int, r as int),
{
    let ball: Vec<(i32, i32, Binary32)> = build_ball(r);
    let eroded: Vec<Binary32> = ball_morph(g, w, h, ball.as_slice(), false);
    ball_morph(eroded.as_slice(), w, h, ball.as_slice(), true)
}

// ---- shrinking and enlarging ----

/// The least of `acc` and the `n` numbers from place `from` on.
pub open spec fn least_run(acc: Binary32, data: Seq<Binary32>, from: int, n: int) -> Binary32
    decreases n,
{
    if n <= 0 {
        acc
    } else {
        least_run(acc, data, from, n - 1).min(data[from + n - 1])
    }
}

/// The least number of a block of a grid `w` wide.
pub open spec fn least_in_block(
    data: Seq<Binary32>,
    w: int,
    x: int,
    cols: int,
    y: int,
    rows: int,
) -> Binary32
    decreases rows,
{
    if rows <= 0 {
        plus_infinity()
    } else {
        least_run(
            least_in_block(data, w, x, cols, y, rows - 1),
            data,
            (y + rows - 1) * w + x,
            cols,
        )
    }
}

/// `n / k`, rounded up.
pub open spec fn blocks(n: int, k: int) -> int {
    if n % k == 0 {
        n / k
    } else {
        n / k + 1
    }
}

/// The length of block `i` when `n` is cut into blocks of `k`.
pub open spec fn block_len(n: int, k: int, i: int) -> int {
    if i * k + k <= n {
        k
    } else {
        n - i * k
    }
}

/// A grid with every block of `k` by `k` replaced by its least number.
pub open spec fn shrunk(data: Seq<Binary32>, w: int, h: int, k: int) -> Seq<Binary32> {
    if k <= 1 {
        data
    } else {
        let sw = blocks(w, k);
        Seq::new(
            (sw * blocks(h, k)) as nat,
            |o: int|
                least_in_block(
                    data,
                    w,
                    (o % sw) * k,
                    block_len(w, k, o % sw),
                    (o / sw) * k,
                    block_len(h, k, o / sw),
                ),
        )
    }
}

pub(crate) proof fn lemma_blocks(n: int, k: int)
    requires
        n >= 0,
        k > 1,
    ensures
        0 <= blocks(n, k) <= n,
        n <= blocks(n, k) * k,
        forall|i: int|
            0 <= i < blocks(n, k) ==> 0 < #[trigger] block_len(n, k, i) <= k && 0 <= i * k && i * k
                + block_len(n, k, i) <= n,
{
    let q = n / k;
    let r = n % k;
    vstd::arithmetic::div_mod::lemma_fundamental_div_mod(n, k);
    assert(k * q == q * k) by (nonlinear_arith);
    assert(q >= 0) by (nonlinear_arith)
        requires
            n == q * k + r,
            n >= 0,
            0 <= r < k,
            k > 1,
    ;
    assert(q <= n && (r > 0 ==> q + 1 <= n)) by (nonlinear_arith)
        requires
            n == q * k + r,
            0 <= r < k,
            k > 1,
            q >= 0,
    ;
    assert((q + 1) * k == q * k + k) by (nonlinear_arith);
    assert forall|i: int| 0 <= i < blocks(n, k) implies 0 < #[trigger] block_len(n, k, i) <= k && 0
        <= i * k && i * k + block_len(n, k, i) <= n by {
        assert(0 <= i * k) by (nonlinear_arith)
            requires
                i >= 0,
                k > 1,
        ;
        if i < q {
            assert(i * k + k <= q * k) by (nonlinear_arith)
                requires
                    i + 1 <= q,
                    k > 1,
            ;
        } else {
            assert(i == q);
        }
    }
}

fn count_blocks(n: usize, k: usize) -> (r: usize)
    requires
        k > 1,
    ensures
        r == blocks(n as int, k as int),
{
    proof {
        lemma_blocks(n as int, k as int);
    }
    if n % k == 0 {
        n / k
    } else {
        n / k + 1
    }
}

fn least_of_block(
    data: &[Binary32],
    w: usize,
    h: usize,
    x: usize,
    cols: usize,
    y: usize,
    rows: usize,
) -> (r: Binary32)
    requires
        w * h <= data@.len(),
        x + cols <= w,
        y + rows <= h,
    ensures
        r == least_in_block(data@, w as int, x as int, cols as int, y as int, rows as int),
{
    let len: usize = data.len();
    let mut acc: Binary32 = Binary32 { bits: PLUS_INFINITY };
    let mut j: usize = 0;
    while j < rows
        invariant
            j <= rows,
            len == data@.len(),
            w * h <= len,
            x + cols <= w,
            y + rows <= h,
            acc == least_in_block(data@, w as int, x as int, cols as int, y as int, j as int),
        decreases rows - j,
    {
        let ghost before = acc;
        let mut i: usize = 0;
        while i < cols
            invariant
                i <= cols,
                j < rows,
                len == data@.len(),
                w * h <= len,
                x + cols <= w,
                y + rows <= h,
                acc == least_run(before, data@, (y + j) * w + x, i as int),
            decreases cols - i,
        {
            proof {
                lemma_place(w as int, h as int, y + j, x + i);
            }
            acc = acc.min(data[(y + j) * w + (x + i)]);
            i += 1;
        }
        j += 1;
    }
    acc
}

/// Replaces every block of `k` by `k` by its least number.
pub fn shrink_min(data: &[Binary32], w: usize, h: usize, k: usize) -> (r: (
    usize,
    usize,
    Vec<Binary32>,
))
    requires
        w * h <= data@.len(),
        k >= 1,
    ensures
        r.2@ == shrunk(data@, w as int, h as int, k as int),
        k > 1 ==> r.0 == blocks(w as int, k as int) && r.1 == blocks(h as int, k as int),
        k == 1 ==> r.0 == w && r.1 == h,
{
    if k <= 1 {
        return (w, h, copy_numbers(data));
    }
    let sw: usize = count_blocks(w, k);
    let sh: usize = count_blocks(h, k);
    let ghost goal = shrunk(data@, w as int, h as int, k as int);
    proof {
        lemma_blocks(w as int, k as int);
        lemma_blocks(h as int, k as int);
    }
    let mut out: Vec<Binary32> = Vec::new();
    let mut j: usize = 0;
    assert(0 * sw == 0);
    while j < sh
        invariant
            j <= sh,
            k > 1,
            sw == blocks(w as int, k as int),
            sh == blocks(h as int, k as int),
            w * h <= data@.len(),
            goal == shrunk(data@, w as int, h as int, k as int),
            out@ == goal.take(j * sw),
            j * sw <= sw * sh,
        decreases sh - j,
    {
        proof {
            lemma_blocks(h as int, k as int);
            assert(0 < block_len(h as int, k as int, j as int));
        }
        let y: usize = j * k;
        let rows: usize = if h - y >= k {
            k
        } else {
            h - y
        };
        assert(rows == block_len(h as int, k as int, j as int));
        let mut i: usize = 0;
        assert((j + 1) * sw == j * sw + sw) by (nonlinear_arith);
        assert(j * sw + sw <= sw * sh) by (nonlinear_arith)
            requires
                j + 1 <= sh,
        ;
        while i < sw
            invariant
                i <= sw,
                j < sh,
                k > 1,
                sw == blocks(w as int, k as int),
                sh == blocks(h as int, k as int),
                w * h <= data@.len(),
                y == j * k,
                rows == block_len(h as int, k as int, j as int),
                y + rows <= h,
                j * sw + sw <= sw * sh,
                goal == shrunk(data@, w as int, h as int, k as int),
                out@ == goal.take(j * sw + i),
            decreases sw - i,
        {
            proof {
                lemma_blocks(w as int, k as int);
                assert(0 < block_len(w as int, k as int, i as int));
                lemma_place(sw as int, sh as int, j as int, i as int);
            }
            let x: usize = i * k;
            let cols: usize = if w - x >= k {
                k
            } else {
                w - x
            };
            assert(cols == block_len(w as int, k as int, i as int));
            let v: Binary32 = least_of_block(data, w, h, x, cols, y, rows);
            out.push(v);
            assert(goal[j * sw + i] == v);
            assert(out@ =~= goal.take(j * sw + i + 1));
            i += 1;
        }
        j += 1;
    }
    assert(sh * sw == sw * sh) by (nonlinear_arith);
    assert(out@ =~= goal);
    (sw, sh, out)
}

/// How far apart the samples of `n` lie on an axis of `len`, ends aligned.
pub open spec fn spacing(n: int, len: int) -> Binary32 {
    if len > 1 {
        Binary32::of_integer(n - 1).over(Binary32::of_integer(len - 1))
    } else {
        Binary32::of_integer(0)
    }
}

/// The sample at or before sample `i` of the enlarged axis: one of `n`.
pub open spec fn lower(i: int, step: Binary32, n: int) -> int {
    clamped(Binary32::of_integer(i).times(step).integer(Toward::Floor, 0, usize::MAX as int), n)
}

/// The one after it, if there is one.
pub open spec fn upper(i: int, step: Binary32, n: int) -> int {
    clamped(lower(i, step, n) + 1, n)
}

/// How far sample `i` of the enlarged axis lies between the two.
pub open spec fn between(i: int, step: Binary32, n: int) -> Binary32 {
    Binary32::of_integer(i).times(step).minus(Binary32::of_integer(lower(i, step, n)))
}

/// `a` and `b` mixed: `t` of the way from `a` to `b`.
pub open spec fn mixed(a: Binary32, b: Binary32, t: Binary32) -> Binary32 {
    a.plus(b.minus(a).times(t))
}

/// The number at column `x` of row `y` of an enlarged grid, bilinear between
/// the four around it.
pub open spec fn enlarged_at(
    small: Seq<Binary32>,
    sw: int,
    sh: int,
    sx: Binary32,
    sy: Binary32,
    x: int,
    y: int,
) -> Binary32 {
    let (x0, x1, tx) = (lower(x, sx, sw), upper(x, sx, sw), between(x, sx, sw));
    let (y0, y1, ty) = (lower(y, sy, sh), upper(y, sy, sh), between(y, sy, sh));
    mixed(
        mixed(small[y0 * sw + x0], small[y0 * sw + x1], tx),
        mixed(small[y1 * sw + x0], small[y1 * sw + x1], tx),
        ty,
    )
}

/// A grid enlarged bilinearly, corners aligned.
pub open spec fn enlarged(small: Seq<Binary32>, sw: int, sh: int, w: int, h: int) -> Seq<Binary32> {
    if sw == w && sh == h {
        small
    } else {
        Seq::new(
            (w * h) as nat,
            |k: int|
                enlarged_at(small, sw, sh, spacing(sw, w), spacing(sh, h), k % w, k / w),
        )
    }
}

fn locate(i: usize, step: Binary32, n: usize) -> (r: (usize, usize, Binary32))
    requires
        n > 0,
    ensures
        r.0 == lower(i as int, step, n as int),
        r.1 == upper(i as int, step, n as int),
        r.2 == between(i as int, step, n as int),
        r.0 < n,
        r.1 < n,
{
    let g: Binary32 = Binary32::from_usize(i).times(step);
    let f: usize = g.to_usize(Toward::Floor);
    let lo: usize = if f >= n {
        n - 1
    } else {
        f
    };
    let hi: usize = if lo + 1 >= n {
        n - 1
    } else {
        lo + 1
    };
    (lo, hi, g.minus(Binary32::from_usize(lo)))
}

fn spacing_of(n: usize, len: usize) -> (r: Binary32)
    requires
        n > 0,
    ensures
        r == spacing(n as int, len as int),
{
    if len > 1 {
        Binary32::from_usize(n - 1).over(Binary32::from_usize(len - 1))
    } else {
        Binary32::from_usize(0)
    }
}

/// Enlarges a grid bilinearly.
pub fn enlarge(small: &[Binary32], sw: usize, sh: usize, w: usize, h: usize) -> (r: Vec<Binary32>)
    requires
        sw > 0,
        sh > 0,
        sw * sh <= small@.len(),
    ensures
        r@ == enlarged(small@, sw as int, sh as int, w as int, h as int),
{
    if sw == w && sh == h {
        return copy_numbers(small);
    }
    let ghost goal = enlarged(small@, sw as int, sh as int, w as int, h as int);
    let len: usize = small.len();
    let sx: Binary32 = spacing_of(sw, w);
    let sy: Binary32 = spacing_of(sh, h);
    let mut out: Vec<Binary32> = Vec::new();
    let mut y: usize = 0;
    assert(0 * w == 0);
    while y < h
        invariant
            y <= h,
            sw > 0,
            sh > 0,
            len == small@.len(),
            sw * sh <= len,
            sx == spacing(sw as int, w as int),
            sy == spacing(sh as int, h as int),
            sw != w || sh != h,
            goal == enlarged(small@, sw as int, sh as int, w as int, h as int),
            out@ == goal.take(y * w),
            y * w <= w * h,
        decreases h - y,
    {
        let (y0, y1, ty) = locate(y, sy, sh);
        let mut x: usize = 0;
        assert((y + 1) * w == y * w + w) by (nonlinear_arith);
        assert(y * w + w <= w * h) by (nonlinear_arith)
            requires
                y + 1 <= h,
        ;
        while x < w
            invariant
                y < h,
                x <= w,
                sw > 0,
                sh > 0,
                len == small@.len(),
                sw * sh <= len,
                sx == spacing(sw as int, w as int),
                sy == spacing(sh as int, h as int),
                sw != w || sh != h,
                y0 == lower(y as int, sy, sh as int),
                y1 == upper(y as int, sy, sh as int),
                ty == between(y as int, sy, sh as int),
                y0 < sh,
                y1 < sh,
                y * w + w <= w * h,
                goal == enlarged(small@, sw as int, sh as int, w as int, h as int),
                out@ == goal.take(y * w + x),
            decreases w - x,
        {
            let (x0, x1, tx) = locate(x, sx, sw);
            proof {
                lemma_place(w as int, h as int, y as int, x as int);
                lemma_place(sw as int, sh as int, y0 as int, x0 as int);
                lemma_place(sw as int, sh as int, y0 as int, x1 as int);
                lemma_place(sw as int, sh as int, y1 as int, x0 as int);
                lemma_place(sw as int, sh as int, y1 as int, x1 as int);
            }
            let v00: Binary32 = small[y0 * sw + x0];
            let v01: Binary32 = small[y0 * sw + x1];
            let v10: Binary32 = small[y1 * sw + x0];
            let v11: Binary32 = small[y1 * sw + x1];
            let top: Binary32 = v00.plus(v01.minus(v00).times(tx));
            let bottom: Binary32 = v10.plus(v11.minus(v10).times(tx));
            let v: Binary32 = top.plus(bottom.minus(top).times(ty));
            out.push(v);
            assert(goal[y * w + x] == v);
            assert(out@ =~= goal.take(y * w + x + 1));
            x += 1;
        }
        y += 1;
    }
    assert(h * w == w * h) by (nonlinear_arith);
    assert(out@ =~= goal);
    out
}

// ---- the background ----

/// By how much an image is shrunk for a ball of some radius.
pub open spec fn shrink_factor(radius: int) -> int {
    if radius <= 10 {
        1
    } else if radius <= 30 {
        2
    } else if radius <= 100 {
        4
    } else {
        8
    }
}

/// The radius of the ball on the shrunk image.
pub open spec fn small_radius(radius: int) -> int {
    if radius / shrink_factor(radius) >= 1 {
        radius / shrink_factor(radius)
    } else {
        1
    }
}

/// The background of a surface that is spread over the working range.
pub open spec fn background(norm: Seq<Binary32>, w: int, h: int, radius: int) -> Seq<Binary32> {
    let k = shrink_factor(radius);
    let (sw, sh) = if k > 1 {
        (blocks(w, k), blocks(h, k))
    } else {
        (w, h)
    };
    enlarged(opened(shrunk(norm, w, h, k), sw, sh, small_radius(radius)), sw, sh, w, h)
}

/// Estimates the background of a surface.
pub fn rolling_ball_background(norm: &[Binary32], w: usize, h: usize, radius: usize) -> (r: Vec<
    Binary32,
>)
    requires
        w > 0,
        h > 0,
        w * h <= norm@.len(),
        small_radius(radius as int) <= 32767,
    ensures
        r@ == background(norm@, w as int, h as int, radius as int),
{
    let k: usize = if radius <= 10 {
        1
    } else if radius <= 30 {
        2
    } else if radius <= 100 {
        4
    } else {
        8
    };
    let small_r: usize = if radius / k >= 1 {
        radius / k
    } else {
        1
    };
    let (sw, sh, small) = shrink_min(norm, w, h, k);
    proof {
        if k > 1 {
            lemma_blocks(w as int, k as int);
            lemma_blocks(h as int, k as int);
            assert(sw > 0) by (nonlinear_arith)
                requires
                    w <= sw * k,
                    w > 0,
                    k > 0,
            ;
            assert(sh > 0) by (nonlinear_arith)
                requires
                    h <= sh * k,
                    h > 0,
                    k > 0,
            ;
        }
    }
    let small_bg: Vec<Binary32> = ball_opening(small.as_slice(), sw, sh, small_r);
    enlarge(small_bg.as_slice(), sw, sh, w, h)
}

/// The range of some numbers, and at least the smallest step at one.
pub open spec fn range_of(lo: Binary32, hi: Binary32) -> Binary32 {
    hi.minus(lo).max(epsilon())
}

/// The numbers spread over the working range from 0 to 100.
pub open spec fn spread(data: Seq<Binary32>, lo: Binary32, range: Binary32) -> Seq<Binary32> {
    Seq::new(
        data.len(),
        |i: int| data[i].minus(lo).over(range).times(Binary32::of_integer(100)),
    )
}

/// What a height in the working range comes back as.
pub open spec fn brought_back(z: Binary32, lo: Binary32, range: Binary32) -> Binary32 {
    z.over(Binary32::of_integer(100)).times(range).plus(lo)
}

/// A number less its background, which is given in the working range. Where the
/// background comes out above the number, it is the number itself.
pub open spec fn without_background(
    v: Binary32,
    bg: Binary32,
    lo: Binary32,
    range: Binary32,
) -> Binary32 {
    v.minus(brought_back(bg, lo, range).min(v))
}

/// A grid less its background. Without a ball, or without a grid, it is left
/// alone.
pub open spec fn subtracted(data: Seq<Binary32>, w: int, h: int, radius: int) -> Seq<Binary32> {
    if radius == 0 || w == 0 || h == 0 || data.len() < w * h {
        data
    } else {
        let lo = least(data, data.len() as int);
        let range = range_of(lo, greatest(data, data.len() as int));
        let bg = background(spread(data, lo, range), w, h, radius);
        Seq::new((w * h) as nat, |i: int| without_background(data[i], bg[i], lo, range))
    }
}

/// Subtracts the background that a ball of `radius` samples finds.
pub fn rolling_ball_subtract(data: &[Binary32], w: usize, h: usize, radius: usize) -> (r: Vec<
    Binary32,
>)
    requires
        small_radius(radius as int) <= 32767,
    ensures
        r@ == subtracted(data@, w as int, h as int, radius as int),
{
    if radius == 0 || w == 0 || h == 0 {
        return copy_numbers(data);
    }
    let len: usize = data.len();
    let n: usize = match w.checked_mul(h) {
        Some(n) => n,
        None => {
            return copy_numbers(data);
        },
    };
    if len < n {
        return copy_numbers(data);
    }
    let (lo, hi) = extremes(data);
    let range: Binary32 = hi.minus(lo).max(Binary32 { bits: EPSILON });
    let work: Binary32 = Binary32::from_usize(100);
    let ghost goal = spread(data@, lo, range);
    let mut norm: Vec<Binary32> = Vec::new();
    let mut i: usize = 0;
    while i < data.len()
        invariant
            i <= data@.len(),
            work == Binary32::of_integer(100),
            goal == spread(data@, lo, range),
            norm@ == goal.take(i as int),
        decreases data@.len() - i,
    {
        norm.push(data[i].minus(lo).over(range).times(work));
        i += 1;
        assert(norm@ =~= goal.take(i as int));
    }
    assert(norm@ =~= goal);
    let bg: Vec<Binary32> = rolling_ball_background(norm.as_slice(), w, h, radius);
    let ghost result = subtracted(data@, w as int, h as int, radius as int);
    proof {
        lemma_background_len(norm@, w as int, h as int, radius as int);
    }
    let mut out: Vec<Binary32> = Vec::new();
    let mut i: usize = 0;
    while i < n && i < bg.len()
        invariant
            n == w * h,
            n <= data@.len(),
            bg@.len() >= n,
            i <= n,
            work == Binary32::of_integer(100),
            result == Seq::new(
                (w * h) as nat,
                |i: int| without_background(data@[i], bg@[i], lo, range),
            ),
            out@ == result.take(i as int),
        decreases n - i,
    {
        let back: Binary32 = bg[i].over(work).times(range).plus(lo);
        out.push(data[i].minus(back.min(data[i])));
        i += 1;
        assert(out@ =~= result.take(i as int));
    }
    assert(out@ =~= result);
    out
}

proof fn lemma_background_len(norm: Seq<Binary32>, w: int, h: int, radius: int)
    requires
        w > 0,
        h > 0,
    ensures
        background(norm, w, h, radius).len() == w * h,
{
    assert(w * h >= 0) by (nonlinear_arith)
        requires
            w > 0,
            h > 0,
    ;
}

/// A ball without a radius changes nothing.
pub proof fn law_zero_radius_changes_nothing(data: Seq<Binary32>, w: int, h: int)
    ensures
        subtracted(data, w, h, 0) == data,
{
}

/// The extremes are those of the numbers: none lies outside of them, and each of
/// the two is one of the numbers.
pub proof fn law_extremes_hold_all(s: Seq<Binary32>, n: int, i: int)
    requires
        0 <= i < n <= s.len(),
        forall|k: int| 0 <= k < n ==> (#[trigger] s[k]).is_finite(),
    ensures
        least(s, n).at_most(s[i]),
        s[i].at_most(greatest(s, n)),
        exists|k: int| 0 <= k < n && least(s, n) == #[trigger] s[k],
        exists|k: int| 0 <= k < n && greatest(s, n) == #[trigger] s[k],
    decreases n,
{
    let last = s[n - 1];
    assert(last.is_finite());
    if n == 1 {
        assert(least(s, 0) == plus_infinity());
        assert(greatest(s, 0) == minus_infinity());
        assert(least(s, 1) == s[0] && greatest(s, 1) == s[0]);
    } else {
        law_extremes_hold_all(s, n - 1, if i < n - 1 { i } else { 0 });
        assert(least(s, n) == last || least(s, n) == least(s, n - 1));
        assert(greatest(s, n) == last || greatest(s, n) == greatest(s, n - 1));
    }
}

} // verus!
