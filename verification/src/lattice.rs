//! Row-major addressing of two-dimensional grids and channel-interleaved buffers.
use vstd::arithmetic::div_mod::*;
use vstd::prelude::*;

verus! {

/// The row-major position of column `x` in row `y` of a grid that is `w` wide.
///
/// The same rule addresses a channel-interleaved buffer: channel `c` of pixel `p` stands at
/// `at(c, p, channels)`.
pub open spec fn at(x: int, y: int, w: int) -> int {
    y * w + x
}

/// Compute a row-major position.
pub fn position(x: usize, y: usize, w: usize) -> (r: usize)
    requires
        at(x as int, y as int, w as int) <= usize::MAX,
    ensures
        r == at(x as int, y as int, w as int),
{
    assert(0 <= y * w <= at(x as int, y as int, w as int)) by (nonlinear_arith)
        requires
            0 <= y,
            0 <= w,
            0 <= x,
            at(x as int, y as int, w as int) == y * w + x,
    ;
    y * w + x
}

/// A cell of a `w` by `h` grid has its position inside the grid's buffer.
pub proof fn lemma_at_bounds(x: int, y: int, w: int, h: int)
    requires
        0 <= x < w,
        0 <= y < h,
    ensures
        0 <= at(x, y, w) < w * h,
        at(x, y, w) + (w - x) <= w * h,
        0 <= y * w,
{
    assert(0 <= y * w) by (nonlinear_arith)
        requires
            0 <= y,
            0 < w,
    ;
    assert((y + 1) * w <= h * w) by (nonlinear_arith)
        requires
            y + 1 <= h,
            0 < w,
    ;
    assert((y + 1) * w == y * w + w) by (nonlinear_arith);
    assert(h * w == w * h) by (nonlinear_arith);
}

/// A position determines its column and row.
pub proof fn lemma_at_inverse(x: int, y: int, w: int)
    requires
        0 <= x < w,
    ensures
        at(x, y, w) / w == y,
        at(x, y, w) % w == x,
{
    lemma_fundamental_div_mod_converse(at(x, y, w), w, y, x);
}

/// Every position of a grid's buffer is that of exactly one cell.
pub proof fn lemma_at_of(i: int, w: int, h: int)
    requires
        0 <= i < w * h,
        0 <= w,
        0 <= h,
    ensures
        0 < w,
        0 <= i % w < w,
        0 <= i / w < h,
        at(i % w, i / w, w) == i,
{
    assert(w > 0) by (nonlinear_arith)
        requires
            0 < w * h,
            0 <= w,
    ;
    lemma_fundamental_div_mod(i, w);
    assert(i / w * w == w * (i / w)) by (nonlinear_arith);
    assert(0 <= i / w) by {
        lemma_div_pos_is_pos(i, w);
    }
    assert(i / w < h) by (nonlinear_arith)
        requires
            w * (i / w) <= i,
            i < w * h,
            w > 0,
    ;
}

/// Two cells with one position are one cell.
pub proof fn lemma_at_injective(x1: int, y1: int, x2: int, y2: int, w: int)
    requires
        0 <= x1 < w,
        0 <= x2 < w,
        at(x1, y1, w) == at(x2, y2, w),
    ensures
        x1 == x2,
        y1 == y2,
{
    lemma_at_inverse(x1, y1, w);
    lemma_at_inverse(x2, y2, w);
}

/// The channel-interleaved buffer of `w` by `h` pixels with `c` channels whose sample at column `x`,
/// row `y` and channel `ch` is `f(x, y, ch)`.
pub open spec fn raster<T>(w: int, h: int, c: int, f: spec_fn(int, int, int) -> T) -> Seq<T> {
    Seq::new((w * h * c) as nat, |i: int| f((i / c) % w, (i / c) / w, i % c))
}

/// Where channel `ch` of pixel `(x, y)` stands in a channel-interleaved buffer.
pub open spec fn sample_at(x: int, y: int, ch: int, w: int, c: int) -> int {
    at(ch, at(x, y, w), c)
}

/// Every position of a channel-interleaved buffer is that of one channel of one pixel.
pub proof fn lemma_sample_of(i: int, w: int, h: int, c: int)
    requires
        0 <= i < w * h * c,
        0 <= w,
        0 <= h,
        0 <= c,
    ensures
        0 < w,
        0 < h,
        0 < c,
        0 <= i % c < c,
        0 <= i / c < w * h,
        0 <= (i / c) % w < w,
        0 <= (i / c) / w < h,
        sample_at((i / c) % w, (i / c) / w, i % c, w, c) == i,
{
    assert(0 <= w * h) by (nonlinear_arith)
        requires
            0 <= w,
            0 <= h,
    ;
    assert(w * h * c == c * (w * h)) by (nonlinear_arith);
    lemma_at_of(i, c, w * h);
    lemma_at_of(i / c, w, h);
}

/// A channel of a pixel has its position inside the buffer, and the position determines it.
pub proof fn lemma_sample_at(x: int, y: int, ch: int, w: int, h: int, c: int)
    requires
        0 <= x < w,
        0 <= y < h,
        0 <= ch < c,
    ensures
        0 <= sample_at(x, y, ch, w, c) < w * h * c,
        sample_at(x, y, ch, w, c) % c == ch,
        (sample_at(x, y, ch, w, c) / c) % w == x,
        (sample_at(x, y, ch, w, c) / c) / w == y,
        0 <= at(x, y, w) < w * h,
{
    lemma_at_bounds(x, y, w, h);
    lemma_at_bounds(ch, at(x, y, w), c, w * h);
    assert(c * (w * h) == w * h * c) by (nonlinear_arith);
    lemma_at_inverse(ch, at(x, y, w), c);
    lemma_at_inverse(x, y, w);
}

/// The sample of a raster at a pixel and channel is the function's value there.
pub proof fn lemma_raster_sample<T>(
    w: int,
    h: int,
    c: int,
    f: spec_fn(int, int, int) -> T,
    x: int,
    y: int,
    ch: int,
)
    requires
        0 <= x < w,
        0 <= y < h,
        0 <= ch < c,
    ensures
        0 <= sample_at(x, y, ch, w, c) < raster(w, h, c, f).len(),
        raster(w, h, c, f)[sample_at(x, y, ch, w, c)] == f(x, y, ch),
{
    lemma_sample_at(x, y, ch, w, h, c);
}

/// A smaller grid with as many channels has no more samples.
pub proof fn lemma_fewer_samples(w1: int, h1: int, w2: int, h2: int, c: int)
    requires
        0 <= w1 <= w2,
        0 <= h1 <= h2,
        0 <= c,
    ensures
        0 <= w1 * h1 <= w2 * h2,
        0 <= w1 * h1 * c <= w2 * h2 * c,
{
    assert(0 <= w1 * h1 <= w2 * h2) by (nonlinear_arith)
        requires
            0 <= w1 <= w2,
            0 <= h1 <= h2,
    ;
    assert(0 <= w1 * h1 * c <= w2 * h2 * c) by (nonlinear_arith)
        requires
            0 <= w1 * h1 <= w2 * h2,
            0 <= c,
    ;
}

/// Compute where a channel of a pixel stands.
pub fn sample_position(x: usize, y: usize, ch: usize, w: usize, c: usize) -> (r: usize)
    requires
        sample_at(x as int, y as int, ch as int, w as int, c as int) <= usize::MAX,
        ch < c,
    ensures
        r == sample_at(x as int, y as int, ch as int, w as int, c as int),
{
    let ghost p = at(x as int, y as int, w as int);
    assert(0 <= y * w) by (nonlinear_arith)
        requires
            0 <= y,
            0 <= w,
    ;
    assert(p <= p * c) by (nonlinear_arith)
        requires
            0 <= p,
            1 <= c,
    ;
    position(ch, position(x, y, w), c)
}

/// The number of samples of a plane that a buffer is known to hold.
pub fn plane_len(w: usize, h: usize, c: usize) -> (r: usize)
    requires
        w * h * c <= usize::MAX,
        c == 0 ==> w * h <= usize::MAX,
    ensures
        r == w * h * c,
{
    assert(w * h <= usize::MAX && 0 <= w * h) by (nonlinear_arith)
        requires
            0 <= w,
            0 <= h,
            0 <= c,
            w * h * c <= usize::MAX,
            c == 0 ==> w * h <= usize::MAX,
    ;
    w * h * c
}

} // verus!
