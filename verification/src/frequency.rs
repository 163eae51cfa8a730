//! Multi-resolution planes: a separable Gaussian smoothing, the two-to-one reduction and its
//! expansion, and the splitting of a plane into frequency bands that add up to it again.
use crate::arithmetic::{
    exponential, fused, fused_of, lawful, minus, minus_of, narrow, narrow_of, over, over_of, plus,
    plus_of, times, whole, widen, widen_of, Arithmetic,
};
use crate::binary::{is_zero, negate, rank, ONE, TWO, ZERO};
use crate::gaussian_blur::{bell_of, kernel_radius, radius_of, spread_of};
use crate::ir::{child_extent, level_extent, smaller, Extent, PyramidPhase};
use crate::lattice::{
    lemma_fewer_samples, lemma_raster_sample, lemma_sample_at, lemma_sample_of, plane_len, raster,
    sample_at, sample_position,
};
use vstd::prelude::*;

verus! {

/// The standard deviation of the smoothing before a reduction, one by its binary64 pattern.
pub const DEFAULT_PYRAMID_SIGMA: u64 = 0x3ff0_0000_0000_0000;

/// The greatest radius whose tap count is within 32 bits.
pub const MAX_TAP_RADIUS: u32 = 0x7fff_ffff;

/// The radius of the smoothing kernel for a standard deviation: three of them rounded up and at
/// least one, or zero at and below the cutoff.
pub fn blur_radius<A: Arithmetic>(sigma: u64) -> (r: u32)
    requires
        lawful::<A>(),
    ensures
        r == radius_of::<A>(sigma),
{
    kernel_radius::<A>(sigma)
}

/// The taps of the kernel are within their limit.
pub open spec fn taps_fit<A: Arithmetic>(sigma: u64) -> bool {
    radius_of::<A>(sigma) <= MAX_TAP_RADIUS
}

/// Whether the taps of the kernel are within their limit.
pub fn countable<A: Arithmetic>(sigma: u64) -> (r: bool)
    requires
        lawful::<A>(),
    ensures
        r == taps_fit::<A>(sigma),
{
    blur_radius::<A>(sigma) <= MAX_TAP_RADIUS
}

/// The Gaussian at tap `t` of a line of taps with radius `r`.
pub open spec fn line_bell<A: Arithmetic>(sigma: u64, r: int, t: int) -> u64 {
    bell_of::<A>((t - r) * (t - r), spread_of::<A>(sigma))
}

/// The sum of the first `n` Gaussians of a line of taps.
pub open spec fn line_total<A: Arithmetic>(sigma: u64, r: int, n: nat) -> u64
    decreases n,
{
    if n == 0 {
        ZERO
    } else {
        plus_of::<A>(
            line_total::<A>(sigma, r, (n - 1) as nat),
            line_bell::<A>(sigma, r, n - 1),
        )
    }
}

/// The taps: every Gaussian over the sum of all, or a single one where the radius is zero.
pub open spec fn taps_of<A: Arithmetic>(sigma: u64) -> Seq<u64> {
    let r = radius_of::<A>(sigma);
    if r == 0 {
        seq![ONE]
    } else {
        Seq::new(
            (2 * r + 1) as nat,
            |t: int|
                over_of::<A>(
                    line_bell::<A>(sigma, r, t),
                    line_total::<A>(sigma, r, (2 * r + 1) as nat),
                ),
        )
    }
}

/// Sample the taps of a standard deviation; the second member is their radius.
pub fn gaussian_taps<A: Arithmetic>(sigma: u64) -> (out: (Vec<u64>, u32))
    requires
        lawful::<A>(),
        taps_fit::<A>(sigma),
    ensures
        out.0@ == taps_of::<A>(sigma),
        out.1 == radius_of::<A>(sigma),
{
    let r: u32 = blur_radius::<A>(sigma);
    if r == 0 {
        let taps: Vec<u64> = vec![ONE];
        return (taps, 0);
    }
    let ri: i64 = r as i64;
    let side: u32 = 2 * r + 1;
    let spread: u64 = times::<A>(times::<A>(TWO, sigma), sigma);
    let mut raw: Vec<u64> = Vec::new();
    let mut sum: u64 = ZERO;
    let mut t: u32 = 0;
    while t < side
        invariant
            lawful::<A>(),
            1 <= r <= MAX_TAP_RADIUS,
            ri == r,
            side == 2 * r + 1,
            spread == spread_of::<A>(sigma),
            t <= side,
            raw@.len() == t,
            forall|i: int| 0 <= i < t ==> #[trigger] raw@[i] == line_bell::<A>(sigma, r as int, i),
            sum == line_total::<A>(sigma, r as int, t as nat),
        decreases side - t,
    {
        let d: i64 = t as i64 - ri;
        assert(0 <= d * d <= 0x7fff_ffff * 0x7fff_ffff) by (nonlinear_arith)
            requires
                -0x7fff_ffff <= d <= 0x7fff_ffff,
        ;
        let n: i64 = d * d;
        let w: u64 = exponential::<A>(over::<A>(negate(whole::<A>(n)), spread));
        sum = plus::<A>(sum, w);
        raw.push(w);
        t = t + 1;
    }
    let mut taps: Vec<u64> = Vec::new();
    let mut i: usize = 0;
    while i < raw.len()
        invariant
            lawful::<A>(),
            i <= raw@.len(),
            raw@.len() == side,
            forall|j: int|
                0 <= j < side ==> #[trigger] raw@[j] == line_bell::<A>(sigma, r as int, j),
            sum == line_total::<A>(sigma, r as int, side as nat),
            taps@.len() == i,
            forall|j: int|
                0 <= j < i ==> #[trigger] taps@[j] == over_of::<A>(
                    line_bell::<A>(sigma, r as int, j),
                    sum,
                ),
        decreases raw@.len() - i,
    {
        taps.push(over::<A>(raw[i], sum));
        i = i + 1;
    }
    (taps, r)
}

/// A coordinate moved to the nearest index of an axis of length `n`.
#[verifier::allow_in_spec]
pub fn clamp_index(coord: i64, n: i64) -> i64
    requires
        0 < n,
    returns
        (if coord < 0 {
            0
        } else if coord >= n {
            (n - 1) as i64
        } else {
            coord
        }),
{
    if coord < 0 {
        0
    } else if coord >= n {
        n - 1
    } else {
        coord
    }
}

/// The index on an axis of length `n` that tap `k` of a kernel with radius `r` reads at `pos`.
pub open spec fn tap_index(pos: int, k: int, r: int, n: int) -> int {
    let coord = pos + k - r;
    if coord < 0 {
        0
    } else if coord >= n {
        n - 1
    } else {
        coord
    }
}

/// Where tap `k` reads for one sample of a pass along one axis.
pub open spec fn tap_source(
    w: int,
    h: int,
    c: int,
    r: int,
    horizontal: bool,
    x: int,
    y: int,
    ch: int,
    k: int,
) -> int {
    if horizontal {
        sample_at(tap_index(x, k, r, w), y, ch, w, c)
    } else {
        sample_at(x, tap_index(y, k, r, h), ch, w, c)
    }
}

/// The first `n` weighted taps of one sample, added up in order. Taps of weight zero are passed over.
pub open spec fn axis_sum<A: Arithmetic>(
    src: Seq<u32>,
    w: int,
    h: int,
    c: int,
    taps: Seq<u64>,
    r: int,
    horizontal: bool,
    x: int,
    y: int,
    ch: int,
    n: nat,
) -> u64
    decreases n,
{
    if n == 0 {
        ZERO
    } else {
        let before = axis_sum::<A>(src, w, h, c, taps, r, horizontal, x, y, ch, (n - 1) as nat);
        if rank(taps[n - 1]) == 0 {
            before
        } else {
            fused_of::<A>(
                taps[n - 1],
                widen_of::<A>(src[tap_source(w, h, c, r, horizontal, x, y, ch, n - 1)]),
                before,
            )
        }
    }
}

/// A plane smoothed along one axis.
pub open spec fn smoothed_axis<A: Arithmetic>(
    src: Seq<u32>,
    w: int,
    h: int,
    c: int,
    taps: Seq<u64>,
    r: int,
    horizontal: bool,
) -> Seq<u32> {
    raster(
        w,
        h,
        c,
        |x: int, y: int, ch: int|
            narrow_of::<A>(
                axis_sum::<A>(src, w, h, c, taps, r, horizontal, x, y, ch, taps.len()),
            ),
    )
}

/// Add up the weighted taps of one sample.
fn axis_sample<A: Arithmetic>(
    src: &Vec<u32>,
    w: usize,
    h: usize,
    c: usize,
    taps: &Vec<u64>,
    r: u32,
    horizontal: bool,
    x: usize,
    y: usize,
    ch: usize,
) -> (acc: u64)
    requires
        lawful::<A>(),
        src@.len() == w * h * c,
        w <= u32::MAX,
        h <= u32::MAX,
        taps@.len() <= u32::MAX,
        x < w,
        y < h,
        ch < c,
    ensures
        acc == axis_sum::<A>(
            src@,
            w as int,
            h as int,
            c as int,
            taps@,
            r as int,
            horizontal,
            x as int,
            y as int,
            ch as int,
            taps@.len(),
        ),
{
    let held: usize = src.len();
    let ri: i64 = r as i64;
    let axis: i64 = if horizontal {
        w as i64
    } else {
        h as i64
    };
    let pos: i64 = if horizontal {
        x as i64
    } else {
        y as i64
    };
    let mut acc: u64 = ZERO;
    let mut k: usize = 0;
    while k < taps.len()
        invariant
            lawful::<A>(),
            src@.len() == w * h * c,
            held == src@.len(),
            taps@.len() <= u32::MAX,
            x < w,
            y < h,
            ch < c,
            ri == r,
            0 < axis <= u32::MAX,
            axis == (if horizontal {
                w
            } else {
                h
            }),
            0 <= pos < axis,
            pos == (if horizontal {
                x
            } else {
                y
            }),
            k <= taps@.len(),
            acc == axis_sum::<A>(
                src@,
                w as int,
                h as int,
                c as int,
                taps@,
                r as int,
                horizontal,
                x as int,
                y as int,
                ch as int,
                k as nat,
            ),
        decreases taps@.len() - k,
    {
        let weight: u64 = taps[k];
        if !is_zero(weight) {
            let idx: usize = clamp_index(pos + (k as i64 - ri), axis) as usize;
            proof {
                if horizontal {
                    lemma_sample_at(idx as int, y as int, ch as int, w as int, h as int, c as int);
                } else {
                    lemma_sample_at(x as int, idx as int, ch as int, w as int, h as int, c as int);
                }
            }
            let source: usize = if horizontal {
                sample_position(idx, y, ch, w, c)
            } else {
                sample_position(x, idx, ch, w, c)
            };
            acc = fused::<A>(weight, widen::<A>(src[source]), acc);
        }
        k = k + 1;
    }
    acc
}

/// Smooth a plane along one axis. Reads past an edge take the edge's sample.
pub fn blur_axis<A: Arithmetic>(
    src: &Vec<u32>,
    w: usize,
    h: usize,
    c: usize,
    taps: &Vec<u64>,
    r: u32,
    horizontal: bool,
) -> (out: Vec<u32>)
    requires
        lawful::<A>(),
        src@.len() == w * h * c,
        w <= u32::MAX,
        h <= u32::MAX,
        taps@.len() <= u32::MAX,
    ensures
        out@ == smoothed_axis::<A>(
            src@,
            w as int,
            h as int,
            c as int,
            taps@,
            r as int,
            horizontal,
        ),
{
    let count: usize = src.len();
    let ghost all = smoothed_axis::<A>(
        src@,
        w as int,
        h as int,
        c as int,
        taps@,
        r as int,
        horizontal,
    );
    let mut out: Vec<u32> = Vec::new();
    let mut i: usize = 0;
    while i < count
        invariant
            lawful::<A>(),
            src@.len() == w * h * c,
            count == src@.len(),
            w <= u32::MAX,
            h <= u32::MAX,
            taps@.len() <= u32::MAX,
            all == smoothed_axis::<A>(
                src@,
                w as int,
                h as int,
                c as int,
                taps@,
                r as int,
                horizontal,
            ),
            all.len() == count,
            i <= count,
            out@ == all.take(i as int),
        decreases count - i,
    {
        proof {
            lemma_sample_of(i as int, w as int, h as int, c as int);
        }
        let ch: usize = i % c;
        let p: usize = i / c;
        let x: usize = p % w;
        let y: usize = p / w;
        let acc: u64 = axis_sample::<A>(src, w, h, c, taps, r, horizontal, x, y, ch);
        out.push(narrow::<A>(acc));
        i = i + 1;
    }
    out
}

/// A plane smoothed along its rows and then along its columns; the plane itself where the kernel's
/// radius is zero.
pub open spec fn smoothed<A: Arithmetic>(samples: Seq<u32>, extent: Extent, channels: u32, sigma: u64) -> Seq<
    u32,
> {
    let r = radius_of::<A>(sigma);
    if r == 0 {
        samples
    } else {
        let w = extent.width as int;
        let h = extent.height as int;
        let c = channels as int;
        let taps = taps_of::<A>(sigma);
        smoothed_axis::<A>(
            smoothed_axis::<A>(samples, w, h, c, taps, r, true),
            w,
            h,
            c,
            taps,
            r,
            false,
        )
    }
}

/// Smooth a plane with a Gaussian.
pub fn gaussian_blur_plane<A: Arithmetic>(
    samples: &Vec<u32>,
    extent: Extent,
    channels: u32,
    sigma: u64,
) -> (out: Vec<u32>)
    requires
        lawful::<A>(),
        taps_fit::<A>(sigma),
        samples@.len() == extent.area() * channels,
    ensures
        out@ == smoothed::<A>(samples@, extent, channels, sigma),
        out@.len() == samples@.len(),
{
    let (taps, r): (Vec<u64>, u32) = gaussian_taps::<A>(sigma);
    if r == 0 {
        return copied(samples);
    }
    let held: usize = samples.len();
    let w: usize = extent.width as usize;
    let h: usize = extent.height as usize;
    let c: usize = channels as usize;
    let rows: Vec<u32> = blur_axis::<A>(samples, w, h, c, &taps, r, true);
    blur_axis::<A>(&rows, w, h, c, &taps, r, false)
}

/// Copy a plane.
pub fn copied(samples: &Vec<u32>) -> (out: Vec<u32>)
    ensures
        out@ == samples@,
{
    let out: Vec<u32> = samples.clone();
    out
}

/// A plane smoothed and reduced two to one: every other sample of it, from the first.
pub open spec fn reduced<A: Arithmetic>(
    samples: Seq<u32>,
    parent: Extent,
    channels: u32,
    sigma: u64,
    phase: PyramidPhase,
) -> Seq<u32> {
    let child = child_extent(parent, phase);
    let source = smoothed::<A>(samples, parent, channels, sigma);
    raster(
        child.width as int,
        child.height as int,
        channels as int,
        |x: int, y: int, ch: int|
            source[sample_at(
                smaller(2 * x, parent.width - 1),
                smaller(2 * y, parent.height - 1),
                ch,
                parent.width as int,
                channels as int,
            )],
    )
}

/// A child's axes are no longer than its parent's, and have pixels where the parent's do.
pub proof fn lemma_child_extent(parent: Extent, phase: PyramidPhase)
    ensures
        child_extent(parent, phase).width <= parent.width,
        child_extent(parent, phase).height <= parent.height,
        parent.width > 0 ==> child_extent(parent, phase).width > 0,
        parent.height > 0 ==> child_extent(parent, phase).height > 0,
{
}

/// Smooth a plane and reduce it two to one.
pub fn downsample<A: Arithmetic>(
    samples: &Vec<u32>,
    parent: Extent,
    channels: u32,
    sigma: u64,
    phase: PyramidPhase,
) -> (out: Vec<u32>)
    requires
        lawful::<A>(),
        taps_fit::<A>(sigma),
        samples@.len() == parent.area() * channels,
    ensures
        out@ == reduced::<A>(samples@, parent, channels, sigma, phase),
        out@.len() == child_extent(parent, phase).area() * channels,
{
    let blurred: Vec<u32> = gaussian_blur_plane::<A>(samples, parent, channels, sigma);
    let held: usize = blurred.len();
    let child: Extent = child_extent(parent, phase);
    proof {
        lemma_child_extent(parent, phase);
        lemma_fewer_samples(
            child.width as int,
            child.height as int,
            parent.width as int,
            parent.height as int,
            channels as int,
        );
    }
    let out: Vec<u32> = resampled(&blurred, parent, child, channels, true);
    proof {
        let f = |x: int, y: int, ch: int|
            smoothed::<A>(samples@, parent, channels, sigma)[sample_at(
                smaller(2 * x, parent.width - 1),
                smaller(2 * y, parent.height - 1),
                ch,
                parent.width as int,
                channels as int,
            )];
        assert(out@ =~= raster(
            child.width as int,
            child.height as int,
            channels as int,
            f,
        ));
    }
    out
}

/// The index that resampling reads: twice or half of its own, and no further than the last.
pub open spec fn resampled_index(i: int, n: int, doubled: bool) -> int {
    smaller(
        if doubled {
            2 * i
        } else {
            i / 2
        },
        n - 1,
    )
}

/// Compute the index that resampling reads.
fn resample_index(i: usize, n: usize, doubled: bool) -> (r: usize)
    requires
        0 < n,
    ensures
        r == resampled_index(i as int, n as int, doubled),
        r < n,
{
    let last: usize = n - 1;
    if doubled {
        if i > last / 2 {
            last
        } else {
            2 * i
        }
    } else if i / 2 > last {
        last
    } else {
        i / 2
    }
}

/// Fill a plane from another whose indices are twice or half of its own.
fn resampled(samples: &Vec<u32>, from: Extent, to: Extent, channels: u32, doubled: bool) -> (out: Vec<
    u32,
>)
    requires
        samples@.len() == from.area() * channels,
        to.area() * channels <= usize::MAX,
        to.width > 0 && to.height > 0 && channels > 0 ==> from.width > 0 && from.height > 0,
    ensures
        out@ == raster(
            to.width as int,
            to.height as int,
            channels as int,
            |x: int, y: int, ch: int|
                samples@[sample_at(
                    resampled_index(x, from.width as int, doubled),
                    resampled_index(y, from.height as int, doubled),
                    ch,
                    from.width as int,
                    channels as int,
                )],
        ),
{
    if channels == 0 {
        let none: Vec<u32> = Vec::new();
        assert(none@ =~= raster(
            to.width as int,
            to.height as int,
            channels as int,
            |x: int, y: int, ch: int|
                samples@[sample_at(
                    resampled_index(x, from.width as int, doubled),
                    resampled_index(y, from.height as int, doubled),
                    ch,
                    from.width as int,
                    channels as int,
                )],
        ));
        return none;
    }
    let held: usize = samples.len();
    let w: usize = to.width as usize;
    let h: usize = to.height as usize;
    let fw: usize = from.width as usize;
    let fh: usize = from.height as usize;
    let c: usize = channels as usize;
    let count: usize = plane_len(w, h, c);
    let ghost all = raster(
        w as int,
        h as int,
        c as int,
        |x: int, y: int, ch: int|
            samples@[sample_at(
                resampled_index(x, from.width as int, doubled),
                resampled_index(y, from.height as int, doubled),
                ch,
                from.width as int,
                channels as int,
            )],
    );
    let mut out: Vec<u32> = Vec::new();
    let mut i: usize = 0;
    while i < count
        invariant
            samples@.len() == fw * fh * c,
            held == samples@.len(),
            w == to.width,
            h == to.height,
            c == channels,
            c > 0,
            fw == from.width,
            fh == from.height,
            w > 0 && h > 0 ==> fw > 0 && fh > 0,
            count == w * h * c,
            all == raster(
                w as int,
                h as int,
                c as int,
                |x: int, y: int, ch: int|
                    samples@[sample_at(
                        resampled_index(x, from.width as int, doubled),
                        resampled_index(y, from.height as int, doubled),
                        ch,
                        from.width as int,
                        channels as int,
                    )],
            ),
            all.len() == count,
            i <= count,
            out@ == all.take(i as int),
        decreases count - i,
    {
        proof {
            lemma_sample_of(i as int, w as int, h as int, c as int);
        }
        let ch: usize = i % c;
        let p: usize = i / c;
        let sx: usize = resample_index(p % w, fw, doubled);
        let sy: usize = resample_index(p / w, fh, doubled);
        proof {
            lemma_sample_at(sx as int, sy as int, ch as int, fw as int, fh as int, c as int);
        }
        let source: usize = sample_position(sx, sy, ch, fw, c);
        out.push(samples[source]);
        i = i + 1;
    }
    out
}

/// A plane expanded to its parent's size: every parent pixel reads the child pixel it was reduced to.
pub open spec fn expanded(samples: Seq<u32>, child: Extent, parent: Extent, channels: u32) -> Seq<u32> {
    raster(
        parent.width as int,
        parent.height as int,
        channels as int,
        |x: int, y: int, ch: int|
            samples[sample_at(
                smaller(x / 2, child.width - 1),
                smaller(y / 2, child.height - 1),
                ch,
                child.width as int,
                channels as int,
            )],
    )
}

/// A plane with pixels can be filled from the other.
pub open spec fn fillable(child: Extent, parent: Extent, channels: u32) -> bool {
    parent.width > 0 && parent.height > 0 && channels > 0 ==> child.width > 0 && child.height > 0
}

/// Expand a plane to its parent's size.
pub fn upsample(samples: &Vec<u32>, child: Extent, parent: Extent, channels: u32) -> (out: Vec<u32>)
    requires
        samples@.len() == child.area() * channels,
        parent.area() * channels <= usize::MAX,
        fillable(child, parent, channels),
    ensures
        out@ == expanded(samples@, child, parent, channels),
        out@.len() == parent.area() * channels,
{
    let out: Vec<u32> = resampled(samples, child, parent, channels, false);
    assert(0 <= parent.area() * channels) by (nonlinear_arith)
        requires
            parent.area() == parent.width * parent.height,
            parent.width >= 0,
            parent.height >= 0,
            channels >= 0,
    ;
    out
}

/// The sizes of the levels of a pyramid, finest first.
pub fn level_extents(base: Extent, levels: u32, phase: PyramidPhase) -> (extents: Vec<Extent>)
    ensures
        extents@ == Seq::new(levels as nat, |l: int| level_extent(base, phase, l as nat)),
{
    let mut extents: Vec<Extent> = Vec::new();
    let mut extent: Extent = base;
    let mut l: u32 = 0;
    while l < levels
        invariant
            l <= levels,
            extent == level_extent(base, phase, l as nat),
            extents@ == Seq::new(l as nat, |i: int| level_extent(base, phase, i as nat)),
        decreases levels - l,
    {
        extents.push(extent);
        extent = child_extent(extent, phase);
        l = l + 1;
    }
    extents
}

/// The difference of two samples, taken wide.
pub open spec fn sample_gap<A: Arithmetic>(a: u32, b: u32) -> u32 {
    narrow_of::<A>(minus_of::<A>(widen_of::<A>(a), widen_of::<A>(b)))
}

/// The sum of two samples, taken wide.
pub open spec fn sample_join<A: Arithmetic>(a: u32, b: u32) -> u32 {
    narrow_of::<A>(plus_of::<A>(widen_of::<A>(a), widen_of::<A>(b)))
}

/// The length of the shorter of two planes.
pub open spec fn shared_len(a: Seq<u32>, b: Seq<u32>) -> nat {
    smaller(a.len() as int, b.len() as int) as nat
}

/// The differences of two planes, sample by sample.
pub open spec fn gaps<A: Arithmetic>(a: Seq<u32>, b: Seq<u32>) -> Seq<u32> {
    Seq::new(shared_len(a, b), |i: int| sample_gap::<A>(a[i], b[i]))
}

/// The sums of two planes, sample by sample.
pub open spec fn joins<A: Arithmetic>(a: Seq<u32>, b: Seq<u32>) -> Seq<u32> {
    Seq::new(shared_len(a, b), |i: int| sample_join::<A>(a[i], b[i]))
}

/// Subtract a plane from another.
pub fn subtract_planes<A: Arithmetic>(a: &Vec<u32>, b: &Vec<u32>) -> (out: Vec<u32>)
    requires
        lawful::<A>(),
    ensures
        out@ == gaps::<A>(a@, b@),
{
    let mut out: Vec<u32> = Vec::new();
    let mut i: usize = 0;
    while i < a.len() && i < b.len()
        invariant
            lawful::<A>(),
            i <= a@.len(),
            i <= b@.len(),
            out@.len() == i,
            forall|j: int| 0 <= j < i ==> #[trigger] out@[j] == sample_gap::<A>(a@[j], b@[j]),
        decreases a@.len() - i,
    {
        out.push(narrow::<A>(minus::<A>(widen::<A>(a[i]), widen::<A>(b[i]))));
        i = i + 1;
    }
    out
}

/// Add a plane to another.
pub fn add_planes<A: Arithmetic>(a: &Vec<u32>, b: &Vec<u32>) -> (out: Vec<u32>)
    requires
        lawful::<A>(),
    ensures
        out@ == joins::<A>(a@, b@),
{
    let mut out: Vec<u32> = Vec::new();
    let mut i: usize = 0;
    while i < a.len() && i < b.len()
        invariant
            lawful::<A>(),
            i <= a@.len(),
            i <= b@.len(),
            out@.len() == i,
            forall|j: int| 0 <= j < i ==> #[trigger] out@[j] == sample_join::<A>(a@[j], b@[j]),
        decreases a@.len() - i,
    {
        out.push(narrow::<A>(plus::<A>(widen::<A>(a[i]), widen::<A>(b[i]))));
        i = i + 1;
    }
    out
}

/// Planes, one per size, each with as many samples as its size says.
pub open spec fn planes_filled(planes: Seq<Vec<u32>>, extents: Seq<Extent>, channels: u32) -> bool {
    &&& planes.len() >= extents.len()
    &&& forall|l: int|
        0 <= l < extents.len() ==> (#[trigger] planes[l])@.len() == extents[l].area() * channels
    &&& forall|l: int|
        0 <= l < extents.len() - 1 ==> fillable(extents[l + 1], #[trigger] extents[l], channels)
}

/// The contents of planes.
pub open spec fn contents(planes: Seq<Vec<u32>>) -> Seq<Seq<u32>> {
    Seq::new(planes.len(), |l: int| planes[l]@)
}

/// The band of level `l`: what the level has over its coarser neighbour expanded; the level itself
/// where it is the coarsest.
pub open spec fn band_of<A: Arithmetic>(
    levels: Seq<Seq<u32>>,
    extents: Seq<Extent>,
    channels: u32,
    l: int,
) -> Seq<u32> {
    if l + 1 < extents.len() {
        gaps::<A>(levels[l], expanded(levels[l + 1], extents[l + 1], extents[l], channels))
    } else {
        levels[l]
    }
}

/// The first `n` bands, one after the other.
pub open spec fn bands_of<A: Arithmetic>(
    levels: Seq<Seq<u32>>,
    extents: Seq<Extent>,
    channels: u32,
    n: nat,
) -> Seq<u32>
    decreases n,
{
    if n == 0 {
        Seq::empty()
    } else {
        bands_of::<A>(levels, extents, channels, (n - 1) as nat) + band_of::<A>(
            levels,
            extents,
            channels,
            n - 1,
        )
    }
}

/// Split a pyramid's levels, finest first, into bands, one after the other.
pub fn laplacian_split<A: Arithmetic>(gaussian_levels: &Vec<Vec<u32>>, extents: &Vec<Extent>, channels: u32) -> (out: Vec<
    u32,
>)
    requires
        lawful::<A>(),
        planes_filled(gaussian_levels@, extents@, channels),
    ensures
        out@ == bands_of::<A>(contents(gaussian_levels@), extents@, channels, extents@.len()),
{
    let ghost held = contents(gaussian_levels@);
    let levels: usize = extents.len();
    let mut out: Vec<u32> = Vec::new();
    let mut l: usize = 0;
    while l < levels
        invariant
            lawful::<A>(),
            planes_filled(gaussian_levels@, extents@, channels),
            held == contents(gaussian_levels@),
            levels == extents@.len(),
            l <= levels,
            out@ == bands_of::<A>(held, extents@, channels, l as nat),
        decreases levels - l,
    {
        let ghost before = out@;
        assert(gaussian_levels@[l as int]@.len() == extents@[l as int].area() * channels);
        let mut band: Vec<u32> = if l + 1 < levels {
            assert(gaussian_levels@[l + 1]@.len() == extents@[l + 1].area() * channels);
            assert(fillable(extents@[l + 1], extents@[l as int], channels));
            let size: usize = gaussian_levels[l].len();
            let up: Vec<u32> = upsample(
                &gaussian_levels[l + 1],
                extents[l + 1],
                extents[l],
                channels,
            );
            subtract_planes::<A>(&gaussian_levels[l], &up)
        } else {
            copied(&gaussian_levels[l])
        };
        let ghost added = band@;
        assert(added == band_of::<A>(held, extents@, channels, l as int));
        out.append(&mut band);
        assert(out@ =~= before + added);
        l = l + 1;
    }
    out
}

/// The plane rebuilt at level `l` from bands: the band plus the coarser rebuilt plane expanded.
pub open spec fn rebuilt<A: Arithmetic>(
    bands: Seq<Seq<u32>>,
    extents: Seq<Extent>,
    channels: u32,
    l: int,
) -> Seq<u32>
    decreases extents.len() - l,
{
    if 0 <= l && l + 1 < extents.len() {
        joins::<A>(
            bands[l],
            expanded(
                rebuilt::<A>(bands, extents, channels, l + 1),
                extents[l + 1],
                extents[l],
                channels,
            ),
        )
    } else {
        bands[l]
    }
}

/// Rebuild the finest plane from bands, finest first.
pub fn laplacian_recombine<A: Arithmetic>(bands: &Vec<Vec<u32>>, extents: &Vec<Extent>, channels: u32) -> (recon: Vec<
    u32,
>)
    requires
        lawful::<A>(),
        extents@.len() >= 1,
        planes_filled(bands@, extents@, channels),
    ensures
        recon@ == rebuilt::<A>(contents(bands@), extents@, channels, 0),
        recon@.len() == extents@[0].area() * channels,
{
    let ghost held = contents(bands@);
    let levels: usize = extents.len();
    let mut recon: Vec<u32> = copied(&bands[levels - 1]);
    let mut l: usize = levels - 1;
    assert(bands@[l as int]@.len() == extents@[l as int].area() * channels);
    while l > 0
        invariant
            lawful::<A>(),
            planes_filled(bands@, extents@, channels),
            held == contents(bands@),
            levels == extents@.len(),
            l < levels,
            recon@ == rebuilt::<A>(held, extents@, channels, l as int),
            recon@.len() == extents@[l as int].area() * channels,
        decreases l,
    {
        let finer: usize = l - 1;
        assert(bands@[finer as int]@.len() == extents@[finer as int].area() * channels);
        assert(fillable(extents@[finer + 1], extents@[finer as int], channels));
        let size: usize = bands[finer].len();
        let up: Vec<u32> = upsample(&recon, extents[l], extents[finer], channels);
        recon = add_planes::<A>(&bands[finer], &up);
        l = finer;
    }
    recon
}

/// Adding back a difference gives the sample again.
pub open spec fn restores<A: Arithmetic>(a: u32, b: u32) -> bool {
    sample_join::<A>(sample_gap::<A>(a, b), b) == a
}

/// Rebuilding from the bands of a split gives every level of the pyramid back, where adding back
/// each difference gives its sample back.
pub proof fn law_recombine_inverts_split<A: Arithmetic>(
    levels: Seq<Seq<u32>>,
    extents: Seq<Extent>,
    channels: u32,
    l: int,
)
    requires
        0 <= l < extents.len(),
        levels.len() == extents.len(),
        forall|k: int|
            0 <= k < extents.len() ==> (#[trigger] levels[k]).len() == extents[k].area() * channels,
        forall|k: int, i: int|
            0 <= k < extents.len() - 1 && 0 <= i < levels[k].len() ==> #[trigger] restores::<A>(
                levels[k][i],
                expanded(levels[k + 1], extents[k + 1], extents[k], channels)[i],
            ),
    ensures
        rebuilt::<A>(
            Seq::new(extents.len(), |k: int| band_of::<A>(levels, extents, channels, k)),
            extents,
            channels,
            l,
        ) == levels[l],
    decreases extents.len() - l,
{
    let bands = Seq::new(extents.len(), |k: int| band_of::<A>(levels, extents, channels, k));
    if l + 1 < extents.len() {
        law_recombine_inverts_split::<A>(levels, extents, channels, l + 1);
        let up = expanded(levels[l + 1], extents[l + 1], extents[l], channels);
        assert(levels[l].len() == extents[l].area() * channels);
        assert(up.len() == levels[l].len());
        let rebuilt_level = joins::<A>(bands[l], up);
        assert forall|i: int| 0 <= i < levels[l].len() implies #[trigger] rebuilt_level[i]
            == levels[l][i] by {
            assert(restores::<A>(levels[l][i], up[i]));
        }
        assert(rebuilt_level =~= levels[l]);
    }
}

/// The number of samples in the first `n` planes.
pub open spec fn planes_len(extents: Seq<Extent>, channels: u32, n: nat) -> int
    decreases n,
{
    if n == 0 {
        0
    } else {
        planes_len(extents, channels, (n - 1) as nat) + extents[n - 1].area() * channels
    }
}

/// The bands of a split follow each other, each with as many samples as its level: cut out at their
/// places they are the bands again.
pub proof fn law_bands_are_slices<A: Arithmetic>(
    levels: Seq<Seq<u32>>,
    extents: Seq<Extent>,
    channels: u32,
    n: nat,
    l: int,
)
    requires
        0 <= l < n <= extents.len(),
        levels.len() == extents.len(),
        forall|k: int|
            0 <= k < extents.len() ==> (#[trigger] levels[k]).len() == extents[k].area() * channels,
    ensures
        0 <= planes_len(extents, channels, l as nat) <= planes_len(extents, channels, (l + 1) as nat)
            <= planes_len(extents, channels, n),
        bands_of::<A>(levels, extents, channels, n).len() == planes_len(extents, channels, n),
        bands_of::<A>(levels, extents, channels, n).subrange(
            planes_len(extents, channels, l as nat),
            planes_len(extents, channels, (l + 1) as nat),
        ) == band_of::<A>(levels, extents, channels, l),
    decreases n,
{
    let prior = (n - 1) as nat;
    let before = bands_of::<A>(levels, extents, channels, prior);
    let last = band_of::<A>(levels, extents, channels, n - 1);
    assert(levels[n - 1].len() == extents[n - 1].area() * channels);
    assert(last.len() == extents[n - 1].area() * channels);
    if n == 1 {
        assert(before =~= Seq::empty());
        assert((before + last).subrange(0, last.len() as int) =~= last);
    } else {
        law_bands_are_slices::<A>(
            levels,
            extents,
            channels,
            prior,
            if l < n - 1 {
                l
            } else {
                n - 2
            },
        );
        let lo = planes_len(extents, channels, l as nat);
        let hi = planes_len(extents, channels, (l + 1) as nat);
        if l < n - 1 {
            assert((before + last).subrange(lo, hi) =~= before.subrange(lo, hi));
        } else {
            assert((before + last).subrange(lo, hi) =~= last);
        }
    }
}

/// Expanding undoes the thinning of a reduction: the parent pixel that a child pixel was taken from
/// reads that child pixel.
pub proof fn law_expansion_inverts_thinning(
    samples: Seq<u32>,
    parent: Extent,
    phase: PyramidPhase,
    channels: u32,
    x: int,
    y: int,
    ch: int,
)
    requires
        0 <= x < child_extent(parent, phase).width,
        0 <= y < child_extent(parent, phase).height,
        0 <= ch < channels,
    ensures
        2 * x < parent.width,
        2 * y < parent.height,
        expanded(samples, child_extent(parent, phase), parent, channels)[sample_at(
            2 * x,
            2 * y,
            ch,
            parent.width as int,
            channels as int,
        )] == samples[sample_at(
            x,
            y,
            ch,
            child_extent(parent, phase).width as int,
            channels as int,
        )],
{
    let child = child_extent(parent, phase);
    let f = |x: int, y: int, ch: int|
        samples[sample_at(
            smaller(x / 2, child.width - 1),
            smaller(y / 2, child.height - 1),
            ch,
            child.width as int,
            channels as int,
        )];
    lemma_raster_sample(
        parent.width as int,
        parent.height as int,
        channels as int,
        f,
        2 * x,
        2 * y,
        ch,
    );
    assert(expanded(samples, child, parent, channels) =~= raster(
        parent.width as int,
        parent.height as int,
        channels as int,
        f,
    ));
}

} // verus!
