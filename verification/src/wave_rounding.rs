//! What a transform is made of, up to rounding: its factors lie on the unit circle at the angles of the bins,
//! its bins are stored as pairs in the order of pixels and channels, and a bin's frequency is its index, folded
//! about zero, over the axis.
use crate::arithmetic::{
    cosine_of, narrow_of, over_of, sine_of, tally_of, times_of, whole_of, widen_of, Arithmetic,
};
use crate::binary::{finite, negated, sample_finite, ONE, TWO};
use crate::dft::{
    axis_frequency, complex_plane, factor_of, forward_of, full_turn, inverse_of, plane_of, radial_of,
    real_plane, scale_of, stage_root, turned, Complex, FORWARD, INVERSE, PI,
};
use crate::fourier_rounding::{
    cells_of, circles, factors_near, law_plane_is_near, line_within, plane_bin, plane_error, plane_fits,
    plane_reach, row_bin,
};
use crate::lattice::{at, lemma_at_bounds, lemma_at_inverse, lemma_sample_at, sample_at};
use crate::planar::{psum, Point};
use crate::rounding::{
    counts_read, lemma_count_reads, lemma_fused_rounds, lemma_length_rounds, lemma_narrow_rounds,
    lemma_over_rounds, lemma_product_cancel, lemma_product_order, lemma_product_sum, lemma_product_units,
    lemma_size_product, lemma_times_rounds, lemma_zero_reads, lengths_round, obeys, product, quotients_round,
    signs_read, size, Reading,
};
use vstd::prelude::*;

verus! {

/// The functions are a cosine and a sine: their squares add up to one, angles add up as they should, and the
/// sine of a small angle is little less than the angle.
#[verifier::opaque]
pub open spec fn are_circular(cosine: spec_fn(real) -> real, sine: spec_fn(real) -> real) -> bool {
    &&& forall|a: real| product(#[trigger] cosine(a), cosine(a)) + product(sine(a), sine(a)) == 1real
    &&& forall|a: real, b: real|
        #[trigger] product(cosine(a), cosine(b)) - product(sine(a), sine(b)) == cosine(a + b)
    &&& forall|a: real, b: real|
        #[trigger] product(sine(a), cosine(b)) + product(cosine(a), sine(b)) == sine(a + b)
    &&& forall|a: real| 0real <= a <= 1real ==> a - product(a, product(a, a)) <= #[trigger] sine(a) <= a
}

/// The arithmetic takes cosines and sines to within a step.
#[verifier::opaque]
pub open spec fn angles_round<A: Arithmetic>(
    r: Reading,
    cosine: spec_fn(real) -> real,
    sine: spec_fn(real) -> real,
) -> bool {
    &&& are_circular(cosine, sine)
    &&& forall|a: u64|
        finite(a) && size((r.wide)(a)) <= r.top ==> finite(#[trigger] cosine_of::<A>(a)) && size(
            (r.wide)(cosine_of::<A>(a)) - cosine((r.wide)(a)),
        ) <= r.step
    &&& forall|a: u64|
        finite(a) && size((r.wide)(a)) <= r.top ==> finite(#[trigger] sine_of::<A>(a)) && size(
            (r.wide)(sine_of::<A>(a)) - sine((r.wide)(a)),
        ) <= r.step
}

/// What the circle constant's pattern stands for.
pub open spec fn half_turn(r: Reading) -> real {
    (r.wide)(0x4009_21fb_5444_2d18u64)
}

/// The sense in which a transform turns: backwards where it is forward.
pub open spec fn sense(forward: bool) -> real {
    if forward {
        -1real
    } else {
        1real
    }
}

/// The direction's pattern.
pub open spec fn direction(forward: bool) -> u64 {
    if forward {
        FORWARD
    } else {
        INVERSE
    }
}

/// How far a computed full turn can be from a full turn.
pub open spec fn turn_error(r: Reading) -> real {
    product(r.step, half_turn(r)) + r.step
}

/// The circle constant is moderate, and its reading not far from what it should be.
pub open spec fn circle_read(r: Reading) -> bool {
    &&& finite(0x4009_21fb_5444_2d18u64)
    &&& 3real <= half_turn(r) <= 4real
    &&& r.step <= 1real
    &&& 20real <= r.top
}

/// A full turn is near.
proof fn lemma_full_turn<A: Arithmetic>(r: Reading, forward: bool)
    requires
        obeys::<A>(r),
        circle_read(r),
    ensures
        finite(full_turn::<A>(direction(forward))),
        size(
            (r.wide)(full_turn::<A>(direction(forward))) - 2real * product(sense(forward), half_turn(r)),
        ) <= turn_error(r),
        size(2real * product(sense(forward), half_turn(r))) <= 8real,
        0real <= turn_error(r) <= 5real,
{
    let dir = direction(forward);
    let d = sense(forward);
    let p = half_turn(r);
    assert(finite(dir) && (r.wide)(dir) == d) by {
        reveal(signs_read);
        assert(negated(ONE) == FORWARD) by {
            lemma_minus_one();
        }
    }
    assert(finite(TWO) && (r.wide)(TWO) == 2real) by {
        reveal(signs_read);
    }
    lemma_product_units(1real, 2real);
    lemma_product_units(d, 2real);
    let twice = times_of::<A>(dir, TWO);
    lemma_times_rounds::<A>(r, dir, TWO);
    let t = (r.wide)(twice);
    assert(size(t - 2real * d) <= r.step);
    lemma_product_sum(t, 2real * d, p);
    lemma_product_sum(d, d, p);
    assert(d + d == 2real * d);
    lemma_size_product(t - 2real * d, p);
    lemma_product_order(p, size(t - 2real * d), r.step);
    lemma_product_units(d, p);
    lemma_product_units(1real, p);
    lemma_size_product(r.step, p);
    lemma_product_order(p, r.step, 1real);
    lemma_times_rounds::<A>(r, twice, PI);
}

/// The pattern of minus one.
proof fn lemma_minus_one()
    ensures
        negated(ONE) == FORWARD,
{
}

/// A factor of a transform is, up to a step, the point of the unit circle at an angle that times the length
/// is the bin times the place times a full turn, in the direction's sense: backwards in the forward transform.
pub proof fn law_factor_is_nearly_a_turn<A: Arithmetic>(
    r: Reading,
    cosine: spec_fn(real) -> real,
    sine: spec_fn(real) -> real,
    forward: bool,
    n: int,
    k: int,
    m: int,
    most: int,
) -> (angle: real)
    requires
        obeys::<A>(r),
        quotients_round::<A>(r),
        counts_read::<A>(r, most),
        angles_round::<A>(r, cosine, sine),
        circle_read(r),
        1 <= n <= most,
        0 <= k * m <= most,
        13real * ((k * m) as real) + 2real <= r.top,
    ensures
        ({
            let z = factor_of::<A>(direction(forward), n, k, m);
            let exact = 2real * product(product(sense(forward), half_turn(r)), (k * m) as real);
            &&& size(product(angle, n as real) - exact) <= product(r.step, n as real) + r.step + product(
                turn_error(r),
                (k * m) as real,
            )
            &&& finite(z.re) && finite(z.im)
            &&& size((r.wide)(z.re) - cosine(angle)) <= r.step
            &&& size((r.wide)(z.im) - sine(angle)) <= r.step
        }),
{
    lemma_turn_share::<A>(r, cosine, sine, forward, n, k * m, most)
}

/// The point of the unit circle at a share of a count of full turns is near.
proof fn lemma_turn_share<A: Arithmetic>(
    r: Reading,
    cosine: spec_fn(real) -> real,
    sine: spec_fn(real) -> real,
    forward: bool,
    n: int,
    count: int,
    most: int,
) -> (angle: real)
    requires
        obeys::<A>(r),
        quotients_round::<A>(r),
        counts_read::<A>(r, most),
        angles_round::<A>(r, cosine, sine),
        circle_read(r),
        1 <= n <= most,
        0 <= count <= most,
        13real * (count as real) + 2real <= r.top,
    ensures
        ({
            let z = turned::<A>(
                over_of::<A>(
                    times_of::<A>(full_turn::<A>(direction(forward)), tally_of::<A>(count as u64)),
                    tally_of::<A>(n as u64),
                ),
            );
            let exact = 2real * product(product(sense(forward), half_turn(r)), count as real);
            &&& size(product(angle, n as real) - exact) <= product(r.step, n as real) + r.step + product(
                turn_error(r),
                count as real,
            )
            &&& finite(z.re) && finite(z.im)
            &&& size((r.wide)(z.re) - cosine(angle)) <= r.step
            &&& size((r.wide)(z.im) - sine(angle)) <= r.step
        }),
{
    let full = full_turn::<A>(direction(forward));
    let whole = 2real * product(sense(forward), half_turn(r));
    let c = count as real;
    let f = (r.wide)(full);
    lemma_full_turn::<A>(r, forward);
    lemma_count_reads::<A>(r, most, count);
    lemma_count_reads::<A>(r, most, n);
    let amount = times_of::<A>(full, tally_of::<A>(count as u64));
    lemma_product_sum(f, whole, c);
    assert(0real <= c);
    lemma_size_product(f - whole, c);
    lemma_product_order(c, size(f - whole), turn_error(r));
    lemma_size_product(f, c);
    assert(size(f) <= 13real);
    lemma_product_order(c, size(f), 13real);
    lemma_thirteen(c);
    assert(size(product(f, c)) <= 13real * c);
    lemma_times_rounds::<A>(r, full, tally_of::<A>(count as u64));
    let nn = n as real;
    assert(1real <= nn);
    lemma_product_order(r.top, 1real, nn);
    lemma_product_units(r.top, 1real);
    lemma_over_rounds::<A>(r, amount, tally_of::<A>(n as u64));
    let angle_bits = over_of::<A>(amount, tally_of::<A>(n as u64));
    let angle = (r.wide)(angle_bits);
    let h = product(sense(forward), half_turn(r));
    lemma_product_sum(h, h, c);
    assert(h + h == whole);
    assert(product(whole, c) == 2real * product(h, c));
    lemma_angle_size(angle, nn, (r.wide)(amount), r.step, r.top);
    reveal(angles_round);
    assert(finite(cosine_of::<A>(angle_bits)) && finite(sine_of::<A>(angle_bits)));
    angle
}

/// Thirteen as a factor.
proof fn lemma_thirteen(c: real)
    ensures
        product(c, 13real) == 13real * c,
        product(13real, c) == 13real * c,
{
    reveal(product);
}

/// A quotient by one or more is no larger than the dividend, with a step.
proof fn lemma_angle_size(q: real, n: real, a: real, st: real, top: real)
    requires
        1real <= n,
        0real <= st,
        size(product(q, n) - a) <= product(st, n),
        size(a) + 1real <= top,
        st <= 1real,
    ensures
        size(q) <= top,
{
    if st <= size(q) {
        lemma_size_product(q, n);
        lemma_product_sum(size(q), st, n);
        lemma_product_order(size(q) - st, 1real, n);
        lemma_product_units(size(q) - st, 1real);
    }
}

/// The root that steps through a block is, up to a step, the point of the unit circle at an angle that times
/// the block's length is a full turn, in the direction's sense.
pub proof fn law_root_is_nearly_a_turn<A: Arithmetic>(
    r: Reading,
    cosine: spec_fn(real) -> real,
    sine: spec_fn(real) -> real,
    forward: bool,
    len: int,
    most: int,
) -> (angle: real)
    requires
        obeys::<A>(r),
        quotients_round::<A>(r),
        counts_read::<A>(r, most),
        angles_round::<A>(r, cosine, sine),
        circle_read(r),
        1 <= len <= most,
    ensures
        ({
            let z = stage_root::<A>(direction(forward), len);
            &&& size(product(angle, len as real) - 2real * product(sense(forward), half_turn(r))) <= product(
                r.step,
                len as real,
            ) + turn_error(r)
            &&& finite(z.re) && finite(z.im)
            &&& size((r.wide)(z.re) - cosine(angle)) <= r.step
            &&& size((r.wide)(z.im) - sine(angle)) <= r.step
        }),
{
    let full = full_turn::<A>(direction(forward));
    lemma_full_turn::<A>(r, forward);
    lemma_count_reads::<A>(r, most, len);
    let nn = len as real;
    assert(1real <= nn);
    lemma_product_order(r.top, 1real, nn);
    lemma_product_units(r.top, 1real);
    lemma_over_rounds::<A>(r, full, tally_of::<A>(len as u64));
    let angle_bits = over_of::<A>(full, tally_of::<A>(len as u64));
    let angle = (r.wide)(angle_bits);
    lemma_angle_size(angle, nn, (r.wide)(full), r.step, r.top);
    reveal(angles_round);
    assert(finite(cosine_of::<A>(angle_bits)) && finite(sine_of::<A>(angle_bits)));
    angle
}

/// The spectrum holds, for every bin and channel, the real and then the imaginary part of the channel's
/// transform there, up to rounding: pairs follow each other channel by channel, bins row by row.
pub proof fn law_spectrum_is_nearly_the_transform<A: Arithmetic>(
    r: Reading,
    samples: Seq<u32>,
    w: nat,
    h: nat,
    channels: int,
    turn: spec_fn(int, int) -> Point,
    reach: real,
    slack: real,
    kx: int,
    ky: int,
    c: int,
)
    requires
        obeys::<A>(r),
        circles(turn),
        factors_near::<A>(r, FORWARD, turn, w, slack),
        factors_near::<A>(r, FORWARD, turn, h, slack),
        0real <= reach,
        0real <= slack,
        line_within(r, real_plane::<A>(samples, (w * h) as int, channels, c), reach),
        plane_fits(r, w, h, reach, slack),
        plane_reach(r, w, h, reach, slack) <= r.top,
        0 <= kx < w,
        0 <= ky < h,
        0 <= c < channels,
    ensures
        ({
            let out = forward_of::<A>(samples, w as int, h as int, channels);
            let place = 2 * ((ky * w + kx) * channels + c);
            let exact = plane_bin(
                |x: int, y: int|
                    Point { re: (r.wide)(widen_of::<A>(samples[(y * w + x) * channels + c])), im: 0real },
                turn,
                w,
                h,
                kx,
                ky,
            );
            &&& 0 <= place && place + 1 < out.len()
            &&& sample_finite(out[place]) && sample_finite(out[place + 1])
            &&& size((r.small)(out[place]) - exact.re) <= plane_error(r, w, h, reach, slack) + r.store
            &&& size((r.small)(out[place + 1]) - exact.im) <= plane_error(r, w, h, reach, slack) + r.store
        }),
{
    let wi = w as int;
    let hi = h as int;
    let data = real_plane::<A>(samples, wi * hi, channels, c);
    let cells = |x: int, y: int|
        Point { re: (r.wide)(widen_of::<A>(samples[(y * w + x) * channels + c])), im: 0real };
    lemma_sample_at(kx, ky, c, wi, hi, channels);
    let i = sample_at(kx, ky, c, wi, channels);
    let p = at(kx, ky, wi);
    assert(i == (ky * w + kx) * channels + c);
    assert(i / channels == p) by {
        lemma_at_inverse(c, p, channels);
    }
    law_plane_is_near::<A>(r, data, w, h, FORWARD, turn, reach, slack, kx, ky);
    assert forall|x: int, y: int| 0 <= x < w && 0 <= y < h implies #[trigger] cells_of(r, data, wi)(x, y)
        == cells(x, y) by {
        lemma_at_bounds(x, y, wi, hi);
        lemma_zero_reads::<A>(r);
    }
    lemma_plane_bin_same(cells_of(r, data, wi), cells, turn, w, h, kx, ky);
    let z = plane_of::<A>(data, wi, hi, FORWARD)[p];
    reveal(Point::span);
    lemma_narrow_rounds::<A>(r, z.re);
    lemma_narrow_rounds::<A>(r, z.im);
    let out = forward_of::<A>(samples, wi, hi, channels);
    assert(out[2 * i] == narrow_of::<A>(z.re));
    assert((2 * i + 1) / 2 == i && (2 * i + 1) % 2 == 1);
    assert(out[2 * i + 1] == narrow_of::<A>(z.im));
}

/// What is stored of an inverse transform, times the number of pixels, is the real and then the imaginary part
/// of the channel's transform there, up to rounding: pairs follow each other channel by channel, pixels row by
/// row.
pub proof fn law_inverse_is_nearly_the_transform<A: Arithmetic>(
    r: Reading,
    spectrum: Seq<u32>,
    w: nat,
    h: nat,
    channels: int,
    turn: spec_fn(int, int) -> Point,
    reach: real,
    slack: real,
    x: int,
    y: int,
    c: int,
)
    requires
        obeys::<A>(r),
        quotients_round::<A>(r),
        counts_read::<A>(r, (w * h) as int),
        circles(turn),
        factors_near::<A>(r, INVERSE, turn, w, slack),
        factors_near::<A>(r, INVERSE, turn, h, slack),
        0real <= reach,
        0real <= slack,
        line_within(r, complex_plane::<A>(spectrum, (w * h) as int, channels, c), reach),
        plane_fits(r, w, h, reach, slack),
        2real * plane_reach(r, w, h, reach, slack) + 1real <= r.top,
        1real <= r.top,
        r.step <= 1real,
        0 <= x < w,
        0 <= y < h,
        0 <= c < channels,
    ensures
        ({
            let out = inverse_of::<A>(spectrum, w as int, h as int, channels);
            let place = 2 * ((y * w + x) * channels + c);
            let n = (w * h) as real;
            let exact = plane_bin(
                |kx: int, ky: int|
                    Point {
                        re: (r.wide)(widen_of::<A>(spectrum[2 * ((ky * w + kx) * channels + c)])),
                        im: (r.wide)(widen_of::<A>(spectrum[2 * ((ky * w + kx) * channels + c) + 1])),
                    },
                turn,
                w,
                h,
                x,
                y,
            );
            let error = plane_error(r, w, h, reach, slack) + product(
                product(plane_reach(r, w, h, reach, slack), r.step) + r.step + r.store,
                n,
            );
            &&& 0 <= place && place + 1 < out.len()
            &&& sample_finite(out[place]) && sample_finite(out[place + 1])
            &&& size(product((r.small)(out[place]), n) - exact.re) <= error
            &&& size(product((r.small)(out[place + 1]), n) - exact.im) <= error
        }),
{
    let wi = w as int;
    let hi = h as int;
    let data = complex_plane::<A>(spectrum, wi * hi, channels, c);
    let cells = |kx: int, ky: int|
        Point {
            re: (r.wide)(widen_of::<A>(spectrum[2 * ((ky * w + kx) * channels + c)])),
            im: (r.wide)(widen_of::<A>(spectrum[2 * ((ky * w + kx) * channels + c) + 1])),
        };
    lemma_sample_at(x, y, c, wi, hi, channels);
    let i = sample_at(x, y, c, wi, channels);
    let p = at(x, y, wi);
    assert(i == (y * w + x) * channels + c);
    assert(i / channels == p) by {
        lemma_at_inverse(c, p, channels);
    }
    law_plane_is_near::<A>(r, data, w, h, INVERSE, turn, reach, slack, x, y);
    assert forall|a: int, b: int| 0 <= a < w && 0 <= b < h implies #[trigger] cells_of(r, data, wi)(a, b)
        == cells(a, b) by {
        lemma_at_bounds(a, b, wi, hi);
    }
    lemma_plane_bin_same(cells_of(r, data, wi), cells, turn, w, h, x, y);
    let z = plane_of::<A>(data, wi, hi, INVERSE)[p];
    reveal(Point::span);
    let top = plane_reach(r, w, h, reach, slack);
    lemma_scaled_part::<A>(r, z.re, wi * hi, top);
    lemma_scaled_part::<A>(r, z.im, wi * hi, top);
    let out = inverse_of::<A>(spectrum, wi, hi, channels);
    assert(out[2 * i] == narrow_of::<A>(times_of::<A>(z.re, scale_of::<A>(wi * hi))));
    assert((2 * i + 1) / 2 == i && (2 * i + 1) % 2 == 1);
    assert(out[2 * i + 1] == narrow_of::<A>(times_of::<A>(z.im, scale_of::<A>(wi * hi))));
}

/// A number over a count, times the count, is the number, up to rounding.
proof fn lemma_scaled_part<A: Arithmetic>(r: Reading, a: u64, n: int, top: real)
    requires
        obeys::<A>(r),
        quotients_round::<A>(r),
        counts_read::<A>(r, n),
        1 <= n,
        finite(a),
        size((r.wide)(a)) <= top,
        2real * top + 1real <= r.top,
        1real <= r.top,
        r.step <= 1real,
    ensures
        ({
            let out = narrow_of::<A>(times_of::<A>(a, scale_of::<A>(n)));
            &&& sample_finite(out)
            &&& size(product((r.small)(out), n as real) - (r.wide)(a)) <= product(
                product(top, r.step) + r.step + r.store,
                n as real,
            )
        }),
{
    let nn = n as real;
    assert(1real <= nn);
    lemma_count_reads::<A>(r, n, n);
    assert(finite(ONE) && (r.wide)(ONE) == 1real) by {
        reveal(signs_read);
    }
    lemma_product_order(r.top, 1real, nn);
    lemma_product_units(r.top, 1real);
    lemma_over_rounds::<A>(r, ONE, tally_of::<A>(n as u64));
    let scale = scale_of::<A>(n);
    let s = (r.wide)(scale);
    let v = (r.wide)(a);
    lemma_cycle_size(s, nn, 1real, r.step);
    lemma_size_product(v, s);
    lemma_product_order(size(v), size(s), 2real);
    lemma_two_times(size(v));
    lemma_times_rounds::<A>(r, a, scale);
    let m = times_of::<A>(a, scale);
    lemma_narrow_rounds::<A>(r, m);
    let o = (r.small)(narrow_of::<A>(m));
    let vs = product(v, s);
    // o is within a step and a storing step of v times the scale, and that times the count near v.
    lemma_product_sum(o, vs, nn);
    lemma_size_product(o - vs, nn);
    lemma_product_order(nn, size(o - vs), r.step + r.store);
    lemma_product_sum(v, s, nn);
    assert(product(vs, nn) == product(v, product(s, nn)));
    lemma_product_sum(product(s, nn), 1real, v);
    lemma_product_units(v, 1real);
    lemma_size_product(v, product(s, nn) - 1real);
    lemma_product_order(size(v), size(product(s, nn) - 1real), product(r.step, nn));
    lemma_size_product(r.step, nn);
    lemma_product_order(product(r.step, nn), size(v), top);
    lemma_product_sum(top, r.step, nn);
    lemma_product_sum(product(top, r.step), r.step + r.store, nn);
    lemma_product_units(r.step + r.store, nn);
}

/// Two as a factor.
proof fn lemma_two_times(x: real)
    ensures
        product(x, 2real) == 2real * x,
{
    reveal(product);
}

/// Equal values have equal bins.
proof fn lemma_bin_same(
    f: spec_fn(int) -> Point,
    g: spec_fn(int) -> Point,
    turn: spec_fn(int, int) -> Point,
    n: nat,
    m: nat,
    k: int,
)
    requires
        m <= n,
        forall|j: int| 0 <= j < n ==> #[trigger] f(j) == g(j),
    ensures
        psum(|j: int| f(j).times(turn(n as int, k * j)), m) == psum(|j: int| g(j).times(turn(n as int, k * j)), m),
    decreases m,
{
    if m > 0 {
        lemma_bin_same(f, g, turn, n, (m - 1) as nat, k);
        assert(f(m - 1) == g(m - 1));
    }
}

/// Planes that are equal have equal bins.
proof fn lemma_plane_bin_same(
    f: spec_fn(int, int) -> Point,
    g: spec_fn(int, int) -> Point,
    turn: spec_fn(int, int) -> Point,
    w: nat,
    h: nat,
    kx: int,
    ky: int,
)
    requires
        forall|x: int, y: int| 0 <= x < w && 0 <= y < h ==> #[trigger] f(x, y) == g(x, y),
    ensures
        plane_bin(f, turn, w, h, kx, ky) == plane_bin(g, turn, w, h, kx, ky),
{
    let a = |b: int| row_bin(f, turn, w, kx, b);
    let b = |b: int| row_bin(g, turn, w, kx, b);
    assert forall|y: int| 0 <= y < h implies #[trigger] a(y) == b(y) by {
        let p = |x: int| f(x, y);
        let q = |x: int| g(x, y);
        assert forall|x: int| 0 <= x < w implies #[trigger] p(x) == q(x) by {
            assert(f(x, y) == g(x, y));
        }
        lemma_bin_same(p, q, turn, w, w, kx);
    }
    lemma_bin_same(a, b, turn, h, h, ky);
}

/// A bin's frequency along an axis is, up to rounding, a whole number of cycles over the axis: the bin's
/// index, less the axis where that is beyond half of it.
pub proof fn law_bin_frequency_is_near<A: Arithmetic>(r: Reading, k: int, n: int, most: int) -> (f: int)
    requires
        obeys::<A>(r),
        quotients_round::<A>(r),
        counts_read::<A>(r, most),
        wholes_read::<A>(r, most),
        0 <= k < n <= most,
        most as real <= r.top,
    ensures
        f == k || f == k - n,
        -n < 2 * f <= n,
        finite(axis_frequency::<A>(k, n)),
        size(product((r.wide)(axis_frequency::<A>(k, n)), n as real) - f as real) <= product(r.step, n as real),
{
    reveal(wholes_read);
    let f = if 2 * k <= n {
        k
    } else {
        k - n
    };
    let a = whole_of::<A>(f as i64);
    assert(finite(a) && (r.wide)(a) == f as real);
    lemma_count_reads::<A>(r, most, n);
    let nn = n as real;
    assert(1real <= nn);
    lemma_product_order(r.top, 1real, nn);
    lemma_product_units(r.top, 1real);
    assert(size(f as real) <= most as real);
    lemma_over_rounds::<A>(r, a, tally_of::<A>(n as u64));
    f
}

/// The whole numbers from minus `n` to `n` are read as themselves.
#[verifier::opaque]
pub open spec fn wholes_read<A: Arithmetic>(r: Reading, n: int) -> bool {
    forall|k: int|
        -n <= k <= n ==> finite(#[trigger] whole_of::<A>(k as i64)) && (r.wide)(whole_of::<A>(k as i64)) == k as real
}

/// The squared magnitude of a complex number is, up to two steps, the sum of the squares of its parts.
pub proof fn law_squared_magnitude_is_near<A: Arithmetic>(r: Reading, z: Complex)
    requires
        obeys::<A>(r),
        finite(z.re),
        finite(z.im),
        product((r.wide)(z.re), (r.wide)(z.re)) + product((r.wide)(z.im), (r.wide)(z.im)) + r.step <= r.top,
        0real <= product((r.wide)(z.re), (r.wide)(z.re)),
        0real <= product((r.wide)(z.im), (r.wide)(z.im)),
    ensures
        finite(z.norm_sq_of::<A>()),
        size(
            (r.wide)(z.norm_sq_of::<A>()) - (product((r.wide)(z.re), (r.wide)(z.re)) + product(
                (r.wide)(z.im),
                (r.wide)(z.im),
            )),
        ) <= 2real * r.step,
{
    lemma_times_rounds::<A>(r, z.im, z.im);
    lemma_fused_rounds::<A>(r, z.re, z.re, times_of::<A>(z.im, z.im));
}

/// A bin's radial frequency is, up to a step, the length of the vector of its frequencies along both axes, in
/// cycles per pixel: it is enough for their squares with a step more, and not too much with one less.
pub proof fn law_radial_frequency_is_near<A: Arithmetic>(
    r: Reading,
    kx: int,
    ky: int,
    width: int,
    height: int,
    most: int,
) -> (cycles: (real, real, int, int))
    requires
        obeys::<A>(r),
        quotients_round::<A>(r),
        lengths_round::<A>(r),
        counts_read::<A>(r, most),
        wholes_read::<A>(r, most),
        0 <= kx < width <= most,
        0 <= ky < height <= most,
        most as real <= r.top,
        r.step <= 1real,
        4real <= r.top,
    ensures
        ({
            let (x, y, f, g) = cycles;
            let s = (r.wide)(radial_of::<A>(kx, ky, width, height));
            &&& (f == kx || f == kx - width) && -width < 2 * f <= width
            &&& (g == ky || g == ky - height) && -height < 2 * g <= height
            &&& size(product(x, width as real) - f as real) <= product(r.step, width as real)
            &&& size(product(y, height as real) - g as real) <= product(r.step, height as real)
            &&& finite(radial_of::<A>(kx, ky, width, height))
            &&& 0real <= s
            &&& product(x, x) + product(y, y) <= product(s + r.step, s + r.step)
            &&& r.step <= s ==> product(s - r.step, s - r.step) <= product(x, x) + product(y, y)
        }),
{
    let f = law_bin_frequency_is_near::<A>(r, kx, width, most);
    let g = law_bin_frequency_is_near::<A>(r, ky, height, most);
    let a = axis_frequency::<A>(kx, width);
    let b = axis_frequency::<A>(ky, height);
    lemma_cycle_size((r.wide)(a), width as real, f as real, r.step);
    lemma_cycle_size((r.wide)(b), height as real, g as real, r.step);
    lemma_length_rounds::<A>(r, a, b);
    ((r.wide)(a), (r.wide)(b), f, g)
}

/// A share of an axis is no more than one, with a step.
proof fn lemma_cycle_size(q: real, n: real, f: real, st: real)
    requires
        1real <= n,
        0real <= st <= 1real,
        size(f) <= n,
        size(product(q, n) - f) <= product(st, n),
    ensures
        size(q) <= 2real,
{
    lemma_size_product(q, n);
    lemma_product_sum(1real, st, n);
    lemma_product_units(1real, n);
    lemma_product_units(size(q), n);
    lemma_product_units(1real + st, n);
    lemma_product_cancel(n, size(q), 1real + st);
}

} // verus!
