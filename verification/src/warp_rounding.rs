//! What a warp does in an arithmetic that rounds: bilinear sampling is nearly the blend of the four pixels
//! about the displaced position, in the proportion of the areas across from them, and nearest sampling
//! reads the pixel that holds it.
use crate::arithmetic::{minus_of, plus_of, round_down_of, to_integer_of, widen_of, Arithmetic};
use crate::binary::{finite, rank, sample_finite, HALF};
use crate::domain_warp::{
    blend_of, fetch_of, lerp_of, moved_sample, next_of, read_position, request_of, sampled, warped,
    warped_sample, warped_value, WarpFilter, WarpRequest,
};
use crate::gradient::center_of;
use crate::ir::Extent;
use crate::json::Json;
use crate::lattice::{at, lemma_raster_sample, sample_at};
use crate::ports::port_view;
use crate::rounding::{
    floors_read, lemma_center_reads, lemma_floor_reads, lemma_fused_rounds, lemma_minus_rounds,
    lemma_narrow_rounds, lemma_plus_rounds, lemma_product_order, lemma_product_sum, lemma_product_units,
    lemma_size_product, lemma_widen_reads, obeys, places_read, product, signs_read, size, Reading,
};
use crate::value::{ResourceValue, ValueView};
use vstd::prelude::*;

verus! {

/// The blend of four numbers on the corners of a unit square at a place in it: each counts by the area of
/// the rectangle across from it.
pub open spec fn mixed(s00: real, s10: real, s01: real, s11: real, tx: real, ty: real) -> real {
    product(product(1real - tx, 1real - ty), s00) + product(product(tx, 1real - ty), s10) + product(
        product(1real - tx, ty),
        s01,
    ) + product(product(tx, ty), s11)
}

/// The number that a pixel of a channel stands for under the boundary mode.
pub open spec fn shade<A: Arithmetic>(
    r: Reading,
    src: Seq<u32>,
    extent: Extent,
    channels: int,
    request: WarpRequest,
    c: int,
    x: int,
    y: int,
) -> real {
    (r.small)(moved_sample::<A>(src, extent, channels, request, x, y, c))
}

/// Every pixel of a channel, and what stands off the edge, is a finite number within a bound.
pub open spec fn shades_within<A: Arithmetic>(
    r: Reading,
    src: Seq<u32>,
    extent: Extent,
    channels: int,
    request: WarpRequest,
    c: int,
    bound: real,
) -> bool {
    forall|x: int, y: int|
        sample_finite(#[trigger] moved_sample::<A>(src, extent, channels, request, x, y, c)) && size(
            shade::<A>(r, src, extent, channels, request, c, x, y),
        ) <= bound
}

/// How far a computed blend of numbers within a bound can be from the exact one.
pub open spec fn mix_error(r: Reading, bound: real) -> real {
    product(r.step, 4real * bound + 8real)
}

/// The blend of two real numbers.
spec fn line(a: real, b: real, t: real) -> real {
    a + product(b - a, t)
}

/// A product of three numbers does not depend on their order.
proof fn lemma_three(a: real, x: real, y: real)
    ensures
        product(product(a, x), y) == product(product(x, y), a),
        product(a, x) == product(x, a),
        product(a, y) == product(y, a),
{
    lemma_product_sum(a, x, y);
    lemma_product_units(a, product(x, y));
    lemma_product_units(a, x);
    lemma_product_units(a, y);
}

/// What the first and the last number count for in a blend by areas.
proof fn lemma_shares(a: real, x: real, y: real)
    ensures
        product(product(1real - x, 1real - y), a) == a - product(x, a) - product(y, a) + product(
            product(x, y),
            a,
        ),
        product(product(x, 1real - y), a) == product(x, a) - product(product(x, y), a),
        product(product(1real - x, y), a) == product(y, a) - product(product(x, y), a),
{
    lemma_product_sum(1real, x, 1real - y);
    lemma_product_sum(1real, y, x);
    lemma_product_sum(1real, x, y);
    lemma_product_units(1real, 1real - y);
    lemma_product_units(x, 1real);
    lemma_product_units(1real, y);
    lemma_product_units(1real, a);
    let xy = product(x, y);
    assert(product(x, 1real - y) == x - xy);
    assert(product(1real - x, y) == y - xy);
    assert(product(1real - x, 1real - y) == (1real - y) - (x - xy));
    lemma_product_sum(1real - y, x - xy, a);
    lemma_product_sum(1real, y, a);
    lemma_product_sum(x, xy, a);
    lemma_product_sum(y, xy, a);
}

/// Blending along the rows and then between them is blending by areas.
proof fn lemma_mixed(s00: real, s10: real, s01: real, s11: real, tx: real, ty: real)
    ensures
        line(line(s00, s10, tx), line(s01, s11, tx), ty) == mixed(s00, s10, s01, s11, tx, ty),
{
    let top = line(s00, s10, tx);
    let bottom = line(s01, s11, tx);
    lemma_product_sum(bottom, top, ty);
    lemma_product_sum(s00, product(s10 - s00, tx), ty);
    lemma_product_sum(s01, product(s11 - s01, tx), ty);
    lemma_product_sum(s10, s00, tx);
    lemma_product_sum(s11, s01, tx);
    lemma_product_sum(product(s10, tx), product(s00, tx), ty);
    lemma_product_sum(product(s11, tx), product(s01, tx), ty);
    lemma_three(s00, tx, ty);
    lemma_three(s10, tx, ty);
    lemma_three(s01, tx, ty);
    lemma_three(s11, tx, ty);
    lemma_shares(s00, tx, ty);
    lemma_shares(s10, tx, ty);
    lemma_shares(s01, tx, ty);
}

/// A blend of two numbers lies between them, and moves with its ends and its place.
proof fn lemma_line(a: real, b: real, t: real, lo: real, hi: real)
    requires
        lo <= a <= hi,
        lo <= b <= hi,
        0real <= t <= 1real,
    ensures
        lo <= line(a, b, t) <= hi,
{
    lemma_product_sum(1real, t, b - a);
    lemma_product_units(b - a, t);
    lemma_product_units(1real, b - a);
    if a <= b {
        lemma_product_order(b - a, 0real, t);
        lemma_product_order(b - a, t, 1real);
        lemma_product_units(b - a, 1real);
    } else {
        lemma_product_units(b - a, t);
        lemma_product_units(a - b, t);
        assert(product(b - a, t) == -product(a - b, t)) by {
            assert(b - a == -(a - b));
        }
        lemma_product_order(a - b, 0real, t);
        lemma_product_order(a - b, t, 1real);
        lemma_product_units(a - b, 1real);
    }
}

/// Blends of numbers near each other at one place are near each other.
proof fn lemma_line_near(a: real, b: real, c: real, d: real, t: real, off: real)
    requires
        size(a - c) <= off,
        size(b - d) <= off,
        0real <= t <= 1real,
    ensures
        size(line(a, b, t) - line(c, d, t)) <= off,
{
    lemma_line(a - c, b - d, t, -off, off);
    lemma_product_sum(b - a, d - c, t);
    assert((b - a) - (d - c) == (b - d) - (a - c));
}

/// A blend at a place moves by no more than the distance of its ends times what the place moves by.
proof fn lemma_line_moves(a: real, b: real, t: real, u: real, bound: real, off: real)
    requires
        size(a) <= bound,
        size(b) <= bound,
        size(t - u) <= off,
    ensures
        size(line(a, b, t) - line(a, b, u)) <= product(off, 2real * bound),
{
    lemma_product_sum(t, u, b - a);
    lemma_size_product(b - a, t - u);
    lemma_product_order(size(t - u), size(b - a), 2real * bound);
    lemma_product_order(2real * bound, size(t - u), off);
    lemma_product_units(size(t - u), size(b - a));
}

/// A computed blend of two numbers is near the exact one.
proof fn lemma_lerp_near<A: Arithmetic>(r: Reading, a: u64, b: u64, t: u64, u: real, bound: real)
    requires
        obeys::<A>(r),
        finite(a),
        finite(b),
        finite(t),
        size((r.wide)(a)) <= bound,
        size((r.wide)(b)) <= bound,
        0real <= u <= 1real,
        size((r.wide)(t) - u) <= r.step,
        r.step <= 1real,
        product(r.step, 2real * bound + 3real) + bound <= r.top,
        2real * bound <= r.top,
    ensures
        finite(lerp_of::<A>(a, b, t)),
        size((r.wide)(lerp_of::<A>(a, b, t)) - line((r.wide)(a), (r.wide)(b), u)) <= product(
            r.step,
            2real * bound + 3real,
        ),
{
    let wa = (r.wide)(a);
    let wb = (r.wide)(b);
    let wt = (r.wide)(t);
    lemma_minus_rounds::<A>(r, b, a);
    let m = minus_of::<A>(b, a);
    let wm = (r.wide)(m);
    lemma_line(wa, wb, u, -bound, bound);
    lemma_line_moves(wa, wb, wt, u, bound, r.step);
    lemma_product_sum(wm, wb - wa, wt);
    lemma_size_product(wm - (wb - wa), wt);
    lemma_product_order(size(wt), size(wm - (wb - wa)), r.step);
    lemma_product_order(r.step, size(wt), 2real);
    lemma_product_units(size(wt), r.step);
    lemma_product_units(r.step, 1real);
    lemma_product_sum(2real * bound, 2real, r.step);
    lemma_product_sum(2real * bound + 2real, 1real, r.step);
    assert(product(r.step, 2real * bound + 3real) == product(r.step, 2real * bound) + product(r.step, 2real)
        + r.step) by {
        assert(2real * bound + 2real + 1real == 2real * bound + 3real);
    }
    let exact = line(wa, wb, u);
    let e = product(wm, wt) + wa;
    assert(size(e - exact) <= product(r.step, 2real * bound) + product(r.step, 2real));
    lemma_fused_rounds::<A>(r, m, t, a);
}

/// A computed blend of four numbers is near the exact one.
proof fn lemma_blend_near<A: Arithmetic>(
    r: Reading,
    v00: u64,
    v10: u64,
    v01: u64,
    v11: u64,
    tx: u64,
    ty: u64,
    ux: real,
    uy: real,
    bound: real,
)
    requires
        obeys::<A>(r),
        finite(v00) && finite(v10) && finite(v01) && finite(v11),
        finite(tx) && finite(ty),
        size((r.wide)(v00)) <= bound,
        size((r.wide)(v10)) <= bound,
        size((r.wide)(v01)) <= bound,
        size((r.wide)(v11)) <= bound,
        0real <= ux <= 1real,
        0real <= uy <= 1real,
        size((r.wide)(tx) - ux) <= r.step,
        size((r.wide)(ty) - uy) <= r.step,
        r.step <= 1real,
        product(r.step, 2real * bound + 3real) <= 1real,
        2real * bound + 8real <= r.top,
    ensures
        finite(blend_of::<A>(v00, v10, v01, v11, tx, ty)),
        size(
            (r.wide)(blend_of::<A>(v00, v10, v01, v11, tx, ty)) - mixed(
                (r.wide)(v00),
                (r.wide)(v10),
                (r.wide)(v01),
                (r.wide)(v11),
                ux,
                uy,
            ),
        ) <= mix_error(r, bound),
        size((r.wide)(blend_of::<A>(v00, v10, v01, v11, tx, ty))) <= r.top,
{
    let a = (r.wide)(v00);
    let b = (r.wide)(v10);
    let c = (r.wide)(v01);
    let d = (r.wide)(v11);
    let e = product(r.step, 2real * bound + 3real);
    lemma_mixed(a, b, c, d, ux, uy);
    lemma_line(a, b, ux, -bound, bound);
    lemma_line(c, d, ux, -bound, bound);
    let top = line(a, b, ux);
    let bottom = line(c, d, ux);
    lemma_line(top, bottom, uy, -bound, bound);
    lemma_product_sum(2real * bound, 2real * bound, r.step);
    lemma_product_sum(4real * bound, 8real, r.step);
    lemma_product_sum(2real * bound + 3real, 2real * bound + 5real, r.step);
    assert(2real * bound + 3real + (2real * bound + 5real) == 4real * bound + 8real);
    lemma_product_order(r.step, 0real, 8real);
    lemma_product_units(r.step, 0real);
    assert(product(r.step, 2real * bound + 5real) <= 2real + e) by {
        lemma_product_sum(2real * bound + 3real, 2real, r.step);
        lemma_product_order(2real, r.step, 1real);
        lemma_product_units(2real, 1real);
        lemma_product_units(2real, r.step);
        assert(2real * bound + 3real + 2real == 2real * bound + 5real);
    }
    assert(mix_error(r, bound) <= 4real);
    if rank(tx) == 0 && rank(ty) == 0 {
        reveal(signs_read);
        lemma_line_moves(a, b, 0real, ux, bound, r.step);
        lemma_product_units(b - a, 0real);
        assert(line(a, b, 0real) == a);
        lemma_line_moves(top, bottom, 0real, uy, bound, r.step);
        lemma_product_units(bottom - top, 0real);
        assert(line(top, bottom, 0real) == top);
        assert(2real * bound + 2real * bound == 4real * bound);
    } else {
        lemma_lerp_near::<A>(r, v00, v10, tx, ux, bound);
        lemma_lerp_near::<A>(r, v01, v11, tx, ux, bound);
        let p = lerp_of::<A>(v00, v10, tx);
        let q = lerp_of::<A>(v01, v11, tx);
        lemma_product_order(r.step, 2real * (bound + e) + 3real, 2real * bound + 5real);
        lemma_product_order(r.step, 2real * bound + 5real, 4real * bound + 8real);
        lemma_lerp_near::<A>(r, p, q, ty, uy, bound + e);
        lemma_line_near((r.wide)(p), (r.wide)(q), top, bottom, uy, e);
    }
}

/// What stands at a pixel reads as its shade.
proof fn lemma_fetch_reads<A: Arithmetic>(
    r: Reading,
    src: Seq<u32>,
    extent: Extent,
    channels: int,
    request: WarpRequest,
    c: int,
    bound: real,
    x: int,
    y: int,
)
    requires
        obeys::<A>(r),
        shades_within::<A>(r, src, extent, channels, request, c, bound),
    ensures
        finite(fetch_of::<A>(src, extent, channels, c, x, y, request)),
        (r.wide)(fetch_of::<A>(src, extent, channels, c, x, y, request)) == shade::<A>(
            r,
            src,
            extent,
            channels,
            request,
            c,
            x,
            y,
        ),
        size(shade::<A>(r, src, extent, channels, request, c, x, y)) <= bound,
{
    let sample = moved_sample::<A>(src, extent, channels, request, x, y, c);
    assert(sample_finite(sample));
    lemma_widen_reads::<A>(r, sample);
}

/// A coordinate of a displaced position, whole and in parts: it lies near pixel `i` moved by `d`, and is
/// cut into a whole number and a fraction.
pub open spec fn cut_near(r: Reading, i: int, d: u32, k: int, t: real) -> bool {
    &&& 0real <= t < 1real
    &&& size(k as real + t - (i as real + (r.small)(d))) <= 3real * r.step
}

/// The coordinate that is read of a pixel moved by a displacement is cut near that place.
proof fn lemma_cut<A: Arithmetic>(r: Reading, n: int, i: int, d: u32) -> (t: real)
    requires
        obeys::<A>(r),
        floors_read::<A>(r),
        places_read::<A>(r, n),
        0 <= i <= n,
        sample_finite(d),
        r.step <= 1real,
        i as real + size((r.small)(d)) + 8real <= r.top,
        r.top <= 4611686018427387904real,
    ensures
        ({
            let s = plus_of::<A>(center_of::<A>(i), widen_of::<A>(d));
            let g = minus_of::<A>(s, HALF);
            let k = to_integer_of::<A>(round_down_of::<A>(g));
            let f = minus_of::<A>(g, round_down_of::<A>(g));
            &&& cut_near(r, i, d, k as int, t)
            &&& finite(f)
            &&& size((r.wide)(f) - t) <= r.step
            &&& next_of(k) == k + 1
            &&& finite(s)
            &&& size((r.wide)(s) - (i as real + 1real / 2real + (r.small)(d))) <= 2real * r.step
        }),
{
    lemma_center_reads::<A>(r, n, i);
    lemma_widen_reads::<A>(r, d);
    lemma_plus_rounds::<A>(r, center_of::<A>(i), widen_of::<A>(d));
    let s = plus_of::<A>(center_of::<A>(i), widen_of::<A>(d));
    lemma_minus_rounds::<A>(r, s, HALF);
    let g = minus_of::<A>(s, HALF);
    lemma_floor_reads::<A>(r, g);
    let k = to_integer_of::<A>(round_down_of::<A>(g));
    let t = (r.wide)(g) - k as real;
    lemma_minus_rounds::<A>(r, g, round_down_of::<A>(g));
    assert(k as real <= 4611686018427387904real);
    assert(k <= 4611686018427387904);
    t
}

/// Bilinear sampling blends the four pixels about the displaced position: every warped sample is, up to
/// rounding, the blend of the four pixels of its own channel about a place within three rounding steps of
/// where the displacement moves it, each counting by the area across from it.
pub proof fn law_warp_is_nearly_bilinear<A: Arithmetic>(
    r: Reading,
    src: Seq<u32>,
    extent: Extent,
    channels: int,
    disp: Seq<u32>,
    request: WarpRequest,
    n: int,
    x: int,
    y: int,
    c: int,
    bound: real,
) -> (place: (int, int, real, real))
    requires
        obeys::<A>(r),
        floors_read::<A>(r),
        places_read::<A>(r, n),
        request.filter == WarpFilter::Bilinear,
        0 <= x < extent.width <= n,
        0 <= y < extent.height <= n,
        0 <= c < channels,
        shades_within::<A>(r, src, extent, channels, request, c, bound),
        sample_finite(disp[at(x, y, extent.width as int) * 2]),
        sample_finite(disp[at(x, y, extent.width as int) * 2 + 1]),
        r.step <= 1real,
        product(r.step, 2real * bound + 3real) <= 1real,
        2real * bound + 8real <= r.top,
        x as real + size((r.small)(disp[at(x, y, extent.width as int) * 2])) + 8real <= r.top,
        y as real + size((r.small)(disp[at(x, y, extent.width as int) * 2 + 1])) + 8real <= r.top,
        r.top <= 4611686018427387904real,
    ensures
        ({
            let (kx, ky, tx, ty) = place;
            let s = |i: int, j: int| shade::<A>(r, src, extent, channels, request, c, i, j);
            let out = warped::<A>(src, extent, channels, disp, request)[sample_at(
                x,
                y,
                c,
                extent.width as int,
                channels,
            )];
            &&& cut_near(r, x, disp[at(x, y, extent.width as int) * 2], kx, tx)
            &&& cut_near(r, y, disp[at(x, y, extent.width as int) * 2 + 1], ky, ty)
            &&& sample_finite(out)
            &&& size(
                (r.small)(out) - mixed(
                    s(kx, ky),
                    s(kx + 1, ky),
                    s(kx, ky + 1),
                    s(kx + 1, ky + 1),
                    tx,
                    ty,
                ),
            ) <= mix_error(r, bound) + r.store
        }),
{
    let w = extent.width as int;
    let dx = disp[at(x, y, w) * 2];
    let dy = disp[at(x, y, w) * 2 + 1];
    let (sx, sy) = read_position::<A>(disp, extent, x, y);
    let gx = minus_of::<A>(sx, HALF);
    let gy = minus_of::<A>(sy, HALF);
    let tx = lemma_cut::<A>(r, n, x, dx);
    let ty = lemma_cut::<A>(r, n, y, dy);
    let kx = to_integer_of::<A>(round_down_of::<A>(gx)) as int;
    let ky = to_integer_of::<A>(round_down_of::<A>(gy)) as int;
    lemma_fetch_reads::<A>(r, src, extent, channels, request, c, bound, kx, ky);
    lemma_fetch_reads::<A>(r, src, extent, channels, request, c, bound, kx + 1, ky);
    lemma_fetch_reads::<A>(r, src, extent, channels, request, c, bound, kx, ky + 1);
    lemma_fetch_reads::<A>(r, src, extent, channels, request, c, bound, kx + 1, ky + 1);
    lemma_blend_near::<A>(
        r,
        fetch_of::<A>(src, extent, channels, c, kx, ky, request),
        fetch_of::<A>(src, extent, channels, c, kx + 1, ky, request),
        fetch_of::<A>(src, extent, channels, c, kx, ky + 1, request),
        fetch_of::<A>(src, extent, channels, c, kx + 1, ky + 1, request),
        minus_of::<A>(gx, round_down_of::<A>(gx)),
        minus_of::<A>(gy, round_down_of::<A>(gy)),
        tx,
        ty,
        bound,
    );
    let value = sampled::<A>(src, extent, channels, c, sx, sy, request);
    lemma_narrow_rounds::<A>(r, value);
    lemma_raster_sample(
        w,
        extent.height as int,
        channels,
        |x: int, y: int, c: int| warped_sample::<A>(src, extent, channels, disp, request, x, y, c),
        x,
        y,
        c,
    );
    (kx, ky, tx, ty)
}

/// Nearest sampling reads the pixel that holds the displaced position: every warped sample is, up to
/// storing, a pixel of its own channel whose square holds a place within two rounding steps of the
/// displaced centre.
pub proof fn law_warp_reads_the_nearest<A: Arithmetic>(
    r: Reading,
    src: Seq<u32>,
    extent: Extent,
    channels: int,
    disp: Seq<u32>,
    request: WarpRequest,
    n: int,
    x: int,
    y: int,
    c: int,
    bound: real,
) -> (place: (int, int, real, real))
    requires
        obeys::<A>(r),
        floors_read::<A>(r),
        places_read::<A>(r, n),
        request.filter == WarpFilter::Nearest,
        0 <= x < extent.width <= n,
        0 <= y < extent.height <= n,
        0 <= c < channels,
        shades_within::<A>(r, src, extent, channels, request, c, bound),
        sample_finite(disp[at(x, y, extent.width as int) * 2]),
        sample_finite(disp[at(x, y, extent.width as int) * 2 + 1]),
        r.step <= 1real,
        bound <= r.top,
        x as real + size((r.small)(disp[at(x, y, extent.width as int) * 2])) + 8real <= r.top,
        y as real + size((r.small)(disp[at(x, y, extent.width as int) * 2 + 1])) + 8real <= r.top,
        r.top <= 4611686018427387904real,
    ensures
        ({
            let (kx, ky, px, py) = place;
            let out = warped::<A>(src, extent, channels, disp, request)[sample_at(
                x,
                y,
                c,
                extent.width as int,
                channels,
            )];
            &&& kx as real <= px < kx as real + 1real
            &&& ky as real <= py < ky as real + 1real
            &&& size(
                px - (x as real + 1real / 2real + (r.small)(disp[at(x, y, extent.width as int) * 2])),
            ) <= 2real * r.step
            &&& size(
                py - (y as real + 1real / 2real + (r.small)(disp[at(x, y, extent.width as int) * 2 + 1])),
            ) <= 2real * r.step
            &&& sample_finite(out)
            &&& size((r.small)(out) - shade::<A>(r, src, extent, channels, request, c, kx, ky)) <= r.store
        }),
{
    let w = extent.width as int;
    let (sx, sy) = read_position::<A>(disp, extent, x, y);
    let _ = lemma_cut::<A>(r, n, x, disp[at(x, y, w) * 2]);
    let _ = lemma_cut::<A>(r, n, y, disp[at(x, y, w) * 2 + 1]);
    lemma_floor_reads::<A>(r, sx);
    lemma_floor_reads::<A>(r, sy);
    let kx = to_integer_of::<A>(round_down_of::<A>(sx)) as int;
    let ky = to_integer_of::<A>(round_down_of::<A>(sy)) as int;
    lemma_fetch_reads::<A>(r, src, extent, channels, request, c, bound, kx, ky);
    lemma_narrow_rounds::<A>(r, fetch_of::<A>(src, extent, channels, c, kx, ky, request));
    lemma_raster_sample(
        w,
        extent.height as int,
        channels,
        |x: int, y: int, c: int| warped_sample::<A>(src, extent, channels, disp, request, x, y, c),
        x,
        y,
        c,
    );
    (kx, ky, (r.wide)(sx), (r.wide)(sy))
}

/// Bilinear sampling stays between the least and the greatest number that stands in a channel, up to
/// rounding; so a channel that is the same everywhere is kept by every displacement.
pub proof fn law_warp_stays_in_range<A: Arithmetic>(
    r: Reading,
    src: Seq<u32>,
    extent: Extent,
    channels: int,
    disp: Seq<u32>,
    request: WarpRequest,
    n: int,
    x: int,
    y: int,
    c: int,
    lo: real,
    hi: real,
    bound: real,
)
    requires
        obeys::<A>(r),
        floors_read::<A>(r),
        places_read::<A>(r, n),
        request.filter == WarpFilter::Bilinear,
        0 <= x < extent.width <= n,
        0 <= y < extent.height <= n,
        0 <= c < channels,
        shades_within::<A>(r, src, extent, channels, request, c, bound),
        forall|i: int, j: int|
            lo <= #[trigger] shade::<A>(r, src, extent, channels, request, c, i, j) <= hi,
        sample_finite(disp[at(x, y, extent.width as int) * 2]),
        sample_finite(disp[at(x, y, extent.width as int) * 2 + 1]),
        r.step <= 1real,
        product(r.step, 2real * bound + 3real) <= 1real,
        2real * bound + 8real <= r.top,
        x as real + size((r.small)(disp[at(x, y, extent.width as int) * 2])) + 8real <= r.top,
        y as real + size((r.small)(disp[at(x, y, extent.width as int) * 2 + 1])) + 8real <= r.top,
        r.top <= 4611686018427387904real,
    ensures
        ({
            let out = (r.small)(
                warped::<A>(src, extent, channels, disp, request)[sample_at(
                    x,
                    y,
                    c,
                    extent.width as int,
                    channels,
                )],
            );
            lo - (mix_error(r, bound) + r.store) <= out <= hi + (mix_error(r, bound) + r.store)
        }),
{
    let (kx, ky, tx, ty) = law_warp_is_nearly_bilinear::<A>(
        r,
        src,
        extent,
        channels,
        disp,
        request,
        n,
        x,
        y,
        c,
        bound,
    );
    let s = |i: int, j: int| shade::<A>(r, src, extent, channels, request, c, i, j);
    lemma_mixed(s(kx, ky), s(kx + 1, ky), s(kx, ky + 1), s(kx + 1, ky + 1), tx, ty);
    lemma_line(s(kx, ky), s(kx + 1, ky), tx, lo, hi);
    lemma_line(s(kx, ky + 1), s(kx + 1, ky + 1), tx, lo, hi);
    lemma_line(
        line(s(kx, ky), s(kx + 1, ky), tx),
        line(s(kx, ky + 1), s(kx + 1, ky + 1), tx),
        ty,
        lo,
        hi,
    );
}

/// The operation warps its source by its displacement: what it makes is the source read at the displaced
/// positions, as many samples as the source has, under the same description.
pub proof fn law_warp_operation_reads_its_source<A: Arithmetic>(
    inputs: Map<Seq<char>, ResourceValue>,
    params: Json,
    source: ValueView,
    displacement: ValueView,
)
    requires
        port_view(inputs, "source"@) == Some(source),
        port_view(inputs, "displacement"@) == Some(displacement),
        warped_value::<A>(inputs, params) is Ok,
    ensures
        ({
            let out = warped_value::<A>(inputs, params)->Ok_0;
            &&& request_of(params) is Ok
            &&& out.descriptor == source.descriptor
            &&& out.samples == warped::<A>(
                source.samples,
                source.descriptor.extent(),
                out.channels as int,
                displacement.samples,
                request_of(params)->Ok_0,
            )
        }),
{
}

} // verus!
