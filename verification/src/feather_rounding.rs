//! The signed distance that a feathered ellipse is drawn by, up to rounding: the normalised radius less one,
//! times the radius, over the length of the vector of coordinates over squared radii.
use crate::arithmetic::{fused_of, hypotenuse_of, minus_of, over_of, root_of, times_of, Arithmetic};
use crate::binary::{finite, rank, ONE, ZERO};
use crate::ellipse::{feather_of, EllipseGeometry};
use crate::ellipse_rounding::{lemma_radius_near, radius_error, squares_round_up};
use crate::rounding::{
    lemma_length_rounds, lemma_minus_rounds, lemma_order_reads, lemma_over_rounds, lemma_product_cancel,
    lemma_product_order, lemma_product_sum, lemma_product_units, lemma_size_product, lemma_times_rounds,
    lemma_zero_reads, lengths_round, obeys, orders_read, product, quotients_round, roots_round, signs_read,
    size, Reading,
};
use vstd::prelude::*;

verus! {

/// Where a point is about an ellipse: its coordinates over the radii, the normalised radius, the coordinates
/// over the squared radii, the length of that vector, and the signed distance with its pattern.
pub ghost struct EdgePlace {
    pub nx: real,
    pub ny: real,
    pub radius: real,
    pub gx: real,
    pub gy: real,
    pub slope: real,
    pub distance: real,
    pub pattern: u64,
}

/// How far a coordinate over a squared radius can be from the exact one, times the squared radius.
pub open spec fn slope_error(r: Reading, radius: real, steep: real) -> real {
    product(r.step, product(radius, radius) + r.step) + product(steep + 1real, r.step)
}

/// A radius is moderate for a coordinate: no more than `far` radii and `steep` squared radii off.
pub open spec fn moderate(r: Reading, radius: u64, coordinate: u64, far: real, steep: real) -> bool {
    let w = (r.wide)(radius);
    &&& finite(radius) && finite(coordinate)
    &&& 0real < w
    &&& r.step < product(w, w) <= r.top
    &&& size((r.wide)(coordinate)) <= product(far, w)
    &&& size((r.wide)(coordinate)) <= product(steep, product(w, w) - r.step)
}

/// How large the squared normalised radius can get.
pub open spec fn most_square(far: real) -> real {
    product(4real * far + 8real, 4real * far + 8real) + 4real * far + 8real
}

/// The rounding is fine enough for points up to `far` radii and `steep` squared radii off.
pub open spec fn fine(r: Reading, far: real, steep: real) -> bool {
    &&& 0real <= far
    &&& 0real <= steep
    &&& r.step <= 1real
    &&& 2real * product(2real * far + 3real, 2real * far + 3real) + 2real <= r.top
    &&& 2real * steep + 2real <= r.top
    &&& most_square(far) <= r.top
    &&& far <= r.top
}

/// The size of a rounded quotient.
proof fn lemma_quotient_size(q: real, w: real, u: real, far: real, st: real)
    requires
        0real < w,
        size(u) <= product(far, w),
        size(product(q, w) - u) <= product(st, w),
    ensures
        size(q) <= far + st,
{
    lemma_size_product(q, w);
    lemma_product_sum(far, st, w);
    lemma_product_units(size(q), w);
    lemma_product_units(far + st, w);
    lemma_product_cancel(w, size(q), far + st);
}

/// A coordinate over a radius and over the squared radius.
proof fn lemma_shares<A: Arithmetic>(r: Reading, radius: u64, u: u64, far: real, steep: real)
    requires
        obeys::<A>(r),
        quotients_round::<A>(r),
        fine(r, far, steep),
        moderate(r, radius, u, far, steep),
    ensures
        ({
            let w = (r.wide)(radius);
            let n = over_of::<A>(u, radius);
            let g = over_of::<A>(u, times_of::<A>(radius, radius));
            &&& finite(n) && finite(g)
            &&& size(product((r.wide)(n), w) - (r.wide)(u)) <= product(r.step, w)
            &&& size((r.wide)(n)) <= far + r.step
            &&& size(product((r.wide)(g), product(w, w)) - (r.wide)(u)) <= slope_error(r, w, steep)
            &&& size((r.wide)(g)) <= steep + r.step
        }),
{
    let w = (r.wide)(radius);
    let c = (r.wide)(u);
    lemma_product_order(w, far, r.top);
    lemma_over_rounds::<A>(r, u, radius);
    lemma_quotient_size((r.wide)(over_of::<A>(u, radius)), w, c, far, r.step);
    let square = times_of::<A>(radius, radius);
    lemma_size_product(w, w);
    lemma_times_rounds::<A>(r, radius, radius);
    let s = (r.wide)(square);
    let ww = product(w, w);
    lemma_product_order(steep, ww - r.step, s);
    lemma_product_order(s, steep, r.top);
    lemma_over_rounds::<A>(r, u, square);
    let g = (r.wide)(over_of::<A>(u, square));
    lemma_quotient_size(g, s, c, steep, r.step);
    lemma_product_sum(s, ww, g);
    lemma_size_product(g, s - ww);
    lemma_product_order(size(g), size(s - ww), r.step);
    lemma_product_order(r.step, size(g), steep + 1real);
    lemma_product_order(r.step, s, ww + r.step);
}

/// A feathered ellipse is drawn by the first-order signed distance: at local coordinates `u` and `v`, up to
/// rounding, the normalised radius less one, times the radius, over the slope; the centre is covered.
pub proof fn law_feather_goes_by_the_signed_distance<A: Arithmetic>(
    r: Reading,
    ellipse: EllipseGeometry,
    u: u64,
    v: u64,
    far: real,
    steep: real,
) -> (found: EdgePlace)
    requires
        obeys::<A>(r),
        quotients_round::<A>(r),
        roots_round::<A>(r),
        lengths_round::<A>(r),
        orders_read(r),
        squares_round_up::<A>(),
        fine(r, far, steep),
        moderate(r, ellipse.rx, u, far, steep),
        moderate(r, ellipse.ry, v, far, steep),
    ensures
        ({
            let rx = (r.wide)(ellipse.rx);
            let ry = (r.wide)(ellipse.ry);
            let e = found;
            let squared = product(e.nx, e.nx) + product(e.ny, e.ny);
            let error = radius_error(r, far + 1real, 0real);
            let coverage = ellipse.local_coverage::<A>(u, v);
            &&& coverage == ONE && (e.radius == 0real || e.slope == 0real) || coverage == feather_of::<A>(
                e.pattern,
                ellipse.half_width_px,
            )
            &&& size(product(e.nx, rx) - (r.wide)(u)) <= product(r.step, rx)
            &&& size(product(e.ny, ry) - (r.wide)(v)) <= product(r.step, ry)
            &&& 0real <= e.radius
            &&& squared - error <= product(e.radius + r.step, e.radius + r.step)
            &&& r.step <= e.radius ==> product(e.radius - r.step, e.radius - r.step) <= squared + error
            &&& size(product(e.gx, product(rx, rx)) - (r.wide)(u)) <= slope_error(r, rx, steep)
            &&& size(product(e.gy, product(ry, ry)) - (r.wide)(v)) <= slope_error(r, ry, steep)
            &&& 0real <= e.slope
            &&& product(e.gx, e.gx) + product(e.gy, e.gy) <= product(e.slope + r.step, e.slope + r.step)
            &&& r.step <= e.slope ==> product(e.slope - r.step, e.slope - r.step) <= product(e.gx, e.gx) + product(
                e.gy,
                e.gy,
            )
            &&& e.distance == (r.wide)(e.pattern)
            &&& 0real < e.slope && most_square(far) <= product(r.top, e.slope) ==> finite(e.pattern) && size(
                product(e.distance, e.slope) - product(e.radius - 1real, e.radius),
            ) <= product(r.step, e.slope) + product(r.step, e.radius) + r.step
        }),
{
    let nx = over_of::<A>(u, ellipse.rx);
    let ny = over_of::<A>(v, ellipse.ry);
    let gx = over_of::<A>(u, times_of::<A>(ellipse.rx, ellipse.rx));
    let gy = over_of::<A>(v, times_of::<A>(ellipse.ry, ellipse.ry));
    lemma_shares::<A>(r, ellipse.rx, u, far, steep);
    lemma_shares::<A>(r, ellipse.ry, v, far, steep);
    let near = far + 1real;
    assert(2real * near + 1real == 2real * far + 3real);
    lemma_radius_near::<A>(r, nx, ny, (r.wide)(nx), (r.wide)(ny), near, 0real);
    let f = root_of::<A>(fused_of::<A>(nx, nx, times_of::<A>(ny, ny)));
    let grad = hypotenuse_of::<A>(gx, gy);
    lemma_length_rounds::<A>(r, gx, gy);
    let wf = (r.wide)(f);
    let wg = (r.wide)(grad);
    lemma_zero_reads::<A>(r);
    lemma_order_reads(r, f, ZERO);
    lemma_order_reads(r, ZERO, f);
    lemma_order_reads(r, grad, ZERO);
    lemma_order_reads(r, ZERO, grad);
    assert(rank(ZERO) == 0);
    let top = 4real * far + 8real;
    assert(0real <= wf <= top);
    let less = minus_of::<A>(f, ONE);
    assert(finite(ONE) && (r.wide)(ONE) == 1real) by {
        reveal(signs_read);
    }
    lemma_size_product(top, top);
    lemma_minus_rounds::<A>(r, f, ONE);
    let m = times_of::<A>(less, f);
    let l = (r.wide)(less);
    assert(size(l) <= top);
    lemma_size_product(l, wf);
    lemma_product_order(wf, size(l), top);
    lemma_product_order(top, wf, top);
    lemma_times_rounds::<A>(r, less, f);
    lemma_product_sum(l, wf - 1real, wf);
    lemma_size_product(l - (wf - 1real), wf);
    lemma_product_order(wf, size(l - (wf - 1real)), r.step);
    let sd = over_of::<A>(m, grad);
    if 0real < wg && most_square(far) <= product(r.top, wg) {
        lemma_over_rounds::<A>(r, m, grad);
    }
    EdgePlace {
        nx: (r.wide)(nx),
        ny: (r.wide)(ny),
        radius: wf,
        gx: (r.wide)(gx),
        gy: (r.wide)(gy),
        slope: wg,
        distance: (r.wide)(sd),
        pattern: sd,
    }
}

} // verus!
