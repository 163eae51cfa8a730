//! What an ellipse mask is in an arithmetic that rounds: its own frame is nearly a rotation of the image's,
//! and with a hard edge it nearly covers the points inside the ellipse and no others.
use crate::arithmetic::{
    cosine_of, fused_of, hypotenuse_of, minus_of, narrow_of, over_of, root_of, sine_of, times_of, Arithmetic,
};
use crate::binary::{at_most, finite, nan, negated, rank, ONE, ZERO};
use crate::ellipse::{drawn, geometry_of, hard_edge, EllipseGeometry};
use crate::gradient::center_of;
use crate::gradient_rounding::{
    inner_error, lemma_inner_near, lemma_product_near, lemma_length_bound, lemma_square,
    lemma_squares_order,
};
use crate::json::Json;
use crate::lattice::{at, lemma_at_bounds, lemma_at_inverse};
use crate::ports::port_view;
use crate::rounding::{
    lemma_center_reads, lemma_fused_rounds, lemma_length_rounds, lemma_minus_rounds, lemma_order_reads,
    lemma_over_rounds, lemma_product_cancel, lemma_product_order, lemma_product_sum, lemma_product_units,
    lemma_ratio, lemma_root_rounds, lemma_size_product, lemma_times_rounds, lemma_zero_reads, lengths_round,
    obeys, orders_read, places_read, product, quotients_round, ratio, roots_round, signs_read, size, Reading,
};
use crate::value::{ResourceValue, ValueView};
use vstd::prelude::*;

verus! {

/// The sine and the cosine that the arithmetic gives for an angle are within a rounding step of the parts of
/// a vector of length one.
pub open spec fn turn_reads<A: Arithmetic>(r: Reading, angle: u64, sn: real, cs: real) -> bool {
    &&& finite(sine_of::<A>(angle))
    &&& finite(cosine_of::<A>(angle))
    &&& size((r.wide)(sine_of::<A>(angle)) - sn) <= r.step
    &&& size((r.wide)(cosine_of::<A>(angle)) - cs) <= r.step
    &&& product(cs, cs) + product(sn, sn) == 1real
}

/// How far a vector reaches along an axis that is turned.
pub open spec fn along(x: real, y: real, sn: real, cs: real) -> real {
    product(cs, x) + product(sn, y)
}

/// How far a vector reaches across an axis that is turned.
pub open spec fn across(x: real, y: real, sn: real, cs: real) -> real {
    product(cs, y) - product(sn, x)
}

/// The square of a sum and of a difference of products.
proof fn lemma_square_of_sum(a: real, b: real)
    ensures
        product(a + b, a + b) == product(a, a) + 2real * product(a, b) + product(b, b),
        product(a - b, a - b) == product(a, a) - 2real * product(a, b) + product(b, b),
{
    lemma_product_sum(a, b, a + b);
    lemma_product_sum(a, b, a);
    lemma_product_sum(a, b, b);
    lemma_product_sum(a, b, a - b);
    lemma_product_units(a, b);
}

/// The square of a product is the product of the squares.
pub proof fn lemma_square_of_product(a: real, b: real)
    ensures
        product(product(a, b), product(a, b)) == product(product(a, a), product(b, b)),
{
    lemma_product_sum(a, b, product(a, b));
    lemma_product_sum(b, a, b);
    lemma_product_units(a, b);
    lemma_product_sum(a, b, b);
    lemma_product_units(b, product(a, b));
    lemma_product_sum(a, a, product(b, b));
}

/// Two products of products of four numbers do not depend on the order.
proof fn lemma_mixed_products(a: real, b: real, x: real, y: real)
    ensures
        product(product(a, x), product(b, y)) == product(product(a, y), product(b, x)),
{
    lemma_product_sum(a, x, product(b, y));
    lemma_product_sum(x, b, y);
    lemma_product_units(x, b);
    lemma_product_sum(b, x, y);
    lemma_product_units(x, y);
    lemma_product_sum(b, y, x);
    lemma_product_units(b, y);
    lemma_product_sum(y, b, x);
    lemma_product_sum(a, y, product(b, x));
}

/// Turning a vector keeps its length, and turns the axis itself onto the first coordinate and the vector
/// across it onto the second.
pub proof fn law_turning_keeps_length(x: real, y: real, sn: real, cs: real)
    requires
        product(cs, cs) + product(sn, sn) == 1real,
    ensures
        product(along(x, y, sn, cs), along(x, y, sn, cs)) + product(
            across(x, y, sn, cs),
            across(x, y, sn, cs),
        ) == product(x, x) + product(y, y),
        along(cs, sn, sn, cs) == 1real,
        across(cs, sn, sn, cs) == 0real,
        along(-sn, cs, sn, cs) == 0real,
        across(-sn, cs, sn, cs) == 1real,
{
    let a = product(cs, x);
    let b = product(sn, y);
    let c = product(cs, y);
    let d = product(sn, x);
    lemma_square_of_sum(a, b);
    lemma_square_of_sum(c, d);
    lemma_square_of_product(cs, x);
    lemma_square_of_product(sn, y);
    lemma_square_of_product(cs, y);
    lemma_square_of_product(sn, x);
    lemma_mixed_products(cs, sn, x, y);
    lemma_product_sum(product(cs, cs), product(sn, sn), product(x, x));
    lemma_product_sum(product(cs, cs), product(sn, sn), product(y, y));
    lemma_product_units(1real, product(x, x));
    lemma_product_units(1real, product(y, y));
    lemma_product_units(cs, sn);
    lemma_product_units(sn, cs);
    lemma_product_units(sn, sn);
}

/// The ellipse's own frame is, up to rounding, the image's frame turned by the angle about the centre: its
/// first coordinate is how far a point lies along the turned axis, its second how far across it.
pub proof fn law_frame_is_nearly_turned<A: Arithmetic>(
    r: Reading,
    ellipse: EllipseGeometry,
    x: u64,
    y: u64,
    sn: real,
    cs: real,
    reach: real,
)
    requires
        obeys::<A>(r),
        turn_reads::<A>(r, ellipse.angle_rad, sn, cs),
        finite(x) && finite(y) && finite(ellipse.cx) && finite(ellipse.cy),
        size((r.wide)(x)) <= reach,
        size((r.wide)(y)) <= reach,
        size((r.wide)(ellipse.cx)) <= reach,
        size((r.wide)(ellipse.cy)) <= reach,
        1real <= reach,
        r.step <= 1real,
        2real * reach <= r.top,
        2real * product(2real * reach + 1real, 2real * reach + 1real) + 1real <= r.top,
    ensures
        ({
            let ox = (r.wide)(x) - (r.wide)(ellipse.cx);
            let oy = (r.wide)(y) - (r.wide)(ellipse.cy);
            let (u, v) = ellipse.local_of::<A>(minus_of::<A>(x, ellipse.cx), minus_of::<A>(y, ellipse.cy));
            &&& finite(u)
            &&& finite(v)
            &&& size((r.wide)(u) - along(ox, oy, sn, cs)) <= inner_error(r, reach)
            &&& size((r.wide)(v) - across(ox, oy, sn, cs)) <= inner_error(r, reach)
        }),
{
    let s = sine_of::<A>(ellipse.angle_rad);
    let c = cosine_of::<A>(ellipse.angle_rad);
    let px = minus_of::<A>(x, ellipse.cx);
    let py = minus_of::<A>(y, ellipse.cy);
    let ox = (r.wide)(x) - (r.wide)(ellipse.cx);
    let oy = (r.wide)(y) - (r.wide)(ellipse.cy);
    lemma_minus_rounds::<A>(r, x, ellipse.cx);
    lemma_minus_rounds::<A>(r, y, ellipse.cy);
    lemma_unit_parts(sn, cs);
    assert((r.wide)(negated(s)) == -(r.wide)(s)) by {
        reveal(signs_read);
    }
    assert(finite(negated(s)));
    lemma_inner_near::<A>(r, s, c, py, px, sn, cs, oy, ox, reach);
    lemma_inner_near::<A>(r, c, negated(s), py, px, cs, -sn, oy, ox, reach);
    lemma_product_units(sn, ox);
}

/// The parts of a vector of length one are one in size at most.
proof fn lemma_unit_parts(sn: real, cs: real)
    requires
        product(cs, cs) + product(sn, sn) == 1real,
    ensures
        size(sn) <= 1real,
        size(cs) <= 1real,
{
    lemma_square(sn);
    lemma_square(cs);
    lemma_below_one(sn);
    lemma_below_one(cs);
}

/// A number whose square is one at most is one in size at most.
proof fn lemma_below_one(x: real)
    requires
        product(x, x) <= 1real,
    ensures
        size(x) <= 1real,
{
    if size(x) > 1real {
        lemma_square(x);
        lemma_product_order(size(x), 1real, size(x));
        lemma_product_units(size(x), 1real);
    }
}

/// Products and quotients have the sign that they should, and a quotient of numbers above zero vanishes
/// only where the dividend is within a rounding step of the divisor's size.
#[verifier::opaque]
pub open spec fn signs_compute<A: Arithmetic>(r: Reading) -> bool {
    &&& forall|a: u64, b: u64|
        finite(a) && finite(b) && rank(a) <= 0 <= rank(b) ==> !nan(#[trigger] times_of::<A>(a, b)) && rank(
            times_of::<A>(a, b),
        ) <= 0
    &&& forall|a: u64, b: u64|
        !nan(a) && finite(b) && rank(a) <= 0 < rank(b) ==> !nan(#[trigger] over_of::<A>(a, b)) && rank(
            over_of::<A>(a, b),
        ) <= 0
    &&& forall|a: u64, b: u64|
        finite(a) && finite(b) && 0 <= rank(a) && 0 < rank(b) && (r.wide)(a) > product(r.step, (r.wide)(b))
            ==> rank(#[trigger] over_of::<A>(a, b)) > 0
}

/// A quotient of a number near another by a divisor that is not too small is near the exact quotient.
proof fn lemma_share_near<A: Arithmetic>(
    r: Reading,
    u: u64,
    rx: u64,
    exact: real,
    n: real,
    e0: real,
    e: real,
    least: real,
)
    requires
        quotients_round::<A>(r),
        finite(u),
        finite(rx),
        0real < least <= (r.wide)(rx),
        0real <= r.step,
        0real <= e,
        size((r.wide)(u) - exact) <= e0,
        product(n, (r.wide)(rx)) == exact,
        e0 <= product(e, least),
        size((r.wide)(u)) <= product(r.top, (r.wide)(rx)),
    ensures
        finite(over_of::<A>(u, rx)),
        size((r.wide)(over_of::<A>(u, rx)) - n) <= r.step + e,
{
    let g = (r.wide)(rx);
    lemma_over_rounds::<A>(r, u, rx);
    let q = (r.wide)(over_of::<A>(u, rx));
    lemma_product_sum(q, n, g);
    lemma_product_order(e, least, g);
    lemma_product_sum(r.step, e, g);
    lemma_size_product(q - n, g);
    lemma_product_units(size(q - n), g);
    lemma_product_units(r.step + e, g);
    lemma_product_cancel(g, size(q - n), r.step + e);
}

/// A quotient by a square is bounded, and nearly undone by it.
proof fn lemma_slope<A: Arithmetic>(r: Reading, u: u64, rx: u64, least: real, steep: real)
    requires
        obeys::<A>(r),
        quotients_round::<A>(r),
        finite(u),
        finite(rx),
        0real < least <= (r.wide)(rx),
        product((r.wide)(rx), (r.wide)(rx)) <= r.top,
        r.step < product(least, least),
        size((r.wide)(u)) <= product(steep, product(least, least) - r.step),
        0real <= steep <= r.top,
    ensures
        ({
            let g = over_of::<A>(u, times_of::<A>(rx, rx));
            let b = (r.wide)(times_of::<A>(rx, rx));
            &&& finite(g)
            &&& size((r.wide)(g)) <= steep + r.step
            &&& 0real < b <= product((r.wide)(rx), (r.wide)(rx)) + r.step
            &&& size(product((r.wide)(g), b) - (r.wide)(u)) <= product(r.step, b)
        }),
{
    let w = (r.wide)(rx);
    lemma_squares_order(least, w);
    lemma_square(w);
    lemma_times_rounds::<A>(r, rx, rx);
    let b = (r.wide)(times_of::<A>(rx, rx));
    lemma_product_order(steep, product(least, least) - r.step, b);
    lemma_product_order(b, steep, r.top);
    lemma_product_units(b, r.top);
    lemma_product_units(b, steep);
    lemma_over_rounds::<A>(r, u, times_of::<A>(rx, rx));
    let g = (r.wide)(over_of::<A>(u, times_of::<A>(rx, rx)));
    lemma_size_product(g, b);
    lemma_product_sum(steep, r.step, b);
    lemma_product_units(size(g), b);
    lemma_product_units(steep + r.step, b);
    lemma_product_cancel(b, size(g), steep + r.step);
}

/// How far the computed square of the normalised radius can be from the exact one.
pub open spec fn radius_error(r: Reading, far: real, off: real) -> real {
    2real * product(off, 4real * far + 1real) + 2real * r.step
}

/// The computed normalised radius is near the root of the exact square.
pub proof fn lemma_radius_near<A: Arithmetic>(r: Reading, nx: u64, ny: u64, n: real, m: real, far: real, off: real)
    requires
        obeys::<A>(r),
        roots_round::<A>(r),
        finite(nx),
        finite(ny),
        size((r.wide)(nx) - n) <= off,
        size((r.wide)(ny) - m) <= off,
        size(n) <= far,
        size(m) <= far,
        0real <= off <= 1real,
        2real * product(2real * far + 1real, 2real * far + 1real) + 2real <= r.top,
        r.step <= 1real,
        squares_round_up::<A>(),
        orders_read(r),
    ensures
        ({
            let q = fused_of::<A>(nx, nx, times_of::<A>(ny, ny));
            let f = root_of::<A>(q);
            &&& finite(f)
            &&& 0real <= (r.wide)(f)
            &&& product(n, n) + product(m, m) - radius_error(r, far, off) <= product(
                (r.wide)(f) + r.step,
                (r.wide)(f) + r.step,
            )
            &&& r.step <= (r.wide)(f) ==> product((r.wide)(f) - r.step, (r.wide)(f) - r.step) <= product(n, n)
                + product(m, m) + radius_error(r, far, off)
            &&& (r.wide)(f) <= 2real * (2real * far + 1real) + 2real
        }),
{
    let x = (r.wide)(nx);
    let y = (r.wide)(ny);
    lemma_product_near(x, x, n, n, far, off);
    lemma_product_near(y, y, m, m, far, off);
    lemma_square(x);
    lemma_square(y);
    lemma_times_rounds::<A>(r, ny, ny);
    lemma_fused_rounds::<A>(r, nx, nx, times_of::<A>(ny, ny));
    let q = fused_of::<A>(nx, nx, times_of::<A>(ny, ny));
    lemma_square_reads::<A>(r, nx, ny);
    lemma_root_rounds::<A>(r, q);
    let f = (r.wide)(root_of::<A>(q));
    let k = 2real * far + 1real;
    if f > 2real * k + 2real {
        lemma_squares_order(2real * k + 1real, f - r.step);
        lemma_square_of_sum(2real * k, 1real);
        lemma_product_sum(k, k, 2real * k);
        lemma_product_sum(k, k, k);
        assert(k + k == 2real * k);
        lemma_product_units(2real * k, 1real);
        lemma_product_units(1real, 1real);
        lemma_square(k);
        assert((r.wide)(q) <= 2real * product(k, k) + 2real);
    }
}

/// The computed sum of two squares is not below zero.
#[verifier::opaque]
pub open spec fn squares_round_up<A: Arithmetic>() -> bool {
    forall|a: u64, b: u64|
        finite(a) && finite(b) ==> rank(#[trigger] fused_of::<A>(a, a, times_of::<A>(b, b))) >= 0
}

/// The computed sum of two squares does not read below zero.
proof fn lemma_square_reads<A: Arithmetic>(r: Reading, a: u64, b: u64)
    requires
        obeys::<A>(r),
        squares_round_up::<A>(),
        orders_read(r),
        finite(a),
        finite(b),
        finite(fused_of::<A>(a, a, times_of::<A>(b, b))),
    ensures
        0real <= (r.wide)(fused_of::<A>(a, a, times_of::<A>(b, b))),
{
    reveal(squares_round_up);
    lemma_zero_reads::<A>(r);
    lemma_order_reads(r, ZERO, fused_of::<A>(a, a, times_of::<A>(b, b)));
}

/// Where the computed slope vanishes a coordinate is small against its radius.
proof fn lemma_flat_share(g: real, b: real, u: real, exact: real, n: real, w: real, step: real, e: real, least: real)
    requires
        0real <= step,
        0real <= e,
        size(g) <= step,
        0real < b <= product(w, w) + step,
        size(product(g, b) - u) <= product(step, b),
        size(u - exact) <= product(e, least),
        product(n, w) == exact,
        0real < least <= w,
        2real * step <= least,
        8real * product(step, w) <= 1real,
        4real * (step + e) <= 1real,
    ensures
        2real * size(n) <= 1real,
{
    lemma_size_product(g, b);
    lemma_product_order(b, size(g), step);
    lemma_product_units(b, step);
    assert(size(u) <= 2real * product(step, b));
    lemma_product_order(step, b, product(w, w) + step);
    lemma_product_sum(product(w, w), step, step);
    lemma_product_sum(step, w, w);
    lemma_product_units(step, product(w, w));
    lemma_product_order(w, 8real * product(step, w), 1real);
    lemma_product_units(w, 1real);
    lemma_eighths(product(step, w), w);
    lemma_product_order(step, 2real * step, w);
    lemma_product_sum(step, step, step);
    assert(step + step == 2real * step);
    lemma_product_order(e, least, w);
    lemma_product_sum(step, e, w);
    lemma_product_order(w, 4real * (step + e), 1real);
    lemma_quarters(step + e, w);
    lemma_size_product(n, w);
    lemma_product_units(size(n), w);
    assert(2real * product(size(n), w) <= w);
    lemma_product_sum(size(n), size(n), w);
    lemma_product_units(w, 2real * size(n));
    assert(size(n) + size(n) == 2real * size(n));
    lemma_product_cancel(w, 2real * size(n), 1real);
}

/// Eight times a factor is eight times the product.
proof fn lemma_eighths(x: real, w: real)
    ensures
        product(w, 8real * x) == 8real * product(x, w),
{
    lemma_product_sum(x, x, w);
    lemma_product_sum(2real * x, 2real * x, w);
    lemma_product_sum(4real * x, 4real * x, w);
    lemma_product_units(w, x);
    assert(x + x == 2real * x && 2real * x + 2real * x == 4real * x && 4real * x + 4real * x == 8real * x);
}

/// Four times a factor is four times the product.
proof fn lemma_quarters(x: real, w: real)
    ensures
        product(w, 4real * x) == 4real * product(x, w),
{
    lemma_product_sum(x, x, w);
    lemma_product_sum(2real * x, 2real * x, w);
    lemma_product_units(w, x);
    assert(x + x == 2real * x && 2real * x + 2real * x == 4real * x);
}

/// A length that is computed as nothing is that of coordinates that are hardly anything.
proof fn lemma_no_length(p: real, q: real, step: real)
    requires
        0real <= step,
        product(p, p) + product(q, q) <= product(step, step),
    ensures
        size(p) <= step,
        size(q) <= step,
{
    lemma_square(p);
    lemma_square(q);
    if size(p) > step {
        lemma_product_order(size(p), step, size(p));
        lemma_strictly(size(p), step);
    }
    if size(q) > step {
        lemma_strictly(size(q), step);
    }
}

/// The square of a greater number is greater.
proof fn lemma_strictly(a: real, b: real)
    requires
        0real <= b < a,
    ensures
        product(b, b) < product(a, a),
{
    lemma_product_order(b, b, a);
    lemma_product_order(a, b, a);
    if product(a, a) <= product(b, b) {
        lemma_product_cancel(a, a, b);
    }
}

/// What is above one and three small parts in its square is above one and one of them.
proof fn lemma_root_above(f: real, mu: real)
    requires
        0real <= f,
        0real <= mu <= 1real,
        1real + 3real * mu < product(f, f),
    ensures
        1real + mu < f,
{
    if f <= 1real + mu {
        lemma_squares_order(f, 1real + mu);
        lemma_square_of_sum(1real, mu);
        lemma_product_units(1real, mu);
        lemma_product_units(1real, 1real);
        lemma_product_order(mu, mu, 1real);
        lemma_product_units(mu, 1real);
    }
}

/// What is below one and three small parts in its square is below one and one of them.
proof fn lemma_root_below(f: real, mu: real)
    requires
        0real <= f,
        0real <= mu <= 1real,
        product(f, f) < 1real - 3real * mu,
    ensures
        f < 1real - mu,
{
    if f >= 1real - mu {
        lemma_squares_order(1real - mu, f);
        lemma_square_of_sum(1real, mu);
        lemma_product_units(1real, mu);
        lemma_product_units(1real, 1real);
        lemma_square(mu);
    }
}

/// A point whose computed radius is above one is not covered.
proof fn lemma_outside<A: Arithmetic>(r: Reading, f: u64, grad: u64, mu: real, far: real, steep: real)
    requires
        obeys::<A>(r),
        orders_read(r),
        signs_compute::<A>(r),
        finite(f),
        finite(grad),
        rank(grad) != 0,
        0real <= (r.wide)(grad) <= 2real * steep + 3real,
        1real + mu - r.step < (r.wide)(f) <= 4real * far + 4real,
        0real <= steep,
        product(r.step, 2real * steep + 8real) < mu,
        mu <= 1real,
        r.step <= 1real,
        0real <= far,
        product(4real * far + 4real, 4real * far + 4real) + 4real * far + 4real <= r.top,
    ensures
        rank(f) != 0,
        hard_edge(over_of::<A>(times_of::<A>(minus_of::<A>(f, ONE), f), grad)) == ZERO,
{
    let wf = (r.wide)(f);
    reveal(signs_read);
    lemma_zero_reads::<A>(r);
    assert(finite(ONE));
    lemma_product_sum(2real * steep + 3real, 5real, r.step);
    assert(2real * steep + 3real + 5real == 2real * steep + 8real);
    lemma_product_sum(4real, 1real, r.step);
    lemma_quarters(1real, r.step);
    lemma_product_units(r.step, 1real);
    assert(4real + 1real == 5real);
    lemma_product_order(r.step, 0real, 2real * steep + 3real);
    lemma_product_units(r.step, 0real);
    lemma_square(4real * far + 4real);
    lemma_minus_rounds::<A>(r, f, ONE);
    let m = minus_of::<A>(f, ONE);
    let wm = (r.wide)(m);
    lemma_product_order(wm, 1real, wf);
    lemma_product_units(wm, 1real);
    lemma_size_product(wm, wf);
    lemma_product_order(wm, wf, 4real * far + 4real);
    lemma_product_order(4real * far + 4real, wm, 4real * far + 4real);
    lemma_times_rounds::<A>(r, m, f);
    let a = times_of::<A>(m, f);
    lemma_product_order(r.step, (r.wide)(grad), 2real * steep + 3real);
    assert((r.wide)(a) > product(r.step, (r.wide)(grad)));
    lemma_order_reads(r, ZERO, a);
    lemma_order_reads(r, ZERO, grad);
    reveal(signs_compute);
}

/// A point whose computed radius is below one is covered.
proof fn lemma_inside<A: Arithmetic>(r: Reading, f: u64, grad: u64)
    requires
        obeys::<A>(r),
        orders_read(r),
        signs_compute::<A>(r),
        finite(f),
        finite(grad),
        rank(grad) != 0,
        0real <= (r.wide)(grad),
        0real <= (r.wide)(f),
        (r.wide)(f) - 1real + r.step <= 0real,
        1real <= r.top,
    ensures
        hard_edge(over_of::<A>(times_of::<A>(minus_of::<A>(f, ONE), f), grad)) == ONE,
{
    reveal(signs_read);
    lemma_zero_reads::<A>(r);
    assert(finite(ONE));
    lemma_minus_rounds::<A>(r, f, ONE);
    let m = minus_of::<A>(f, ONE);
    lemma_order_reads(r, m, ZERO);
    lemma_order_reads(r, ZERO, f);
    lemma_order_reads(r, ZERO, grad);
    reveal(signs_compute);
    let a = times_of::<A>(m, f);
    assert(!nan(a) && rank(a) <= 0);
    let sd = over_of::<A>(a, grad);
    assert(!nan(sd) && rank(sd) <= 0);
    assert(!nan(ZERO) && rank(ZERO) == 0);
}

/// The place of a point against an ellipse: the square of its radius, with the ellipse's boundary at one.
pub open spec fn roundness(x: real, y: real, sn: real, cs: real, rx: real, ry: real) -> real {
    let n = ratio(along(x, y, sn, cs), rx);
    let m = ratio(across(x, y, sn, cs), ry);
    product(n, n) + product(m, m)
}

/// How rounding is small against an ellipse and the points that are asked about: the radii lie between
/// `least` and `most`, and what the other numbers bound is small or large enough.
pub open spec fn rounding_is_fine(
    r: Reading,
    reach: real,
    least: real,
    most: real,
    far: real,
    steep: real,
    e: real,
    mu: real,
) -> bool {
    &&& 1real <= reach
    &&& 0real < least <= most
    &&& 0real <= e
    &&& 4real * (r.step + e) <= 1real
    &&& 2real * r.step <= least
    &&& r.step < product(least, least)
    &&& 8real * product(r.step, most) <= 1real
    &&& product(most, most) <= r.top
    &&& 0real <= far
    &&& far + 1real <= r.top
    &&& 4real * reach <= product(far, least)
    &&& inner_error(r, reach) <= product(e, least)
    &&& 2real * reach <= r.top
    &&& 2real * product(2real * reach + 1real, 2real * reach + 1real) + 1real <= r.top
    &&& 2real * product(2real * far + 1real, 2real * far + 1real) + 2real <= r.top
    &&& product(4real * far + 4real, 4real * far + 4real) + 4real * far + 4real <= r.top
    &&& 0real <= steep
    &&& 2real * steep + 2real <= r.top
    &&& product(far + 1real, least) <= product(steep, product(least, least) - r.step)
    &&& product(r.step, 2real * steep + 8real) < mu
    &&& mu <= 1real
}

/// How near the boundary a point may be for rounding to decide whether it is covered.
pub open spec fn edge_error(r: Reading, far: real, e: real, mu: real) -> real {
    radius_error(r, far, r.step + e) + 3real * mu
}

/// How far along and across an axis a point within reach can be.
proof fn lemma_turned_size(x: real, y: real, sn: real, cs: real, reach: real)
    requires
        size(x) <= 2real * reach,
        size(y) <= 2real * reach,
        product(cs, cs) + product(sn, sn) == 1real,
    ensures
        size(along(x, y, sn, cs)) <= 4real * reach,
        size(across(x, y, sn, cs)) <= 4real * reach,
{
    lemma_unit_parts(sn, cs);
    lemma_part(cs, x, reach);
    lemma_part(sn, y, reach);
    lemma_part(cs, y, reach);
    lemma_part(sn, x, reach);
}

/// A part of a number.
proof fn lemma_part(c: real, x: real, reach: real)
    requires
        size(c) <= 1real,
        size(x) <= 2real * reach,
    ensures
        size(product(c, x)) <= 2real * reach,
{
    lemma_size_product(c, x);
    lemma_product_order(size(x), size(c), 1real);
    lemma_product_units(size(x), 1real);
    lemma_product_units(size(x), size(c));
}

/// What is computed of a point in an ellipse's own frame: the radius and the slope.
proof fn lemma_local_near<A: Arithmetic>(
    r: Reading,
    ellipse: EllipseGeometry,
    u: u64,
    v: u64,
    ax: real,
    ay: real,
    reach: real,
    least: real,
    most: real,
    far: real,
    steep: real,
    e: real,
    mu: real,
)
    requires
        obeys::<A>(r),
        quotients_round::<A>(r),
        roots_round::<A>(r),
        lengths_round::<A>(r),
        orders_read(r),
        squares_round_up::<A>(),
        rounding_is_fine(r, reach, least, most, far, steep, e, mu),
        finite(u) && finite(v) && finite(ellipse.rx) && finite(ellipse.ry),
        least <= (r.wide)(ellipse.rx) <= most,
        least <= (r.wide)(ellipse.ry) <= most,
        size((r.wide)(u) - ax) <= inner_error(r, reach),
        size((r.wide)(v) - ay) <= inner_error(r, reach),
        size(ax) <= 4real * reach,
        size(ay) <= 4real * reach,
    ensures
        ({
            let n = ratio(ax, (r.wide)(ellipse.rx));
            let m = ratio(ay, (r.wide)(ellipse.ry));
            let nx = over_of::<A>(u, ellipse.rx);
            let ny = over_of::<A>(v, ellipse.ry);
            let f = root_of::<A>(fused_of::<A>(nx, nx, times_of::<A>(ny, ny)));
            let grad = hypotenuse_of::<A>(
                over_of::<A>(u, times_of::<A>(ellipse.rx, ellipse.rx)),
                over_of::<A>(v, times_of::<A>(ellipse.ry, ellipse.ry)),
            );
            &&& finite(f)
            &&& 0real <= (r.wide)(f) <= 4real * far + 4real
            &&& product(n, n) + product(m, m) - radius_error(r, far, r.step + e) <= product(
                (r.wide)(f) + r.step,
                (r.wide)(f) + r.step,
            )
            &&& r.step <= (r.wide)(f) ==> product((r.wide)(f) - r.step, (r.wide)(f) - r.step) <= product(n, n)
                + product(m, m) + radius_error(r, far, r.step + e)
            &&& finite(grad)
            &&& 0real <= (r.wide)(grad) <= 2real * steep + 3real
            &&& rank(grad) == 0 ==> product(n, n) + product(m, m) <= 1real
        }),
{
    let rx = (r.wide)(ellipse.rx);
    let ry = (r.wide)(ellipse.ry);
    let n = ratio(ax, rx);
    let m = ratio(ay, ry);
    lemma_ratio(ax, rx);
    lemma_ratio(ay, ry);
    lemma_product_units(n, rx);
    lemma_product_units(m, ry);
    lemma_reaches(u_size(r, u), ax, n, rx, inner_error(r, reach), reach, least, far, e, r.top);
    lemma_reaches(u_size(r, v), ay, m, ry, inner_error(r, reach), reach, least, far, e, r.top);
    lemma_share_near::<A>(r, u, ellipse.rx, ax, n, inner_error(r, reach), e, least);
    lemma_share_near::<A>(r, v, ellipse.ry, ay, m, inner_error(r, reach), e, least);
    let nx = over_of::<A>(u, ellipse.rx);
    let ny = over_of::<A>(v, ellipse.ry);
    lemma_radius_near::<A>(r, nx, ny, n, m, far, r.step + e);
    lemma_squares_order(rx, most);
    lemma_squares_order(ry, most);
    lemma_slope::<A>(r, u, ellipse.rx, least, steep);
    lemma_slope::<A>(r, v, ellipse.ry, least, steep);
    let gx = over_of::<A>(u, times_of::<A>(ellipse.rx, ellipse.rx));
    let gy = over_of::<A>(v, times_of::<A>(ellipse.ry, ellipse.ry));
    lemma_length_rounds::<A>(r, gx, gy);
    let grad = hypotenuse_of::<A>(gx, gy);
    lemma_length_bound((r.wide)(gx), (r.wide)(gy), (r.wide)(grad), r.step, steep + r.step);
    if rank(grad) == 0 {
        reveal(signs_read);
        assert((r.wide)(grad) == 0real);
        lemma_no_length((r.wide)(gx), (r.wide)(gy), r.step);
        lemma_product_order(r.step, rx, most);
        lemma_product_order(r.step, ry, most);
        lemma_flat_share(
            (r.wide)(gx),
            (r.wide)(times_of::<A>(ellipse.rx, ellipse.rx)),
            (r.wide)(u),
            ax,
            n,
            rx,
            r.step,
            e,
            least,
        );
        lemma_flat_share(
            (r.wide)(gy),
            (r.wide)(times_of::<A>(ellipse.ry, ellipse.ry)),
            (r.wide)(v),
            ay,
            m,
            ry,
            r.step,
            e,
            least,
        );
        lemma_halves(n);
        lemma_halves(m);
    }
}

/// The size that a number stands for.
spec fn u_size(r: Reading, u: u64) -> real {
    size((r.wide)(u))
}

/// The square of a number of a half at most is a half at most.
proof fn lemma_halves(n: real)
    requires
        2real * size(n) <= 1real,
    ensures
        2real * product(n, n) <= 1real,
{
    lemma_square(n);
    lemma_product_order(size(n), size(n), 1real);
    lemma_product_units(size(n), 1real);
}

/// Coordinates within reach are within reach against the radii.
proof fn lemma_reaches(
    s: real,
    exact: real,
    n: real,
    w: real,
    off: real,
    reach: real,
    least: real,
    far: real,
    e: real,
    top: real,
)
    requires
        s <= size(exact) + off,
        size(exact) <= 4real * reach,
        4real * reach <= product(far, least),
        off <= product(e, least),
        0real < least <= w,
        0real <= e <= 1real,
        0real <= far,
        far + 1real <= top,
        product(n, w) == exact,
    ensures
        size(n) <= far,
        s <= product(far + 1real, least),
        s <= product(top, w),
{
    lemma_product_order(far, least, w);
    lemma_size_product(n, w);
    lemma_product_units(size(n), w);
    lemma_product_units(far, w);
    lemma_product_cancel(w, size(n), far);
    lemma_product_sum(far, 1real, least);
    lemma_product_order(least, e, 1real);
    lemma_product_units(least, 1real);
    lemma_product_units(least, e);
    lemma_product_order(far + 1real, least, w);
    lemma_product_order(w, far + 1real, top);
}

/// With a hard edge a mask covers, up to rounding, the points inside the turned ellipse and on its boundary,
/// and no others: a point is covered or it is not; one that is covered has a radius, against the boundary's,
/// of not much more than one, one that is not of not much less.
pub proof fn law_hard_mask_is_nearly_the_ellipse<A: Arithmetic>(
    r: Reading,
    ellipse: EllipseGeometry,
    x: u64,
    y: u64,
    sn: real,
    cs: real,
    reach: real,
    least: real,
    most: real,
    far: real,
    steep: real,
    e: real,
    mu: real,
)
    requires
        obeys::<A>(r),
        quotients_round::<A>(r),
        roots_round::<A>(r),
        lengths_round::<A>(r),
        orders_read(r),
        squares_round_up::<A>(),
        signs_compute::<A>(r),
        turn_reads::<A>(r, ellipse.angle_rad, sn, cs),
        rounding_is_fine(r, reach, least, most, far, steep, e, mu),
        finite(x) && finite(y) && finite(ellipse.cx) && finite(ellipse.cy),
        finite(ellipse.rx) && finite(ellipse.ry),
        size((r.wide)(x)) <= reach,
        size((r.wide)(y)) <= reach,
        size((r.wide)(ellipse.cx)) <= reach,
        size((r.wide)(ellipse.cy)) <= reach,
        least <= (r.wide)(ellipse.rx) <= most,
        least <= (r.wide)(ellipse.ry) <= most,
        at_most(ellipse.half_width_px, ZERO),
    ensures
        ({
            let q = roundness(
                (r.wide)(x) - (r.wide)(ellipse.cx),
                (r.wide)(y) - (r.wide)(ellipse.cy),
                sn,
                cs,
                (r.wide)(ellipse.rx),
                (r.wide)(ellipse.ry),
            );
            let c = ellipse.coverage_of::<A>(x, y);
            &&& c == ONE || c == ZERO
            &&& c == ONE ==> q <= 1real + edge_error(r, far, e, mu)
            &&& c == ZERO ==> 1real - edge_error(r, far, e, mu) <= q
        }),
{
    let ox = (r.wide)(x) - (r.wide)(ellipse.cx);
    let oy = (r.wide)(y) - (r.wide)(ellipse.cy);
    let (u, v) = ellipse.local_of::<A>(minus_of::<A>(x, ellipse.cx), minus_of::<A>(y, ellipse.cy));
    law_frame_is_nearly_turned::<A>(r, ellipse, x, y, sn, cs, reach);
    lemma_turned_size(ox, oy, sn, cs, reach);
    let ax = along(ox, oy, sn, cs);
    let ay = across(ox, oy, sn, cs);
    lemma_local_near::<A>(r, ellipse, u, v, ax, ay, reach, least, most, far, steep, e, mu);
    let nx = over_of::<A>(u, ellipse.rx);
    let ny = over_of::<A>(v, ellipse.ry);
    let f = root_of::<A>(fused_of::<A>(nx, nx, times_of::<A>(ny, ny)));
    let grad = hypotenuse_of::<A>(
        over_of::<A>(u, times_of::<A>(ellipse.rx, ellipse.rx)),
        over_of::<A>(v, times_of::<A>(ellipse.ry, ellipse.ry)),
    );
    let q = roundness(ox, oy, sn, cs, (r.wide)(ellipse.rx), (r.wide)(ellipse.ry));
    let wf = (r.wide)(f);
    lemma_product_order(r.step, 8real, 2real * steep + 8real);
    lemma_eighths(1real, r.step);
    lemma_product_units(1real, r.step);
    assert(8real * r.step < mu);
    lemma_margin(r, far, e);
    assert(ONE != ZERO);
    if q > 1real + edge_error(r, far, e, mu) {
        lemma_root_above(wf + r.step, mu);
        lemma_outside::<A>(r, f, grad, mu, far, steep);
    }
    if q < 1real - edge_error(r, far, e, mu) {
        if r.step <= wf {
            lemma_root_below(wf - r.step, mu);
        }
        if rank(f) != 0 && rank(grad) != 0 {
            lemma_inside::<A>(r, f, grad);
        }
    }
}

/// The error of a radius is not negative.
proof fn lemma_margin(r: Reading, far: real, e: real)
    requires
        0real <= far,
        0real <= e,
        0real <= r.step,
    ensures
        0real <= radius_error(r, far, r.step + e),
{
    lemma_product_order(r.step + e, 0real, 4real * far + 1real);
    lemma_product_units(r.step + e, 0real);
}

/// With a hard edge no point that is farther from the centre than the greater radius is covered, up to
/// rounding.
pub proof fn law_hard_mask_is_bounded<A: Arithmetic>(
    r: Reading,
    ellipse: EllipseGeometry,
    x: u64,
    y: u64,
    sn: real,
    cs: real,
    reach: real,
    least: real,
    most: real,
    far: real,
    steep: real,
    e: real,
    mu: real,
)
    requires
        obeys::<A>(r),
        quotients_round::<A>(r),
        roots_round::<A>(r),
        lengths_round::<A>(r),
        orders_read(r),
        squares_round_up::<A>(),
        signs_compute::<A>(r),
        turn_reads::<A>(r, ellipse.angle_rad, sn, cs),
        rounding_is_fine(r, reach, least, most, far, steep, e, mu),
        finite(x) && finite(y) && finite(ellipse.cx) && finite(ellipse.cy),
        finite(ellipse.rx) && finite(ellipse.ry),
        size((r.wide)(x)) <= reach,
        size((r.wide)(y)) <= reach,
        size((r.wide)(ellipse.cx)) <= reach,
        size((r.wide)(ellipse.cy)) <= reach,
        least <= (r.wide)(ellipse.rx) <= most,
        least <= (r.wide)(ellipse.ry) <= most,
        at_most(ellipse.half_width_px, ZERO),
        ellipse.coverage_of::<A>(x, y) == ONE,
    ensures
        ({
            let ox = (r.wide)(x) - (r.wide)(ellipse.cx);
            let oy = (r.wide)(y) - (r.wide)(ellipse.cy);
            product(ox, ox) + product(oy, oy) <= product(
                1real + edge_error(r, far, e, mu),
                product(most, most),
            )
        }),
{
    law_hard_mask_is_nearly_the_ellipse::<A>(r, ellipse, x, y, sn, cs, reach, least, most, far, steep, e, mu);
    let ox = (r.wide)(x) - (r.wide)(ellipse.cx);
    let oy = (r.wide)(y) - (r.wide)(ellipse.cy);
    let rx = (r.wide)(ellipse.rx);
    let ry = (r.wide)(ellipse.ry);
    let ax = along(ox, oy, sn, cs);
    let ay = across(ox, oy, sn, cs);
    law_turning_keeps_length(ox, oy, sn, cs);
    let n = ratio(ax, rx);
    let m = ratio(ay, ry);
    lemma_ratio(ax, rx);
    lemma_ratio(ay, ry);
    lemma_square_of_product(rx, n);
    lemma_square_of_product(ry, m);
    lemma_squares_order(rx, most);
    lemma_squares_order(ry, most);
    lemma_square(n);
    lemma_square(m);
    let top = product(most, most);
    lemma_product_order(product(n, n), product(rx, rx), top);
    lemma_product_order(product(m, m), product(ry, ry), top);
    lemma_product_sum(product(n, n), product(m, m), top);
    lemma_product_units(top, product(n, n));
    lemma_product_units(top, product(m, m));
    lemma_square(most);
    lemma_product_order(top, product(n, n) + product(m, m), 1real + edge_error(r, far, e, mu));
}

/// Every sample of a mask is the stored coverage of its pixel's centre, which is half a pixel from the
/// pixel's edges.
pub proof fn law_mask_samples_centres<A: Arithmetic>(
    r: Reading,
    inputs: Map<Seq<char>, ResourceValue>,
    params: Json,
    source: ValueView,
    n: int,
    i: int,
    j: int,
) -> (centre: (u64, u64))
    requires
        obeys::<A>(r),
        places_read::<A>(r, n),
        port_view(inputs, "extent_from"@) == Some(source),
        drawn::<A>(inputs, params) is Ok,
        0 <= i < source.descriptor.extent().width <= n,
        0 <= j < source.descriptor.extent().height <= n,
        n as real + 1real <= r.top,
    ensures
        geometry_of(params) is Ok,
        ({
            let (x, y) = centre;
            let extent = source.descriptor.extent();
            let out = drawn::<A>(inputs, params)->Ok_0;
            &&& finite(x) && finite(y)
            &&& size((r.wide)(x) - (i as real + 1real / 2real)) <= r.step
            &&& size((r.wide)(y) - (j as real + 1real / 2real)) <= r.step
            &&& out.channels == 1
            &&& out.samples.len() == extent.area()
            &&& out.samples[at(i, j, extent.width as int)] == narrow_of::<A>(
                (geometry_of(params)->Ok_0).coverage_of::<A>(x, y),
            )
        }),
{
    let extent = source.descriptor.extent();
    lemma_center_reads::<A>(r, n, i);
    lemma_center_reads::<A>(r, n, j);
    lemma_at_bounds(i, j, extent.width as int, extent.height as int);
    lemma_at_inverse(i, j, extent.width as int);
    (center_of::<A>(i), center_of::<A>(j))
}

} // verus!
