//! What gradients are in an arithmetic that rounds: along a line the parameter is nearly the projection on
//! the axis over its squared length, about a centre nearly the distance over the radius, and between two
//! stops a colour is nearly on the straight line between theirs.
use crate::arithmetic::{
    fused_of, hypotenuse_of, minus_of, over_of, sample_fused_of, sample_minus_of, sample_over_of, times_of,
    Arithmetic,
};
use crate::binary::{clamped_unit, finite, sample_at_most, sample_finite, sample_less, ONE, ZERO};
use crate::gradient::{
    center_of, color_of, drawn, end_errors, linear_of, pixel_parameter, plan_of, radial_of, rasterized,
    start_errors, upper_of, Geometry, Shape, StopView,
};
use crate::ir::{Error, Extent};
use crate::json::Json;
use crate::lattice::{lemma_raster_sample, sample_at};
use crate::params::pair_in;
use crate::ports::port_view;
use crate::rounding::{
    lemma_center_reads, lemma_fused_rounds, lemma_length_rounds, lemma_minus_rounds, lemma_narrow_rounds,
    lemma_order_reads, lemma_over_rounds, lemma_product_cancel, lemma_product_order, lemma_product_sum,
    lemma_product_units, lemma_sample_order_reads, lemma_size_product, lemma_times_rounds, lemma_zero_reads,
    lengths_round, obeys, orders_read, places_read, product, quotients_round, samples_compute, signs_read, size,
    Reading,
};
use crate::value::{ResourceValue, ValueView};
use vstd::prelude::*;

verus! {

/// The inner product of two vectors.
pub open spec fn inner(ax: real, ay: real, bx: real, by: real) -> real {
    product(ax, bx) + product(ay, by)
}

/// How far an inner product of differences of coordinates within `reach` can be from the exact one.
pub open spec fn inner_error(r: Reading, reach: real) -> real {
    product(r.step, 8real * reach + 4real)
}

/// A product of numbers near others is near their product.
pub proof fn lemma_product_near(p: real, d: real, x: real, y: real, reach: real, step: real)
    requires
        size(p - x) <= step,
        size(d - y) <= step,
        size(x) <= 2real * reach,
        size(y) <= 2real * reach,
        0real <= step <= 1real,
    ensures
        size(product(p, d) - product(x, y)) <= product(step, 4real * reach + 1real),
        size(product(p, d)) <= product(2real * reach + 1real, 2real * reach + 1real),
{
    lemma_product_sum(p, x, d);
    lemma_product_sum(d, y, x);
    lemma_product_units(x, d);
    lemma_product_units(x, y);
    lemma_size_product(p - x, d);
    lemma_size_product(d - y, x);
    lemma_product_order(size(d), size(p - x), step);
    lemma_product_order(step, size(d), 2real * reach + 1real);
    lemma_product_order(size(x), size(d - y), step);
    lemma_product_order(step, size(x), 2real * reach);
    lemma_product_units(size(d - y), size(x));
    lemma_product_units(step, size(x));
    lemma_product_units(step, size(d));
    lemma_product_sum(2real * reach + 1real, 2real * reach, step);
    assert(2real * reach + 1real + 2real * reach == 4real * reach + 1real);
    assert(product(p, d) - product(x, y) == product(p - x, d) + product(d - y, x));
    lemma_size_product(p, d);
    lemma_product_order(size(p), size(d), 2real * reach + 1real);
    lemma_product_order(2real * reach + 1real, size(p), 2real * reach + 1real);
}

/// A computed sum of two products of numbers near others is near the exact one.
pub proof fn lemma_inner_near<A: Arithmetic>(
    r: Reading,
    px: u64,
    py: u64,
    dx: u64,
    dy: u64,
    x: real,
    y: real,
    u: real,
    v: real,
    reach: real,
)
    requires
        obeys::<A>(r),
        finite(px) && finite(py) && finite(dx) && finite(dy),
        size((r.wide)(px) - x) <= r.step,
        size((r.wide)(py) - y) <= r.step,
        size((r.wide)(dx) - u) <= r.step,
        size((r.wide)(dy) - v) <= r.step,
        size(x) <= 2real * reach,
        size(y) <= 2real * reach,
        size(u) <= 2real * reach,
        size(v) <= 2real * reach,
        r.step <= 1real,
        2real * product(2real * reach + 1real, 2real * reach + 1real) + 1real <= r.top,
    ensures
        finite(fused_of::<A>(px, dx, times_of::<A>(py, dy))),
        size((r.wide)(fused_of::<A>(px, dx, times_of::<A>(py, dy))) - inner(x, y, u, v)) <= inner_error(
            r,
            reach,
        ),
{
    lemma_product_near((r.wide)(px), (r.wide)(dx), x, u, reach, r.step);
    lemma_product_near((r.wide)(py), (r.wide)(dy), y, v, reach, r.step);
    lemma_times_rounds::<A>(r, py, dy);
    lemma_fused_rounds::<A>(r, px, dx, times_of::<A>(py, dy));
    lemma_product_sum(4real * reach + 1real, 4real * reach + 1real, r.step);
    lemma_product_sum(8real * reach + 2real, 2real, r.step);
    lemma_product_sum(1real, 1real, r.step);
    lemma_product_units(r.step, 1real);
    assert(4real * reach + 1real + (4real * reach + 1real) == 8real * reach + 2real);
    assert(8real * reach + 2real + 2real == 8real * reach + 4real);
    assert(1real + 1real == 2real);
}

/// A quotient of numbers near others is near in the sense of its product with the divisor.
proof fn lemma_quotient_near(t: real, l: real, n: real, length: real, along: real, e: real, step: real)
    requires
        size(product(t, l) - n) <= product(step, size(l)),
        size(n - along) <= e,
        size(l - length) <= e,
        0real <= e,
        0real <= step,
        0real <= length,
    ensures
        size(product(t, length) - along) <= product(size(t) + 1real, e) + product(step, length + e),
{
    lemma_product_sum(length, l, t);
    lemma_size_product(t, length - l);
    lemma_product_order(size(t), size(length - l), e);
    lemma_product_sum(size(t), 1real, e);
    lemma_product_units(1real, e);
    lemma_product_order(step, size(l), length + e);
    assert(product(t, length) - product(t, l) == product(t, length - l));
}

/// How far the parameter of a line, times the squared length of its axis, can be from the projection on
/// that axis.
pub open spec fn parameter_error(r: Reading, reach: real, t: real, length: real) -> real {
    product(size(t) + 1real, inner_error(r, reach)) + product(r.step, length + inner_error(r, reach))
}

/// Along a line from a start to an end the parameter is, up to rounding, the projection of the way from the
/// start on the way to the end, over the squared length of the latter: zero at the start, one at the end,
/// unmoved by a move across, and one more after a move along the whole axis.
pub proof fn law_linear_parameter_is_near<A: Arithmetic>(
    r: Reading,
    params: Json,
    ax: u64,
    ay: u64,
    bx: u64,
    by: u64,
    geometry: Geometry,
    x: u64,
    y: u64,
    reach: real,
)
    requires
        obeys::<A>(r),
        quotients_round::<A>(r),
        orders_read(r),
        pair_in(params, "start_px"@, start_errors()) == Ok::<(u64, u64), Error>((ax, ay)),
        pair_in(params, "end_px"@, end_errors()) == Ok::<(u64, u64), Error>((bx, by)),
        linear_of::<A>(params) == Ok::<Geometry, Error>(geometry),
        finite(ax) && finite(ay) && finite(bx) && finite(by) && finite(x) && finite(y),
        size((r.wide)(ax)) <= reach,
        size((r.wide)(ay)) <= reach,
        size((r.wide)(bx)) <= reach,
        size((r.wide)(by)) <= reach,
        size((r.wide)(x)) <= reach,
        size((r.wide)(y)) <= reach,
        r.step <= 1real,
        2real * reach <= r.top,
        2real * product(2real * reach + 1real, 2real * reach + 1real) + 1real <= r.top,
        2real * product(2real * reach + 1real, 2real * reach + 1real) + inner_error(r, reach) <= product(
            r.top,
            squared_length(r, ax, ay, bx, by) - inner_error(r, reach),
        ),
    ensures
        ({
            let t = geometry.parameter_of::<A>(x, y);
            let length = squared_length(r, ax, ay, bx, by);
            &&& finite(t)
            &&& size(
                product((r.wide)(t), length) - inner(
                    (r.wide)(x) - (r.wide)(ax),
                    (r.wide)(y) - (r.wide)(ay),
                    (r.wide)(bx) - (r.wide)(ax),
                    (r.wide)(by) - (r.wide)(ay),
                ),
            ) <= parameter_error(r, reach, (r.wide)(t), length)
        }),
{
    let px = minus_of::<A>(x, ax);
    let py = minus_of::<A>(y, ay);
    let dx = minus_of::<A>(bx, ax);
    let dy = minus_of::<A>(by, ay);
    let u = (r.wide)(bx) - (r.wide)(ax);
    let v = (r.wide)(by) - (r.wide)(ay);
    let p = (r.wide)(x) - (r.wide)(ax);
    let q = (r.wide)(y) - (r.wide)(ay);
    lemma_minus_rounds::<A>(r, x, ax);
    lemma_minus_rounds::<A>(r, y, ay);
    lemma_minus_rounds::<A>(r, bx, ax);
    lemma_minus_rounds::<A>(r, by, ay);
    lemma_inner_near::<A>(r, px, py, dx, dy, p, q, u, v, reach);
    lemma_inner_near::<A>(r, dx, dy, dx, dy, u, v, u, v, reach);
    let n = fused_of::<A>(px, dx, times_of::<A>(py, dy));
    let l = fused_of::<A>(dx, dx, times_of::<A>(dy, dy));
    let length = squared_length(r, ax, ay, bx, by);
    let e = inner_error(r, reach);
    lemma_inner_size(p, q, u, v, reach);
    lemma_size_product(u, u);
    lemma_size_product(v, v);
    assert(0real <= length) by {
        lemma_square(u);
        lemma_square(v);
    }
    assert(0real < (r.wide)(l)) by {
        lemma_order_reads(r, ZERO, l);
        lemma_order_reads(r, l, ZERO);
        lemma_zero_reads::<A>(r);
    }
    lemma_product_order(r.top, length - e, (r.wide)(l));
    lemma_over_rounds::<A>(r, n, l);
    lemma_quotient_near((r.wide)(over_of::<A>(n, l)), (r.wide)(l), (r.wide)(n), length, inner(p, q, u, v), e, r.step);
}

/// The squared length of the way from one point to another.
pub open spec fn squared_length(r: Reading, ax: u64, ay: u64, bx: u64, by: u64) -> real {
    let u = (r.wide)(bx) - (r.wide)(ax);
    let v = (r.wide)(by) - (r.wide)(ay);
    inner(u, v, u, v)
}

/// A square is not negative.
pub proof fn lemma_square(x: real)
    ensures
        0real <= product(x, x),
        product(x, x) == product(size(x), size(x)),
{
    lemma_size_product(x, x);
    lemma_product_units(x, x);
    lemma_product_units(-x, x);
}

/// An inner product of differences of coordinates within a reach.
proof fn lemma_inner_size(p: real, q: real, u: real, v: real, reach: real)
    requires
        size(p) <= 2real * reach,
        size(q) <= 2real * reach,
        size(u) <= 2real * reach,
        size(v) <= 2real * reach,
    ensures
        size(inner(p, q, u, v)) <= 2real * product(2real * reach + 1real, 2real * reach + 1real),
{
    let m = 2real * reach + 1real;
    lemma_size_product(p, u);
    lemma_size_product(q, v);
    lemma_product_order(size(p), size(u), m);
    lemma_product_order(m, size(p), m);
    lemma_product_order(size(q), size(v), m);
    lemma_product_order(m, size(q), m);
}

/// About a centre the parameter is, up to rounding, the distance from the centre over the radius: the
/// square of the parameter times the radius is nearly the sum of the squares of the coordinates' distances.
pub proof fn law_radial_parameter_is_near<A: Arithmetic>(
    r: Reading,
    params: Json,
    cx: u64,
    cy: u64,
    radius: u64,
    x: u64,
    y: u64,
    reach: real,
)
    requires
        obeys::<A>(r),
        quotients_round::<A>(r),
        lengths_round::<A>(r),
        orders_read(r),
        radial_of(params) == Ok::<Geometry, Error>(Geometry::Radial { cx, cy, radius }),
        finite(cx) && finite(cy) && finite(radius) && finite(x) && finite(y),
        size((r.wide)(cx)) <= reach,
        size((r.wide)(cy)) <= reach,
        size((r.wide)(x)) <= reach,
        size((r.wide)(y)) <= reach,
        r.step <= 1real,
        4real * reach + 2real <= r.top,
        8real * reach + 8real <= product(r.top, (r.wide)(radius)),
    ensures
        ({
            let t = (Geometry::Radial { cx, cy, radius }).parameter_of::<A>(x, y);
            let d = product((r.wide)(t), (r.wide)(radius));
            let off = r.step + product(r.step, (r.wide)(radius));
            let squares = squared_length(r, cx, cy, x, y);
            &&& 0real < (r.wide)(radius)
            &&& finite(t)
            &&& squares <= product(d + off, d + off) + inner_error(r, reach)
            &&& off <= d ==> product(d - off, d - off) <= squares + inner_error(r, reach)
        }),
{
    let px = minus_of::<A>(x, cx);
    let py = minus_of::<A>(y, cy);
    let u = (r.wide)(x) - (r.wide)(cx);
    let v = (r.wide)(y) - (r.wide)(cy);
    let g = (r.wide)(radius);
    lemma_minus_rounds::<A>(r, x, cx);
    lemma_minus_rounds::<A>(r, y, cy);
    lemma_length_rounds::<A>(r, px, py);
    let h = hypotenuse_of::<A>(px, py);
    let s = (r.wide)(h);
    lemma_product_near((r.wide)(px), (r.wide)(px), u, u, reach, r.step);
    lemma_product_near((r.wide)(py), (r.wide)(py), v, v, reach, r.step);
    lemma_product_sum(4real * reach + 1real, 4real * reach + 1real, r.step);
    lemma_product_order(r.step, 8real * reach + 2real, 8real * reach + 4real);
    assert(4real * reach + 1real + (4real * reach + 1real) == 8real * reach + 2real);
    let squares = squared_length(r, cx, cy, x, y);
    let computed = product((r.wide)(px), (r.wide)(px)) + product((r.wide)(py), (r.wide)(py));
    assert(size(computed - squares) <= inner_error(r, reach));
    assert(0real < g) by {
        lemma_order_reads(r, radius, ZERO);
        lemma_zero_reads::<A>(r);
    }
    assert(s <= 8real * reach + 8real) by {
        lemma_length_bound((r.wide)(px), (r.wide)(py), s, r.step, 2real * reach + 1real);
    }
    lemma_over_rounds::<A>(r, h, radius);
    let t = over_of::<A>(h, radius);
    let d = product((r.wide)(t), g);
    let off = r.step + product(r.step, g);
    assert(size(d - s) <= product(r.step, g));
    lemma_product_order(r.step, 0real, g);
    lemma_product_units(r.step, 0real);
    lemma_squares_order(s + r.step, d + off);
    if off <= d {
        lemma_squares_order(d - off, s - r.step);
    }
}

/// Squares of numbers that are not negative are in their order.
pub proof fn lemma_squares_order(a: real, b: real)
    requires
        0real <= a <= b,
    ensures
        product(a, a) <= product(b, b),
{
    lemma_product_order(a, a, b);
    lemma_product_order(b, a, b);
}

/// A length that is rounded is not much more than the sizes of the coordinates.
pub proof fn lemma_length_bound(p: real, q: real, s: real, step: real, m: real)
    requires
        0real <= step <= 1real,
        size(p) <= m,
        size(q) <= m,
        0real <= s,
        step <= s ==> product(s - step, s - step) <= product(p, p) + product(q, q),
    ensures
        s <= 2real * m + 1real,
{
    if s > 2real * m + 1real {
        lemma_square(p);
        lemma_square(q);
        lemma_squares_order(size(p), m);
        lemma_squares_order(size(q), m);
        let k = s - step;
        lemma_product_order(k, 2real * m, k);
        lemma_product_order(2real * m, 2real * m, k);
        lemma_product_sum(m, m, 2real * m);
        lemma_product_sum(m, m, m);
        assert(m + m == 2real * m);
        assert(4real * product(m, m) <= product(k, k));
        if m == 0real {
            lemma_product_units(0real, 0real);
            lemma_product_order(k, 0real, k);
            lemma_product_cancel_zero(k);
        } else {
            lemma_product_positive(m);
        }
    }
}

/// The square of a number above zero is above zero.
pub proof fn lemma_product_positive(m: real)
    requires
        0real < m,
    ensures
        0real < product(m, m),
{
    lemma_square(m);
    if product(m, m) <= 0real {
        lemma_product_units(m, 0real);
        lemma_product_cancel(m, m, 0real);
    }
}

/// A number above zero has no square that is not.
proof fn lemma_product_cancel_zero(k: real)
    requires
        0real < k,
    ensures
        0real < product(k, k),
{
    lemma_product_positive(k);
}

/// A real number kept from zero to one.
pub open spec fn unit_part(t: real) -> real {
    if t < 0real {
        0real
    } else if 1real < t {
        1real
    } else {
        t
    }
}

/// Every pixel has the colour of its centre's parameter, kept from zero to one and stored: where that
/// parameter is finite, what a pixel's colour is looked up by is within a storing step of it.
pub proof fn law_pixel_takes_its_centre<A: Arithmetic>(
    r: Reading,
    extent: Extent,
    channels: int,
    stops: Seq<StopView>,
    geometry: Geometry,
    n: int,
    x: int,
    y: int,
    ch: int,
) -> (found: (u32, u64, u64))
    requires
        obeys::<A>(r),
        orders_read(r),
        places_read::<A>(r, n),
        1real <= r.top,
        0 <= x < extent.width <= n,
        0 <= y < extent.height <= n,
        n as real + 1real <= r.top,
        0 <= ch < channels,
        finite(geometry.parameter_of::<A>(center_of::<A>(x), center_of::<A>(y))),
    ensures
        ({
            let (t, cx, cy) = found;
            &&& size((r.wide)(cx) - (x as real + 1real / 2real)) <= r.step
            &&& size((r.wide)(cy) - (y as real + 1real / 2real)) <= r.step
            &&& sample_finite(t)
            &&& size((r.small)(t) - unit_part((r.wide)(geometry.parameter_of::<A>(cx, cy)))) <= r.store
            &&& rasterized::<A>(extent, channels, stops, geometry)[sample_at(
                x,
                y,
                ch,
                extent.width as int,
                channels,
            )] == color_of::<A>(stops, t)[ch]
        }),
{
    let cx = center_of::<A>(x);
    let cy = center_of::<A>(y);
    lemma_center_reads::<A>(r, n, x);
    lemma_center_reads::<A>(r, n, y);
    let t = geometry.parameter_of::<A>(cx, cy);
    let k = clamped_unit(t);
    lemma_zero_reads::<A>(r);
    reveal(signs_read);
    lemma_order_reads(r, ZERO, t);
    lemma_order_reads(r, t, ONE);
    assert(finite(ONE));
    assert((r.wide)(k) == unit_part((r.wide)(t)));
    lemma_narrow_rounds::<A>(r, k);
    lemma_raster_sample(
        extent.width as int,
        extent.height as int,
        channels,
        |x: int, y: int, ch: int| color_of::<A>(stops, pixel_parameter::<A>(geometry, x, y))[ch],
        x,
        y,
        ch,
    );
    (pixel_parameter::<A>(geometry, x, y), cx, cy)
}

/// The operation draws its geometry with its stops on every pixel of the size it is given.
pub proof fn law_gradient_draws_its_plan<A: Arithmetic>(
    shape: Shape,
    inputs: Map<Seq<char>, ResourceValue>,
    params: Json,
    source: ValueView,
)
    requires
        port_view(inputs, "extent_from"@) == Some(source),
        drawn::<A>(shape, inputs, params) is Ok,
    ensures
        plan_of::<A>(shape, params, source.descriptor.extent()) is Ok,
        ({
            let (d, geometry, stops) = plan_of::<A>(shape, params, source.descriptor.extent())->Ok_0;
            let out = drawn::<A>(shape, inputs, params)->Ok_0;
            &&& d.extent == source.descriptor.extent()
            &&& out.channels == d.layout.channel_count()
            &&& out.samples == rasterized::<A>(
                source.descriptor.extent(),
                out.channels as int,
                stops,
                geometry,
            )
            &&& shape == Shape::Linear ==> linear_of::<A>(params) == Ok::<Geometry, Error>(geometry)
            &&& shape == Shape::Radial ==> radial_of(params) == Ok::<Geometry, Error>(geometry)
        }),
{
}

/// The first stop at or after a place between two neighbours is the later of them.
proof fn lemma_upper_between(stops: Seq<StopView>, t: u32, i: int, k: int)
    requires
        0 <= i <= k < stops.len(),
        sample_at_most(t, stops[k].position),
        forall|j: int| 0 <= j < k ==> sample_less((#[trigger] stops[j]).position, t),
    ensures
        upper_of(stops, t, i) == k,
    decreases k - i,
{
    if i < k {
        assert(sample_less(stops[i].position, t));
        lemma_upper_between(stops, t, i + 1, k);
    }
}

/// A fraction of a way, computed and then taken of another way, is near the exact one.
proof fn lemma_fraction(f: real, n: real, d: real, way: real, whole: real, store: real)
    requires
        0real <= store,
        0real < whole,
        4real * store <= whole <= 1real,
        0real <= way <= whole,
        size(n - way) <= store,
        size(d - whole) <= store,
        size(product(f, d) - n) <= product(store, size(d)),
    ensures
        size(f) <= 2real,
        size(product(f, whole) - way) <= 5real * store,
{
    lemma_product_order(store, size(d), 5real / 4real);
    lemma_product_units(store, 1real);
    lemma_product_sum(1real, 1real / 4real, store);
    lemma_product_order(store, 1real / 4real, 1real);
    assert(1real + 1real / 4real == 5real / 4real);
    assert(product(store, size(d)) <= 2real * store);
    assert(size(f) <= 2real) by {
        if size(f) > 2real {
            lemma_size_product(f, d);
            lemma_product_order(d, 2real, size(f));
            lemma_product_units(2real, d);
            lemma_product_sum(1real, 1real, d);
            lemma_product_units(1real, d);
            assert(1real + 1real == 2real);
            assert(product(2real, d) == 2real * d);
            assert(size(product(f, d)) <= way + store + product(store, d));
            lemma_product_order(d, store, 1real / 4real);
            lemma_product_units(d, store);
            lemma_product_sum(1real / 4real, 1real / 4real, d);
            lemma_product_sum(1real / 2real, 1real / 2real, d);
            assert(1real / 4real + 1real / 4real == 1real / 2real);
            assert(1real / 2real + 1real / 2real == 1real);
            assert(4real * product(1real / 4real, d) == d);
            assert(size(product(f, d)) == product(size(f), d));
        }
    }
    lemma_product_sum(whole, d, f);
    lemma_size_product(f, whole - d);
    lemma_product_order(size(f), size(whole - d), store);
    lemma_product_order(store, size(f), 2real);
    lemma_product_units(store, 2real);
    lemma_product_sum(1real, 1real, store);
    assert(1real + 1real == 2real);
}

/// How far a colour between two stops can be from the straight line between theirs, scaled by the way from
/// one stop to the other.
pub open spec fn color_error(r: Reading, bound: real) -> real {
    product(r.store, 10real * bound + 4real)
}

/// Between two neighbouring stops a colour lies, up to rounding, on the straight line between theirs, channel
/// by channel: it is as far from the earlier colour as the place is from the earlier stop, in proportion.
pub proof fn law_color_is_nearly_between<A: Arithmetic>(
    r: Reading,
    stops: Seq<StopView>,
    t: u32,
    k: int,
    ch: int,
    bound: real,
)
    requires
        obeys::<A>(r),
        samples_compute::<A>(r),
        orders_read(r),
        0 < k < stops.len(),
        sample_less(t, stops[k].position),
        forall|j: int| 0 <= j < k ==> sample_less((#[trigger] stops[j]).position, t),
        sample_finite(t),
        sample_finite(stops[k - 1].position),
        sample_finite(stops[k].position),
        0 <= ch < stops[k - 1].color.len(),
        sample_finite(stops[k - 1].color[ch]),
        sample_finite(stops[k].color[ch]),
        size((r.small)(stops[k - 1].color[ch])) <= bound,
        size((r.small)(stops[k].color[ch])) <= bound,
        4real * r.store <= (r.small)(stops[k].position) - (r.small)(stops[k - 1].position) <= 1real,
        5real * bound + 2real <= r.top,
        8real <= r.top,
    ensures
        ({
            let p0 = (r.small)(stops[k - 1].position);
            let p1 = (r.small)(stops[k].position);
            let c0 = (r.small)(stops[k - 1].color[ch]);
            let c1 = (r.small)(stops[k].color[ch]);
            let out = color_of::<A>(stops, t)[ch];
            &&& sample_finite(out)
            &&& size(product((r.small)(out) - c0, p1 - p0) - product((r.small)(t) - p0, c1 - c0))
                <= color_error(r, bound)
        }),
{
    reveal(samples_compute);
    lemma_upper_between(stops, t, 0, k);
    let lo = stops[k - 1];
    let hi = stops[k];
    let p0 = (r.small)(lo.position);
    let p1 = (r.small)(hi.position);
    let c0 = (r.small)(lo.color[ch]);
    let c1 = (r.small)(hi.color[ch]);
    assert(p0 < (r.small)(t) < p1) by {
        lemma_sample_order_reads(r, t, lo.position);
        lemma_sample_order_reads(r, hi.position, t);
        assert(sample_less(stops[k - 1].position, t));
    }
    let n = sample_minus_of::<A>(t, lo.position);
    let d = sample_minus_of::<A>(hi.position, lo.position);
    let m = sample_minus_of::<A>(hi.color[ch], lo.color[ch]);
    let f = sample_over_of::<A>(n, d);
    let whole = p1 - p0;
    let way = (r.small)(t) - p0;
    let sd = (r.small)(d);
    assert(hi.position != t);
    assert(0real < sd);
    assert(product(r.top, sd) >= size((r.small)(n))) by {
        lemma_eight(sd, r.top);
    }
    lemma_fraction((r.small)(f), (r.small)(n), sd, way, whole, r.store);
    let sf = (r.small)(f);
    let sm = (r.small)(m);
    lemma_product_sum(1real, 1real, 2real * bound + 1real);
    lemma_product_units(1real, 2real * bound + 1real);
    assert(1real + 1real == 2real);
    lemma_size_product(sf, sm);
    lemma_product_order(size(sf), size(sm), 2real * bound + 1real);
    lemma_product_order(2real * bound + 1real, size(sf), 2real);
    let out = sample_fused_of::<A>(f, m, lo.color[ch]);
    assert(size((r.small)(out) - (product(sf, sm) + c0)) <= r.store);
    lemma_color_near((r.small)(out), c0, c1, sf, sm, way, whole, r.store, bound);
}

/// Eight times a number is at least twice what it is.
proof fn lemma_eight(d: real, top: real)
    requires
        0real <= d,
        8real <= top,
    ensures
        8real * d <= product(top, d),
{
    lemma_product_order(d, 8real, top);
    lemma_product_sum(1real, 1real, d);
    lemma_product_sum(2real, 2real, d);
    lemma_product_sum(4real, 4real, d);
    lemma_product_units(1real, d);
    assert(1real + 1real == 2real && 2real + 2real == 4real && 4real + 4real == 8real);
}

/// A computed colour is near the straight line between two.
proof fn lemma_color_near(
    out: real,
    c0: real,
    c1: real,
    f: real,
    m: real,
    way: real,
    whole: real,
    store: real,
    bound: real,
)
    requires
        0real <= store,
        4real * store <= whole <= 1real,
        0real <= way <= whole,
        size(c0) <= bound,
        size(c1) <= bound,
        size(m - (c1 - c0)) <= store,
        size(product(f, whole) - way) <= 5real * store,
        size(out - (product(f, m) + c0)) <= store,
    ensures
        size(product(out - c0, whole) - product(way, c1 - c0)) <= product(store, 10real * bound + 4real),
{
    let c = c1 - c0;
    let fw = product(f, whole);
    let slip = out - c0 - product(f, m);
    lemma_product_sum(product(f, m), slip, whole);
    lemma_product_sum(f, m, whole);
    lemma_product_sum(f, whole, m);
    lemma_product_units(m, whole);
    assert(product(product(f, m), whole) == product(fw, m));
    lemma_size_product(slip, whole);
    lemma_product_order(size(slip), whole, 1real);
    lemma_product_units(size(slip), 1real);
    lemma_product_sum(m, c, fw);
    lemma_size_product(fw, m - c);
    lemma_product_order(size(fw), size(m - c), store);
    lemma_product_order(store, size(fw), 3real);
    lemma_product_units(store, size(fw));
    lemma_product_sum(fw, way, c);
    lemma_size_product(fw - way, c);
    lemma_product_order(size(c), size(fw - way), 5real * store);
    lemma_product_order(5real * store, size(c), 2real * bound);
    lemma_product_units(size(fw - way), size(c));
    assert(product(out - c0, whole) - product(way, c) == product(slip, whole) + product(fw, m - c) + product(
        fw - way,
        c,
    ));
    lemma_linear_terms(store, bound);
}

/// Multiples of a product.
proof fn lemma_linear_terms(store: real, bound: real)
    ensures
        product(5real * store, 2real * bound) + product(store, 3real) + store == product(
            store,
            10real * bound + 4real,
        ),
{
    lemma_product_sum(10real * bound, 4real, store);
    lemma_product_sum(3real, 1real, store);
    lemma_product_units(store, 1real);
    assert(3real + 1real == 4real);
    let b = product(store, bound);
    lemma_product_sum(bound, bound, store);
    lemma_product_sum(2real * bound, 2real * bound, store);
    lemma_product_sum(4real * bound, 4real * bound, store);
    lemma_product_sum(8real * bound, 2real * bound, store);
    assert(bound + bound == 2real * bound);
    assert(2real * bound + 2real * bound == 4real * bound);
    assert(4real * bound + 4real * bound == 8real * bound);
    assert(8real * bound + 2real * bound == 10real * bound);
    let y = 2real * bound;
    lemma_product_sum(store, store, y);
    lemma_product_sum(2real * store, 2real * store, y);
    lemma_product_sum(4real * store, store, y);
    assert(store + store == 2real * store);
    assert(2real * store + 2real * store == 4real * store);
    assert(4real * store + store == 5real * store);
}

} // verus!
