//! The guided filter in an arithmetic that rounds: a window's mean is nearly the exact one, and a constant
//! is nearly kept.
use crate::arithmetic::{fused_of, minus_of, over_of, plus_of, tally_of, Arithmetic};
use crate::binary::{finite, less, negated, ZERO};
use crate::guided::{
    area_sum, guided_plane, intercept_of, intercepts, law_window_is_clipped, products, row_sum,
    slopes, window_end, window_mean, window_means, window_start, GuidedRequest,
};
use crate::guided_laws::level;
use crate::lattice::{at, lemma_at_bounds, lemma_at_of};
use crate::planar::{lemma_many_order, many};
use crate::rounding::{
    counts_read, lemma_count_reads, lemma_fused_rounds, lemma_minus_rounds, lemma_over_rounds, lemma_plus_rounds,
    lemma_product_cancel, lemma_product_order, lemma_product_sum, lemma_product_units, lemma_ratio,
    lemma_size_product, lemma_times_rounds, lemma_zero_reads, obeys, product, quotients_round, ratio, signs_read,
    size, Reading,
};
use vstd::prelude::*;

verus! {

/// The first `x` values of row `y`, added up.
pub open spec fn exact_row(v: spec_fn(int) -> real, w: int, y: int, x: nat) -> real
    decreases x,
{
    if x == 0 {
        0real
    } else {
        exact_row(v, w, y, (x - 1) as nat) + v(at(x - 1, y, w))
    }
}

/// The first `x` columns of the first `y` rows, added up.
pub open spec fn exact_area(v: spec_fn(int) -> real, w: int, y: nat, x: nat) -> real
    decreases y,
{
    if y == 0 {
        0real
    } else {
        exact_area(v, w, (y - 1) as nat, x) + exact_row(v, w, y - 1, x)
    }
}

/// The values in `[x0, x1) x [y0, y1)`, added up: by the corners.
pub open spec fn exact_window(v: spec_fn(int) -> real, w: int, x0: nat, x1: nat, y0: nat, y1: nat) -> real {
    exact_area(v, w, y1, x1) - exact_area(v, w, y0, x1) - exact_area(v, w, y1, x0) + exact_area(v, w, y0, x0)
}

/// Values within a distance of others have row sums within as many distances.
proof fn lemma_rows_apart(
    v: spec_fn(int) -> real,
    u: spec_fn(int) -> real,
    w: int,
    h: int,
    y: int,
    x0: nat,
    x1: nat,
    b: real,
)
    requires
        x0 <= x1 <= w,
        0 <= y < h,
        forall|i: int| 0 <= i < w * h ==> size(#[trigger] v(i) - u(i)) <= b,
    ensures
        size(
            (exact_row(v, w, y, x1) - exact_row(v, w, y, x0)) - (exact_row(u, w, y, x1) - exact_row(
                u,
                w,
                y,
                x0,
            )),
        ) <= product((x1 - x0) as real, b),
    decreases x1,
{
    if x0 == x1 {
        lemma_product_units(0real, b);
    } else {
        let m = (x1 - 1) as nat;
        lemma_rows_apart(v, u, w, h, y, x0, m, b);
        lemma_at_bounds(m as int, y, w, h);
        let i = at(m as int, y, w);
        assert(size(v(i) - u(i)) <= b);
        lemma_product_sum((m - x0) as real, 1real, b);
        lemma_product_units(1real, b);
        assert((m - x0) as real + 1real == (x1 - x0) as real);
    }
}

/// Values within a distance of others have window sums within as many distances as the window has places.
proof fn lemma_windows_apart(
    v: spec_fn(int) -> real,
    u: spec_fn(int) -> real,
    w: int,
    h: int,
    x0: nat,
    x1: nat,
    y0: nat,
    y1: nat,
    b: real,
)
    requires
        x0 <= x1 <= w,
        y0 <= y1 <= h,
        forall|i: int| 0 <= i < w * h ==> size(#[trigger] v(i) - u(i)) <= b,
    ensures
        size(exact_window(v, w, x0, x1, y0, y1) - exact_window(u, w, x0, x1, y0, y1)) <= product(
            (y1 - y0) as real,
            product((x1 - x0) as real, b),
        ),
    decreases y1,
{
    let strip = product((x1 - x0) as real, b);
    if y0 == y1 {
        lemma_product_units(0real, strip);
    } else {
        let m = (y1 - 1) as nat;
        lemma_windows_apart(v, u, w, h, x0, x1, y0, m, b);
        lemma_rows_apart(v, u, w, h, m as int, x0, x1, b);
        lemma_product_sum((m - y0) as real, 1real, strip);
        lemma_product_units(1real, strip);
        assert((m - y0) as real + 1real == (y1 - y0) as real);
    }
}

/// The window sum of scaled values is the scaled window sum.
proof fn lemma_area_scaled(v: spec_fn(int) -> real, c: real, w: int, y: nat, x: nat)
    ensures
        exact_area(|i: int| product(c, v(i)), w, y, x) == product(c, exact_area(v, w, y, x)),
    decreases y,
{
    if y == 0 {
        lemma_product_units(c, 0real);
    } else {
        lemma_area_scaled(v, c, w, (y - 1) as nat, x);
        lemma_row_scaled(v, c, w, y - 1, x);
        lemma_product_sum(exact_area(v, w, (y - 1) as nat, x), exact_row(v, w, y - 1, x), c);
    }
}

/// The row sum of scaled values is the scaled row sum.
proof fn lemma_row_scaled(v: spec_fn(int) -> real, c: real, w: int, y: int, x: nat)
    ensures
        exact_row(|i: int| product(c, v(i)), w, y, x) == product(c, exact_row(v, w, y, x)),
    decreases x,
{
    if x == 0 {
        lemma_product_units(c, 0real);
    } else {
        lemma_row_scaled(v, c, w, y, (x - 1) as nat);
        lemma_product_sum(exact_row(v, w, y, (x - 1) as nat), v(at(x - 1, y, w)), c);
    }
}

/// The window sum of scaled values is the scaled window sum.
proof fn lemma_window_scaled(v: spec_fn(int) -> real, c: real, w: int, x0: nat, x1: nat, y0: nat, y1: nat)
    ensures
        exact_window(|i: int| product(c, v(i)), w, x0, x1, y0, y1) == product(
            c,
            exact_window(v, w, x0, x1, y0, y1),
        ),
{
    lemma_area_scaled(v, c, w, y1, x1);
    lemma_area_scaled(v, c, w, y0, x1);
    lemma_area_scaled(v, c, w, y1, x0);
    lemma_area_scaled(v, c, w, y0, x0);
    let a = exact_area(v, w, y1, x1);
    let b = exact_area(v, w, y0, x1);
    let d = exact_area(v, w, y1, x0);
    let e = exact_area(v, w, y0, x0);
    lemma_product_sum(a, b, c);
    lemma_product_sum(a - b, d, c);
    lemma_product_sum(a - b - d, e, c);
}

/// The area of a constant value.
proof fn lemma_area_constant(c: real, w: int, y: nat, x: nat)
    ensures
        exact_area(|i: int| c, w, y, x) == product(y as real, product(x as real, c)),
    decreases y,
{
    let v = |i: int| c;
    let strip = product(x as real, c);
    if y == 0 {
        lemma_product_units(0real, strip);
    } else {
        lemma_area_constant(c, w, (y - 1) as nat, x);
        lemma_row_constant(c, w, y - 1, x);
        lemma_product_sum((y - 1) as real, 1real, strip);
        lemma_product_units(1real, strip);
        assert((y - 1) as real + 1real == y as real);
    }
}

/// A row of a constant value.
proof fn lemma_row_constant(c: real, w: int, y: int, x: nat)
    ensures
        exact_row(|i: int| c, w, y, x) == product(x as real, c),
    decreases x,
{
    if x == 0 {
        lemma_product_units(0real, c);
    } else {
        lemma_row_constant(c, w, y, (x - 1) as nat);
        lemma_product_sum((x - 1) as real, 1real, c);
        lemma_product_units(1real, c);
        assert((x - 1) as real + 1real == x as real);
    }
}

/// The window sum of a constant value is the value for each place.
proof fn lemma_window_constant(c: real, w: int, x0: nat, x1: nat, y0: nat, y1: nat)
    requires
        x0 <= x1,
        y0 <= y1,
    ensures
        exact_window(|i: int| c, w, x0, x1, y0, y1) == product(
            (y1 - y0) as real,
            product((x1 - x0) as real, c),
        ),
{
    lemma_area_constant(c, w, y1, x1);
    lemma_area_constant(c, w, y0, x1);
    lemma_area_constant(c, w, y1, x0);
    lemma_area_constant(c, w, y0, x0);
    let a = product(x1 as real, c);
    let b = product(x0 as real, c);
    lemma_product_sum(x1 as real, x0 as real, c);
    lemma_product_sum(y1 as real, y0 as real, a);
    lemma_product_sum(y1 as real, y0 as real, b);
    lemma_product_sum(a, b, (y1 - y0) as real);
    assert((x1 - x0) as real == x1 as real - x0 as real);
    assert((y1 - y0) as real == y1 as real - y0 as real);
}

/// What the numbers of a plane stand for.
pub open spec fn readings(r: Reading, plane: Seq<u64>) -> spec_fn(int) -> real {
    |i: int| (r.wide)(plane[i])
}

/// Every number of a plane is finite and no larger than `bound`.
pub open spec fn plane_within(r: Reading, plane: Seq<u64>, bound: real) -> bool {
    forall|i: int| 0 <= i < plane.len() ==> finite(#[trigger] plane[i]) && size((r.wide)(plane[i])) <= bound
}

/// How far a corner sum of a plane can be from the exact one.
pub open spec fn corner_error(r: Reading, h: nat, w: nat) -> real {
    many(h, many(w, r.step) + r.step)
}

/// How large a corner sum of a plane can be.
pub open spec fn corner_reach(r: Reading, h: nat, w: nat, bound: real) -> real {
    many(h, many(w, bound)) + corner_error(r, h, w)
}

/// Nothing that is computed of a window gets too large for its rounding to be bounded.
pub open spec fn corners_fit(r: Reading, h: nat, w: nat, bound: real) -> bool {
    4real * corner_reach(r, h, w, bound) + 3real * r.step <= r.top
}

/// How far the mean of a window can be from the exact one.
pub open spec fn mean_error(r: Reading, h: nat, w: nat) -> real {
    4real * corner_error(r, h, w) + 4real * r.step
}

/// The sum of a row's first numbers is near the exact one.
proof fn lemma_row_near<A: Arithmetic>(r: Reading, plane: Seq<u64>, w: int, h: int, y: int, x: nat, bound: real)
    requires
        obeys::<A>(r),
        0 <= y < h,
        x <= w,
        plane.len() == w * h,
        plane_within(r, plane, bound),
        0real <= bound,
        many(w as nat, bound) + many(w as nat, r.step) <= r.top,
    ensures
        finite(row_sum::<A>(plane, w, y, x)),
        size((r.wide)(row_sum::<A>(plane, w, y, x)) - exact_row(readings(r, plane), w, y, x)) <= many(x, r.step),
        size(exact_row(readings(r, plane), w, y, x)) <= many(x, bound),
    decreases x,
{
    lemma_zero_reads::<A>(r);
    if x > 0 {
        let m = (x - 1) as nat;
        lemma_row_near::<A>(r, plane, w, h, y, m, bound);
        lemma_many_order(x, w as nat, bound, bound);
        lemma_many_order(x, w as nat, r.step, r.step);
        lemma_at_bounds(m as int, y, w, h);
        let i = at(m as int, y, w);
        assert(finite(plane[i]));
        lemma_plus_rounds::<A>(r, row_sum::<A>(plane, w, y, m), plane[i]);
    }
}

/// No columns add up to nothing.
proof fn lemma_area_empty(v: spec_fn(int) -> real, w: int, y: nat)
    ensures
        exact_area(v, w, y, 0) == 0real,
    decreases y,
{
    if y > 0 {
        lemma_area_empty(v, w, (y - 1) as nat);
    }
}

/// A corner sum is near the exact one.
proof fn lemma_corner_near<A: Arithmetic>(r: Reading, plane: Seq<u64>, w: int, h: int, y: nat, x: nat, bound: real)
    requires
        obeys::<A>(r),
        y <= h,
        x <= w,
        plane.len() == w * h,
        plane_within(r, plane, bound),
        0real <= bound,
        corner_reach(r, h as nat, w as nat, bound) <= r.top,
    ensures
        finite(area_sum::<A>(plane, w, y, x)),
        size((r.wide)(area_sum::<A>(plane, w, y, x)) - exact_area(readings(r, plane), w, y, x)) <= corner_error(
            r,
            y,
            w as nat,
        ),
        size(exact_area(readings(r, plane), w, y, x)) <= many(y, many(w as nat, bound)),
        0real <= corner_error(r, y, w as nat) <= corner_error(r, h as nat, w as nat),
        0real <= many(y, many(w as nat, bound)) <= many(h as nat, many(w as nat, bound)),
    decreases y,
{
    let wn = w as nat;
    lemma_zero_reads::<A>(r);
    lemma_many_order(wn, wn, bound, bound);
    lemma_many_order(wn, wn, r.step, r.step);
    lemma_many_order(y, h as nat, many(wn, r.step) + r.step, many(wn, r.step) + r.step);
    lemma_many_order(y, h as nat, many(wn, bound), many(wn, bound));
    if x == 0 {
        lemma_area_empty(readings(r, plane), w, y);
    } else if y > 0 {
        let m = (y - 1) as nat;
        let one: nat = 1;
        lemma_many_order(one, h as nat, many(wn, r.step) + r.step, many(wn, r.step) + r.step);
        lemma_many_order(one, h as nat, many(wn, bound), many(wn, bound));
        assert(many(0, many(wn, bound)) == 0real && many(0, many(wn, r.step) + r.step) == 0real);
        assert(many(one, many(wn, bound)) == many(wn, bound));
        assert(many(one, many(wn, r.step) + r.step) == many(wn, r.step) + r.step);
        lemma_corner_near::<A>(r, plane, w, h, m, x, bound);
        lemma_row_near::<A>(r, plane, w, h, m as int, x, bound);
        lemma_many_order(x, wn, bound, bound);
        lemma_many_order(x, wn, r.step, r.step);
        lemma_plus_rounds::<A>(r, area_sum::<A>(plane, w, m, x), row_sum::<A>(plane, w, m as int, x));
    }
}

/// A product of counts is read as the product of the counts.
proof fn lemma_real_product(a: nat, b: nat)
    ensures
        (a * b) as real == product(a as real, b as real),
    decreases a,
{
    if a == 0 {
        assert(a * b == 0) by (nonlinear_arith)
            requires
                a == 0,
        ;
        lemma_product_units(0real, b as real);
    } else {
        let m = (a - 1) as nat;
        lemma_real_product(m, b);
        assert(a * b == m * b + b) by (nonlinear_arith)
            requires
                a == m + 1,
        ;
        assert((a * b) as real == (m * b) as real + b as real);
        lemma_product_sum(m as real, 1real, b as real);
        lemma_product_units(1real, b as real);
        assert(m as real + 1real == a as real);
    }
}

/// The places of the window about a pixel, as a real number.
pub open spec fn places(w: int, h: int, radius: int, x: int, y: int) -> real {
    product(
        (window_end(y, radius, h) - window_start(y, radius)) as real,
        (window_end(x, radius, w) - window_start(x, radius)) as real,
    )
}

/// The values in the window about a pixel, added up.
pub open spec fn around(v: spec_fn(int) -> real, w: int, h: int, radius: int, x: int, y: int) -> real {
    exact_window(
        v,
        w,
        window_start(x, radius) as nat,
        window_end(x, radius, w) as nat,
        window_start(y, radius) as nat,
        window_end(y, radius, h) as nat,
    )
}

/// The exact mean of the values in the window about a pixel.
pub open spec fn exact_mean(v: spec_fn(int) -> real, w: int, h: int, radius: int, x: int, y: int) -> real {
    ratio(around(v, w, h, radius, x, y), places(w, h, radius, x, y))
}

/// A window has a place at least, and its exact mean times its places is its sum.
proof fn lemma_places(v: spec_fn(int) -> real, w: int, h: int, radius: int, x: int, y: int)
    requires
        0 <= x < w,
        0 <= y < h,
        0 <= radius,
    ensures
        1real <= places(w, h, radius, x, y),
        product(places(w, h, radius, x, y), exact_mean(v, w, h, radius, x, y)) == around(v, w, h, radius, x, y),
{
    law_window_is_clipped(x, radius, w);
    law_window_is_clipped(y, radius, h);
    let a = (window_end(y, radius, h) - window_start(y, radius)) as real;
    let b = (window_end(x, radius, w) - window_start(x, radius)) as real;
    assert(1real <= a && 1real <= b);
    lemma_product_order(a, 1real, b);
    lemma_product_units(a, 1real);
    lemma_ratio(around(v, w, h, radius, x, y), places(w, h, radius, x, y));
}

/// Values within a distance of others have exact means within it.
proof fn lemma_exact_means_apart(
    v: spec_fn(int) -> real,
    u: spec_fn(int) -> real,
    w: int,
    h: int,
    radius: int,
    x: int,
    y: int,
    b: real,
)
    requires
        0 <= x < w,
        0 <= y < h,
        0 <= radius,
        forall|i: int| 0 <= i < w * h ==> size(#[trigger] v(i) - u(i)) <= b,
    ensures
        size(exact_mean(v, w, h, radius, x, y) - exact_mean(u, w, h, radius, x, y)) <= b,
{
    law_window_is_clipped(x, radius, w);
    law_window_is_clipped(y, radius, h);
    lemma_places(v, w, h, radius, x, y);
    lemma_places(u, w, h, radius, x, y);
    let x0 = window_start(x, radius) as nat;
    let x1 = window_end(x, radius, w) as nat;
    let y0 = window_start(y, radius) as nat;
    let y1 = window_end(y, radius, h) as nat;
    lemma_windows_apart(v, u, w, h, x0, x1, y0, y1, b);
    let k = places(w, h, radius, x, y);
    lemma_product_sum((y1 - y0) as real, (x1 - x0) as real, b);
    let d = exact_mean(v, w, h, radius, x, y) - exact_mean(u, w, h, radius, x, y);
    lemma_product_sum(exact_mean(v, w, h, radius, x, y), exact_mean(u, w, h, radius, x, y), k);
    lemma_product_units(k, b);
    assert(size(product(k, d)) <= product(k, b));
    lemma_product_cancel(k, d, b);
    assert(product(k, -b) == -product(k, b));
    lemma_product_cancel(k, -b, d);
}

/// The exact mean of a constant is the constant.
proof fn lemma_exact_mean_constant(c: real, w: int, h: int, radius: int, x: int, y: int)
    requires
        0 <= x < w,
        0 <= y < h,
        0 <= radius,
    ensures
        exact_mean(|i: int| c, w, h, radius, x, y) == c,
{
    law_window_is_clipped(x, radius, w);
    law_window_is_clipped(y, radius, h);
    let v = |i: int| c;
    lemma_places(v, w, h, radius, x, y);
    let x0 = window_start(x, radius) as nat;
    let x1 = window_end(x, radius, w) as nat;
    let y0 = window_start(y, radius) as nat;
    let y1 = window_end(y, radius, h) as nat;
    lemma_window_constant(c, w, x0, x1, y0, y1);
    let k = places(w, h, radius, x, y);
    lemma_product_sum((y1 - y0) as real, (x1 - x0) as real, c);
    lemma_product_cancel(k, exact_mean(v, w, h, radius, x, y), c);
    lemma_product_cancel(k, c, exact_mean(v, w, h, radius, x, y));
}

/// The exact mean of scaled values is the scaled exact mean.
proof fn lemma_exact_mean_scaled(v: spec_fn(int) -> real, c: real, w: int, h: int, radius: int, x: int, y: int)
    requires
        0 <= x < w,
        0 <= y < h,
        0 <= radius,
    ensures
        exact_mean(|i: int| product(c, v(i)), w, h, radius, x, y) == product(
            c,
            exact_mean(v, w, h, radius, x, y),
        ),
{
    let u = |i: int| product(c, v(i));
    lemma_places(v, w, h, radius, x, y);
    lemma_places(u, w, h, radius, x, y);
    lemma_window_scaled(
        v,
        c,
        w,
        window_start(x, radius) as nat,
        window_end(x, radius, w) as nat,
        window_start(y, radius) as nat,
        window_end(y, radius, h) as nat,
    );
    let k = places(w, h, radius, x, y);
    let m = exact_mean(v, w, h, radius, x, y);
    let n = exact_mean(u, w, h, radius, x, y);
    lemma_product_sum(k, c, m);
    lemma_product_sum(c, k, m);
    lemma_product_units(k, c);
    lemma_product_cancel(k, n, product(c, m));
    lemma_product_cancel(k, product(c, m), n);
}

/// Combining four corner sums that are near exact ones gives one near the exact combination.
proof fn lemma_corners_combined<A: Arithmetic>(
    r: Reading,
    a: u64,
    b: u64,
    c: u64,
    d: u64,
    ra: real,
    rb: real,
    rc: real,
    rd: real,
    e: real,
    m: real,
)
    requires
        obeys::<A>(r),
        finite(a),
        finite(b),
        finite(c),
        finite(d),
        size((r.wide)(a) - ra) <= e,
        size((r.wide)(b) - rb) <= e,
        size((r.wide)(c) - rc) <= e,
        size((r.wide)(d) - rd) <= e,
        size(ra) <= m,
        size(rb) <= m,
        size(rc) <= m,
        size(rd) <= m,
        4real * (m + e) + 3real * r.step <= r.top,
    ensures
        finite(plus_of::<A>(minus_of::<A>(minus_of::<A>(a, b), c), d)),
        size(
            (r.wide)(plus_of::<A>(minus_of::<A>(minus_of::<A>(a, b), c), d)) - (ra - rb - rc + rd),
        ) <= 4real * e + 3real * r.step,
        size((r.wide)(plus_of::<A>(minus_of::<A>(minus_of::<A>(a, b), c), d))) <= r.top,
{
    lemma_difference_near::<A>(r, a, b, ra, rb, e, e, m, m);
    let ab = minus_of::<A>(a, b);
    lemma_difference_near::<A>(r, ab, c, ra - rb, rc, 2real * e + r.step, e, 2real * m, m);
    let abc = minus_of::<A>(ab, c);
    lemma_plus_near::<A>(r, abc, d, ra - rb - rc, rd, 3real * e + 2real * r.step, e, 3real * m, m);
}

/// A difference of numbers near exact ones is near the exact difference, and not too large.
proof fn lemma_difference_near<A: Arithmetic>(
    r: Reading,
    a: u64,
    b: u64,
    ra: real,
    rb: real,
    ea: real,
    eb: real,
    ma: real,
    mb: real,
)
    requires
        obeys::<A>(r),
        finite(a),
        finite(b),
        size((r.wide)(a) - ra) <= ea,
        size((r.wide)(b) - rb) <= eb,
        size(ra) <= ma,
        size(rb) <= mb,
        ma + ea + mb + eb + r.step <= r.top,
    ensures
        finite(minus_of::<A>(a, b)),
        size((r.wide)(minus_of::<A>(a, b)) - (ra - rb)) <= ea + eb + r.step,
        size(ra - rb) <= ma + mb,
{
    lemma_minus_rounds::<A>(r, a, b);
}

/// A sum of numbers near exact ones is near the exact sum, and not too large.
proof fn lemma_plus_near<A: Arithmetic>(
    r: Reading,
    a: u64,
    b: u64,
    ra: real,
    rb: real,
    ea: real,
    eb: real,
    ma: real,
    mb: real,
)
    requires
        obeys::<A>(r),
        finite(a),
        finite(b),
        size((r.wide)(a) - ra) <= ea,
        size((r.wide)(b) - rb) <= eb,
        size(ra) <= ma,
        size(rb) <= mb,
        ma + ea + mb + eb + r.step <= r.top,
    ensures
        finite(plus_of::<A>(a, b)),
        size((r.wide)(plus_of::<A>(a, b)) - (ra + rb)) <= ea + eb + r.step,
        size((r.wide)(plus_of::<A>(a, b))) <= r.top,
{
    lemma_plus_rounds::<A>(r, a, b);
}

/// The mean over the window about a pixel is the exact one up to rounding.
pub proof fn law_window_mean_is_near<A: Arithmetic>(
    r: Reading,
    plane: Seq<u64>,
    w: int,
    h: int,
    radius: int,
    x: int,
    y: int,
    bound: real,
)
    requires
        obeys::<A>(r),
        quotients_round::<A>(r),
        counts_read::<A>(r, w * h),
        0 <= x < w,
        0 <= y < h,
        0 <= radius,
        plane.len() == w * h,
        plane_within(r, plane, bound),
        0real <= bound,
        corners_fit(r, h as nat, w as nat, bound),
    ensures
        finite(window_mean::<A>(plane, w, h, radius, x, y)),
        size(
            (r.wide)(window_mean::<A>(plane, w, h, radius, x, y)) - exact_mean(
                readings(r, plane),
                w,
                h,
                radius,
                x,
                y,
            ),
        ) <= mean_error(r, h as nat, w as nat),
        0real <= mean_error(r, h as nat, w as nat),
{
    law_window_is_clipped(x, radius, w);
    law_window_is_clipped(y, radius, h);
    let v = readings(r, plane);
    let x0 = window_start(x, radius) as nat;
    let x1 = window_end(x, radius, w) as nat;
    let y0 = window_start(y, radius) as nat;
    let y1 = window_end(y, radius, h) as nat;
    let e = corner_error(r, h as nat, w as nat);
    lemma_many_order(w as nat, w as nat, r.step, r.step);
    lemma_many_order(w as nat, w as nat, bound, bound);
    lemma_many_order(h as nat, h as nat, many(w as nat, bound), many(w as nat, bound));
    lemma_many_order(
        h as nat,
        h as nat,
        many(w as nat, r.step) + r.step,
        many(w as nat, r.step) + r.step,
    );
    assert(corner_reach(r, h as nat, w as nat, bound) <= r.top);
    lemma_corner_near::<A>(r, plane, w, h, y1, x1, bound);
    lemma_corner_near::<A>(r, plane, w, h, y0, x1, bound);
    lemma_corner_near::<A>(r, plane, w, h, y1, x0, bound);
    lemma_corner_near::<A>(r, plane, w, h, y0, x0, bound);
    let a = area_sum::<A>(plane, w, y1, x1);
    let b = area_sum::<A>(plane, w, y0, x1);
    let c = area_sum::<A>(plane, w, y1, x0);
    let d = area_sum::<A>(plane, w, y0, x0);
    lemma_corners_combined::<A>(
        r,
        a,
        b,
        c,
        d,
        exact_area(v, w, y1, x1),
        exact_area(v, w, y0, x1),
        exact_area(v, w, y1, x0),
        exact_area(v, w, y0, x0),
        e,
        many(h as nat, many(w as nat, bound)),
    );
    let sum = plus_of::<A>(minus_of::<A>(minus_of::<A>(a, b), c), d);
    let k = places(w, h, radius, x, y);
    lemma_places(v, w, h, radius, x, y);
    lemma_real_product((x1 - x0) as nat, (y1 - y0) as nat);
    lemma_product_units((x1 - x0) as real, (y1 - y0) as real);
    let area = (x1 - x0) * (y1 - y0);
    assert(1 <= area <= w * h) by (nonlinear_arith)
        requires
            1 <= x1 - x0 <= w,
            1 <= y1 - y0 <= h,
            area == (x1 - x0) * (y1 - y0),
    ;
    lemma_count_reads::<A>(r, w * h, area);
    let denom = tally_of::<A>(area as u64);
    assert((r.wide)(denom) == k);
    lemma_product_order(r.top, 1real, k);
    lemma_product_units(r.top, 1real);
    lemma_over_rounds::<A>(r, sum, denom);
    let mean = (r.wide)(over_of::<A>(sum, denom));
    let mu = exact_mean(v, w, h, radius, x, y);
    let total = (r.wide)(sum);
    assert(size(total - around(v, w, h, radius, x, y)) <= 4real * e + 3real * r.step);
    lemma_mean_gap(mean, mu, k, total, r.step, 4real * e + 3real * r.step);
}

/// A mean and an exact mean whose sums are near are near.
proof fn lemma_mean_gap(mean: real, mu: real, k: real, total: real, st: real, e: real)
    requires
        1real <= k,
        0real <= e,
        0real <= st,
        size(product(mean, k) - total) <= product(st, k),
        size(total - product(k, mu)) <= e,
    ensures
        size(mean - mu) <= e + st,
{
    lemma_product_units(mean, k);
    lemma_product_units(st, k);
    lemma_product_sum(mean, mu, k);
    lemma_product_order(e, 1real, k);
    lemma_product_units(e, 1real);
    lemma_product_units(e, k);
    lemma_product_sum(e, st, k);
    lemma_product_units(k, e + st);
    assert(size(product(k, mean - mu)) <= product(k, e + st));
    lemma_product_cancel(k, mean - mu, e + st);
    assert(product(k, -(e + st)) == -product(k, e + st));
    lemma_product_cancel(k, -(e + st), mean - mu);
}

/// How large the covariance with a constant of size `c` can come out, under a guide of size `g` and means
/// within `em`.
pub open spec fn stray_covariance(r: Reading, c: real, g: real, em: real) -> real {
    product(c, em) + product(g + em, em) + em + 2real * r.step
}

/// How far an intercept can be from the constant, with slopes of size `slope`.
pub open spec fn intercept_error(r: Reading, slope: real, g: real, em: real) -> real {
    product(slope, g + em) + em + r.step
}

/// How far a kept constant can be from the constant.
pub open spec fn guided_error(r: Reading, slope: real, g: real, em: real) -> real {
    product(slope + em, g) + intercept_error(r, slope, g, em) + em + r.step
}

/// The sum of three numbers is no larger than their sizes added.
proof fn lemma_three(a: real, b: real, c: real, x: real, y: real, z: real)
    requires
        size(a) <= x,
        size(b) <= y,
        size(c) <= z,
    ensures
        size(a + b + c) <= x + y + z,
{
}

/// A product is no larger than the product of bounds.
proof fn lemma_product_bound(a: real, b: real, x: real, y: real)
    requires
        size(a) <= x,
        size(b) <= y,
    ensures
        size(product(a, b)) <= product(x, y),
        0real <= product(x, y),
{
    lemma_size_product(a, b);
    lemma_product_order(size(a), size(b), y);
    lemma_product_order(y, size(a), x);
}

/// A fused step with a turned factor is near the exact one.
proof fn lemma_turned_fused<A: Arithmetic>(r: Reading, a: u64, b: u64, c: u64, k: real)
    requires
        obeys::<A>(r),
        finite(a),
        finite(b),
        finite(c),
        size((r.wide)(c) - product((r.wide)(a), (r.wide)(b))) <= k,
        k <= r.top,
    ensures
        finite(fused_of::<A>(a, negated(b), c)),
        size(
            (r.wide)(fused_of::<A>(a, negated(b), c)) - ((r.wide)(c) - product((r.wide)(a), (r.wide)(b))),
        ) <= r.step,
{
    assert(finite(negated(b)) && (r.wide)(negated(b)) == -(r.wide)(b)) by {
        reveal(signs_read);
    }
    lemma_product_units((r.wide)(a), (r.wide)(b));
    lemma_fused_rounds::<A>(r, a, negated(b), c);
}

/// The covariance with a constant is nearly zero.
proof fn lemma_covariance_near<A: Arithmetic>(r: Reading, mg: u64, mi: u64, mp: u64, mu: real, c: real, g: real, em: real)
    requires
        obeys::<A>(r),
        finite(mg),
        finite(mi),
        finite(mp),
        0real <= em,
        size((r.wide)(mg) - mu) <= em,
        size((r.wide)(mi) - c) <= em,
        size((r.wide)(mp) - product(c, mu)) <= em + r.step,
        size(mu) <= g,
        stray_covariance(r, size(c), g, em) <= r.top,
    ensures
        finite(fused_of::<A>(mg, negated(mi), mp)),
        size((r.wide)(fused_of::<A>(mg, negated(mi), mp))) <= stray_covariance(r, size(c), g, em),
{
    let x = (r.wide)(mg);
    let y = (r.wide)(mi);
    let z = (r.wide)(mp);
    let first = z - product(c, mu);
    let second = product(c, mu - x);
    let third = product(x, c - y);
    lemma_product_sum(mu, x, c);
    lemma_product_sum(c, y, x);
    lemma_product_units(c, x);
    assert(first + second + third == z - product(x, y));
    assert(size(mu - x) <= em && size(c - y) <= em && size(x) <= g + em);
    lemma_product_bound(c, mu - x, size(c), em);
    lemma_product_bound(x, c - y, g + em, em);
    lemma_three(first, second, third, em + r.step, product(size(c), em), product(g + em, em));
    let k = product(size(c), em) + product(g + em, em) + em + r.step;
    lemma_turned_fused::<A>(r, mg, mi, mp, k);
}

/// A small number over one that is not too small is small.
proof fn lemma_slope_near<A: Arithmetic>(r: Reading, cov: u64, denom: u64, k: real, tilt: real, least: real)
    requires
        obeys::<A>(r),
        quotients_round::<A>(r),
        finite(cov),
        finite(denom),
        0real < least <= (r.wide)(denom),
        0real <= tilt <= r.top,
        size((r.wide)(cov)) <= k,
        k <= product(tilt, least),
    ensures
        finite(over_of::<A>(cov, denom)),
        size((r.wide)(over_of::<A>(cov, denom))) <= tilt + r.step,
{
    let d = (r.wide)(denom);
    lemma_product_order(tilt, least, d);
    lemma_product_order(d, tilt, r.top);
    lemma_over_rounds::<A>(r, cov, denom);
    let a = (r.wide)(over_of::<A>(cov, denom));
    let limit = tilt + r.step;
    lemma_product_sum(tilt, r.step, d);
    lemma_product_units(a, d);
    lemma_product_units(limit, d);
    lemma_product_units(d, limit);
    assert(size(product(a, d)) <= product(limit, d));
    lemma_product_cancel(d, a, limit);
    assert(product(d, -limit) == -product(d, limit));
    lemma_product_cancel(d, -limit, a);
}

/// An intercept is near the constant.
proof fn lemma_intercept_near<A: Arithmetic>(r: Reading, a: u64, mg: u64, mi: u64, c: real, slope: real, g: real, em: real)
    requires
        obeys::<A>(r),
        finite(a),
        finite(mg),
        finite(mi),
        size((r.wide)(a)) <= slope,
        size((r.wide)(mg)) <= g + em,
        size((r.wide)(mi) - c) <= em,
        size(c) + intercept_error(r, slope, g, em) <= r.top,
    ensures
        finite(intercept_of::<A>(a, mg, mi)),
        size((r.wide)(intercept_of::<A>(a, mg, mi)) - c) <= intercept_error(r, slope, g, em),
{
    let x = product((r.wide)(a), (r.wide)(mg));
    lemma_product_bound((r.wide)(a), (r.wide)(mg), slope, g + em);
    let k = size(c) + product(slope, g + em) + em;
    assert(size((r.wide)(mi) - x) <= k);
    lemma_turned_fused::<A>(r, a, mg, mi, k);
}

/// The regularised variance at a pixel's window.
pub open spec fn denominator<A: Arithmetic>(guide: Seq<u64>, w: int, h: int, request: GuidedRequest, i: int) -> u64 {
    let radius = request.radius as int;
    let mean = window_means::<A>(guide, w, h, radius)[i];
    let square = window_means::<A>(products::<A>(guide, guide), w, h, radius)[i];
    plus_of::<A>(fused_of::<A>(mean, negated(mean), square), request.epsilon)
}

/// Wherever a slope is divided out, the divisor is finite and at least `least`.
pub open spec fn divisors_hold<A: Arithmetic>(
    r: Reading,
    guide: Seq<u64>,
    w: int,
    h: int,
    request: GuidedRequest,
    least: real,
) -> bool {
    forall|i: int|
        0 <= i < w * h && less(ZERO, #[trigger] denominator::<A>(guide, w, h, request, i)) ==> finite(
            denominator::<A>(guide, w, h, request, i),
        ) && least <= (r.wide)(denominator::<A>(guide, w, h, request, i))
}

/// The numbers that a constant of size `c` gives rise to under a guide of size `g`, with slopes of size
/// `slope`, are no larger than `bound`.
pub open spec fn guided_fits(r: Reading, h: nat, w: nat, c: real, g: real, slope: real, bound: real) -> bool {
    let em = mean_error(r, h, w);
    &&& 0real <= g <= bound
    &&& c <= bound
    &&& product(c, g) + r.step <= bound
    &&& slope <= bound
    &&& c + intercept_error(r, slope, g, em) <= bound
    &&& c + guided_error(r, slope, g, em) <= r.top
    &&& bound <= r.top
    &&& stray_covariance(r, c, g, em) <= r.top
    &&& corners_fit(r, h, w, bound)
}

/// The fit of a window to a constant: nearly no slope, and nearly the constant as intercept.
proof fn lemma_constant_fit<A: Arithmetic>(
    r: Reading,
    guide: Seq<u64>,
    c: u64,
    w: int,
    h: int,
    request: GuidedRequest,
    g: real,
    tilt: real,
    least: real,
    bound: real,
    i: int,
)
    requires
        obeys::<A>(r),
        quotients_round::<A>(r),
        counts_read::<A>(r, w * h),
        1 <= w,
        1 <= h,
        guide.len() == w * h,
        plane_within(r, guide, g),
        finite(c),
        guided_fits(r, h as nat, w as nat, size((r.wide)(c)), g, tilt + r.step, bound),
        0real <= tilt,
        0real < least,
        divisors_hold::<A>(r, guide, w, h, request, least),
        stray_covariance(r, size((r.wide)(c)), g, mean_error(r, h as nat, w as nat)) <= product(tilt, least),
        0 <= i < w * h,
    ensures
        finite(slopes::<A>(guide, level(w, h, c), w, h, request)[i]),
        size((r.wide)(slopes::<A>(guide, level(w, h, c), w, h, request)[i])) <= tilt + r.step,
        finite(intercepts::<A>(guide, level(w, h, c), w, h, request)[i]),
        size((r.wide)(intercepts::<A>(guide, level(w, h, c), w, h, request)[i]) - (r.wide)(c))
            <= intercept_error(r, tilt + r.step, g, mean_error(r, h as nat, w as nat)),
{
    let radius = request.radius as int;
    let em = mean_error(r, h as nat, w as nat);
    let v = (r.wide)(c);
    let input = level(w, h, c);
    let prod = products::<A>(guide, input);
    lemma_at_of(i, w, h);
    let x = i % w;
    let y = i / w;
    let rg = readings(r, guide);
    assert(plane_within(r, guide, bound));
    assert(plane_within(r, input, bound));
    let scaled = |k: int| product(v, rg(k));
    assert forall|k: int| 0 <= k < prod.len() implies finite(#[trigger] prod[k]) && size((r.wide)(prod[k])) <= bound
        && size((r.wide)(prod[k]) - scaled(k)) <= r.step by {
        assert(finite(guide[k]) && size((r.wide)(guide[k])) <= g);
        lemma_product_bound((r.wide)(guide[k]), v, g, size(v));
        lemma_product_units((r.wide)(guide[k]), v);
        lemma_product_units(g, size(v));
        lemma_times_rounds::<A>(r, guide[k], c);
    }
    law_window_mean_is_near::<A>(r, guide, w, h, radius, x, y, bound);
    law_window_mean_is_near::<A>(r, input, w, h, radius, x, y, bound);
    law_window_mean_is_near::<A>(r, prod, w, h, radius, x, y, bound);
    let mg = window_mean::<A>(guide, w, h, radius, x, y);
    let mi = window_mean::<A>(input, w, h, radius, x, y);
    let mp = window_mean::<A>(prod, w, h, radius, x, y);
    let mu = exact_mean(rg, w, h, radius, x, y);
    let zero = |k: int| 0real;
    let flat = |k: int| v;
    let ri = readings(r, input);
    let rp = readings(r, prod);
    assert forall|k: int| 0 <= k < w * h implies size(#[trigger] rg(k) - zero(k)) <= g by {
        assert(size((r.wide)(guide[k])) <= g);
    }
    lemma_exact_means_apart(rg, zero, w, h, radius, x, y, g);
    lemma_exact_mean_constant(0real, w, h, radius, x, y);
    assert forall|k: int| 0 <= k < w * h implies size(#[trigger] ri(k) - flat(k)) <= 0real by {}
    lemma_exact_means_apart(ri, flat, w, h, radius, x, y, 0real);
    lemma_exact_mean_constant(v, w, h, radius, x, y);
    assert forall|k: int| 0 <= k < w * h implies size(#[trigger] rp(k) - scaled(k)) <= r.step by {
        assert(finite(prod[k]));
    }
    lemma_exact_means_apart(rp, scaled, w, h, radius, x, y, r.step);
    lemma_exact_mean_scaled(rg, v, w, h, radius, x, y);
    assert(size((r.wide)(mi) - v) <= em);
    assert(size((r.wide)(mp) - product(v, mu)) <= em + r.step);
    lemma_covariance_near::<A>(r, mg, mi, mp, mu, v, g, em);
    let slope = slopes::<A>(guide, input, w, h, request)[i];
    let denom = denominator::<A>(guide, w, h, request, i);
    lemma_zero_reads::<A>(r);
    if less(ZERO, denom) {
        lemma_slope_near::<A>(
            r,
            fused_of::<A>(mg, negated(mi), mp),
            denom,
            stray_covariance(r, size(v), g, em),
            tilt,
            least,
        );
    }
    lemma_intercept_near::<A>(r, slope, mg, mi, v, tilt + r.step, g, em);
}

/// A guided filter keeps a constant channel up to rounding, whatever the guide: within an error that grows
/// with how little the guide varies where a slope is divided out.
pub proof fn law_guided_nearly_keeps_a_constant<A: Arithmetic>(
    r: Reading,
    guide: Seq<u64>,
    c: u64,
    w: int,
    h: int,
    request: GuidedRequest,
    g: real,
    tilt: real,
    least: real,
    bound: real,
    i: int,
)
    requires
        obeys::<A>(r),
        quotients_round::<A>(r),
        counts_read::<A>(r, w * h),
        1 <= w,
        1 <= h,
        guide.len() == w * h,
        plane_within(r, guide, g),
        finite(c),
        guided_fits(r, h as nat, w as nat, size((r.wide)(c)), g, tilt + r.step, bound),
        0real <= tilt,
        0real < least,
        divisors_hold::<A>(r, guide, w, h, request, least),
        stray_covariance(r, size((r.wide)(c)), g, mean_error(r, h as nat, w as nat)) <= product(tilt, least),
        0 <= i < w * h,
    ensures
        finite(guided_plane::<A>(guide, level(w, h, c), w, h, request)[i]),
        size((r.wide)(guided_plane::<A>(guide, level(w, h, c), w, h, request)[i]) - (r.wide)(c)) <= guided_error(
            r,
            tilt + r.step,
            g,
            mean_error(r, h as nat, w as nat),
        ),
{
    let radius = request.radius as int;
    let em = mean_error(r, h as nat, w as nat);
    let v = (r.wide)(c);
    let input = level(w, h, c);
    let alpha = tilt + r.step;
    let beta = intercept_error(r, alpha, g, em);
    let a = slopes::<A>(guide, input, w, h, request);
    let b = intercepts::<A>(guide, input, w, h, request);
    let ra = readings(r, a);
    let rb = readings(r, b);
    let zero = |k: int| 0real;
    let flat = |k: int| v;
    assert forall|k: int| 0 <= k < w * h implies finite(#[trigger] a[k]) && size((r.wide)(a[k])) <= alpha by {
        lemma_constant_fit::<A>(r, guide, c, w, h, request, g, tilt, least, bound, k);
    }
    assert forall|k: int| 0 <= k < w * h implies finite(#[trigger] b[k]) && size((r.wide)(b[k]) - v) <= beta by {
        lemma_constant_fit::<A>(r, guide, c, w, h, request, g, tilt, least, bound, k);
    }
    lemma_at_of(i, w, h);
    let x = i % w;
    let y = i / w;
    law_window_mean_is_near::<A>(r, a, w, h, radius, x, y, bound);
    law_window_mean_is_near::<A>(r, b, w, h, radius, x, y, bound);
    assert forall|k: int| 0 <= k < w * h implies size(#[trigger] ra(k) - zero(k)) <= alpha by {
        assert(finite(a[k]));
    }
    assert forall|k: int| 0 <= k < w * h implies size(#[trigger] rb(k) - flat(k)) <= beta by {
        assert(finite(b[k]));
    }
    lemma_exact_means_apart(ra, zero, w, h, radius, x, y, alpha);
    lemma_exact_means_apart(rb, flat, w, h, radius, x, y, beta);
    lemma_exact_mean_constant(0real, w, h, radius, x, y);
    lemma_exact_mean_constant(v, w, h, radius, x, y);
    let ma = window_mean::<A>(a, w, h, radius, x, y);
    let mb = window_mean::<A>(b, w, h, radius, x, y);
    assert(size((r.wide)(ma)) <= alpha + em);
    assert(size((r.wide)(mb) - v) <= beta + em);
    assert(finite(guide[i]) && size((r.wide)(guide[i])) <= g);
    lemma_product_bound((r.wide)(ma), (r.wide)(guide[i]), alpha + em, g);
    lemma_fused_rounds::<A>(r, ma, guide[i], mb);
}

} // verus!
