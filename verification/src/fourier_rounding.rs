//! The Fourier transforms in an arithmetic that rounds: how far they are from the exact sums, and how
//! far a buffer is from what its spectrum turns back into.
use crate::arithmetic::{narrow_of, times_of, widen_of, Arithmetic};
use crate::binary::{finite, negated, sample_finite};
use crate::dft::{
    bin_sum, column_of, columns_of, complex_plane, factor_of, forward_of, halved, inverse_real_of,
    is_two_power, lemma_two_to_grows, lemma_two_to_positive, line_of, plane_of, power_of, real_plane,
    row_of, rows_of, scale_of, stage_root, summed, two_to, zero, Complex, FORWARD, INVERSE,
};
use crate::lattice::{at, lemma_at_bounds, lemma_at_inverse, lemma_at_of};
use crate::planar::{
    lemma_near_chain, lemma_near_sum, lemma_psum_difference, lemma_psum_halves, lemma_psum_same,
    lemma_psum_scaled, lemma_psum_single, lemma_psum_span, lemma_psums_exchange, lemma_span_bound,
    lemma_span_sum, lemma_times_bracket, lemma_times_origin, lemma_times_sum, lemma_times_turn, many,
    origin, psum, scalar, Point,
};
use crate::rounding::{
    lemma_fused_rounds, lemma_minus_rounds, lemma_narrow_rounds, lemma_plus_rounds, lemma_product_order,
    lemma_product_sum, lemma_product_units, lemma_size_product, lemma_times_rounds, lemma_widen_reads,
    lemma_zero_reads, obeys, product, signs_read, size, Reading,
};
use vstd::prelude::*;

verus! {

/// Both parts are finite.
pub open spec fn sound(z: Complex) -> bool {
    finite(z.re) && finite(z.im)
}

/// The complex number that a pair of patterns stands for.
pub open spec fn point_of(r: Reading, z: Complex) -> Point {
    Point { re: (r.wide)(z.re), im: (r.wide)(z.im) }
}

/// A computed number is finite and within a distance of an exact one.
pub open spec fn near(r: Reading, z: Complex, exact: Point, error: real) -> bool {
    sound(z) && point_of(r, z).minus(exact).span() <= error
}

/// A sum is within two rounding steps of the exact one.
proof fn lemma_added_near<A: Arithmetic>(r: Reading, a: Complex, b: Complex)
    requires
        obeys::<A>(r),
        sound(a),
        sound(b),
        point_of(r, a).span() + point_of(r, b).span() <= r.top,
    ensures
        near(r, a.added::<A>(b), point_of(r, a).plus(point_of(r, b)), 2real * r.step),
{
    reveal(Point::span);
    lemma_plus_rounds::<A>(r, a.re, b.re);
    lemma_plus_rounds::<A>(r, a.im, b.im);
}

/// A difference is within two rounding steps of the exact one.
proof fn lemma_subtracted_near<A: Arithmetic>(r: Reading, a: Complex, b: Complex)
    requires
        obeys::<A>(r),
        sound(a),
        sound(b),
        point_of(r, a).span() + point_of(r, b).span() <= r.top,
    ensures
        near(r, a.subtracted::<A>(b), point_of(r, a).minus(point_of(r, b)), 2real * r.step),
{
    reveal(Point::span);
    lemma_minus_rounds::<A>(r, a.re, b.re);
    lemma_minus_rounds::<A>(r, a.im, b.im);
}

/// Turning the sign keeps a number finite and turns what it stands for.
proof fn lemma_negated_reads<A: Arithmetic>(r: Reading, a: u64)
    requires
        obeys::<A>(r),
        finite(a),
    ensures
        finite(negated(a)),
        (r.wide)(negated(a)) == -(r.wide)(a),
{
    reveal(signs_read);
}

/// A product is within four rounding steps of the exact one.
proof fn lemma_multiplied_near<A: Arithmetic>(r: Reading, a: Complex, b: Complex)
    requires
        obeys::<A>(r),
        sound(a),
        sound(b),
        product(point_of(r, a).span(), point_of(r, b).span()) + r.step <= r.top,
    ensures
        near(r, a.multiplied::<A>(b), point_of(r, a).times(point_of(r, b)), 4real * r.step),
{
    reveal(Point::span);
    let p = point_of(r, a);
    let q = point_of(r, b);
    lemma_size_product(p.re, q.re);
    lemma_size_product(p.im, q.im);
    lemma_size_product(p.re, q.im);
    lemma_size_product(p.im, q.re);
    lemma_product_sum(size(p.re), size(p.im), q.span());
    lemma_product_sum(size(q.re), size(q.im), size(p.re));
    lemma_product_sum(size(q.re), size(q.im), size(p.im));
    lemma_times_rounds::<A>(r, a.im, b.im);
    lemma_times_rounds::<A>(r, a.im, b.re);
    let low = times_of::<A>(a.im, b.im);
    lemma_negated_reads::<A>(r, low);
    lemma_fused_rounds::<A>(r, a.re, b.re, negated(low));
    lemma_fused_rounds::<A>(r, a.re, b.im, times_of::<A>(a.im, b.re));
}

/// A product of a computed number and a computed factor is near the product of the exact ones.
proof fn lemma_product_near<A: Arithmetic>(
    r: Reading,
    a: Complex,
    b: Complex,
    x: Point,
    c: Point,
    reach: real,
    error: real,
    slack: real,
)
    requires
        obeys::<A>(r),
        near(r, a, x, error),
        near(r, b, c, slack),
        x.span() <= reach,
        c.span() <= 3real / 2real,
        product(reach + error, 3real / 2real + slack) + r.step <= r.top,
    ensures
        near(
            r,
            a.multiplied::<A>(b),
            x.times(c),
            product(error, 3real / 2real + slack) + product(reach, slack) + 4real * r.step,
        ),
{
    let p = point_of(r, a);
    let q = point_of(r, b);
    lemma_span_sum(p, x);
    lemma_span_sum(q, c);
    lemma_product_order(p.span(), q.span(), 3real / 2real + slack);
    lemma_product_order(3real / 2real + slack, p.span(), reach + error);
    lemma_multiplied_near::<A>(r, a, b);
    lemma_times_sum(p, x, q);
    lemma_times_sum(q, c, x);
    lemma_span_bound(p.minus(x), q, error, 3real / 2real + slack);
    lemma_span_bound(x, q.minus(c), reach, slack);
    assert(p.times(q).minus(x.times(c)) == p.minus(x).times(q).plus(x.times(q.minus(c))));
    lemma_span_sum(p.minus(x).times(q), x.times(q.minus(c)));
    lemma_times_turn(c, x);
    lemma_times_turn(q, x);
    lemma_near_chain(point_of(r, a.multiplied::<A>(b)), p.times(q), x.times(c));
}

/// The exact turning numbers: `turn(n, k)` is `k` steps of a circle cut into `n`. They are multiplied by
/// adding steps, a whole circle is no turn, half a circle turns the sign, and a circle cut twice as
/// finely takes twice the steps. The sizes of both parts of one add up to one and a half at most.
#[verifier::opaque]
pub open spec fn circles(turn: spec_fn(int, int) -> Point) -> bool {
    &&& forall|n: int, k: int| 0 < n ==> (#[trigger] turn(n, k)).span() <= 3real / 2real
    &&& forall|n: int, a: int, b: int|
        0 < n ==> #[trigger] turn(n, a + b) == turn(n, a).times(turn(n, b))
    &&& forall|n: int, a: int, j: int| 0 < n ==> #[trigger] turn(n, a + n * j) == turn(n, a)
    &&& forall|h: int| 0 < h ==> #[trigger] turn(2 * h, h) == scalar(-1real)
    &&& forall|h: int, k: int| 0 < h ==> #[trigger] turn(2 * h, 2 * k) == turn(h, k)
}

/// What bin `k` of the transform of the first `n` values of a function is exactly.
pub open spec fn bin(f: spec_fn(int) -> Point, turn: spec_fn(int, int) -> Point, n: nat, k: int) -> Point {
    psum(|j: int| f(j).times(turn(n as int, k * j)), n)
}

/// One and a half as a factor.
proof fn lemma_half_more(x: real)
    ensures
        product(x, 3real / 2real) == 3real / 2real * x,
{
    reveal(product);
}

/// A number times minus one is its opposite.
proof fn lemma_turned_sign(a: Point)
    ensures
        a.times(scalar(-1real)) == origin().minus(a),
{
    lemma_product_units(a.re, 1real);
    lemma_product_units(a.im, 1real);
    lemma_product_units(a.re, 0real);
    lemma_product_units(a.im, 0real);
}

/// A bin of numbers within a span is within one and a half times that span for each of them.
pub proof fn lemma_bin_span(f: spec_fn(int) -> Point, turn: spec_fn(int, int) -> Point, n: nat, k: int, reach: real)
    requires
        circles(turn),
        forall|i: int| 0 <= i < n ==> (#[trigger] f(i)).span() <= reach,
    ensures
        bin(f, turn, n, k).span() <= many(n, 3real / 2real * reach),
{
    let terms = |j: int| f(j).times(turn(n as int, k * j));
    assert forall|j: int| 0 <= j < n implies (#[trigger] terms(j)).span() <= 3real / 2real * reach by {
        reveal(circles);
        assert(f(j).span() <= reach);
        lemma_span_bound(f(j), turn(n as int, k * j), reach, 3real / 2real);
        lemma_half_more(reach);
    }
    lemma_psum_span(terms, n, 3real / 2real * reach);
}

/// Bins of numbers that are near each other are near each other.
pub proof fn lemma_bins_near(
    f: spec_fn(int) -> Point,
    g: spec_fn(int) -> Point,
    turn: spec_fn(int, int) -> Point,
    n: nat,
    k: int,
    error: real,
)
    requires
        circles(turn),
        forall|i: int| 0 <= i < n ==> (#[trigger] f(i)).minus(g(i)).span() <= error,
    ensures
        bin(f, turn, n, k).minus(bin(g, turn, n, k)).span() <= many(n, 3real / 2real * error),
{
    let apart = |i: int| f(i).minus(g(i));
    let p = |j: int| f(j).times(turn(n as int, k * j));
    let q = |j: int| g(j).times(turn(n as int, k * j));
    lemma_psum_difference(p, q, n);
    let d = |i: int| p(i).minus(q(i));
    let e = |j: int| apart(j).times(turn(n as int, k * j));
    assert forall|i: int| 0 <= i < n implies #[trigger] d(i) == e(i) by {
        lemma_times_sum(f(i), g(i), turn(n as int, k * i));
    }
    lemma_psum_same(d, e, n);
    assert forall|i: int| 0 <= i < n implies (#[trigger] apart(i)).span() <= error by {
        assert(f(i).minus(g(i)).span() <= error);
    }
    lemma_bin_span(apart, turn, n, k, error);
}

/// A bin of twice as many numbers is made of the bins of those at even and at odd places.
proof fn lemma_bin_halves(f: spec_fn(int) -> Point, turn: spec_fn(int, int) -> Point, h: nat, k: int)
    requires
        circles(turn),
        0 < h,
    ensures
        bin(f, turn, 2 * h, k) == bin(|j: int| f(2 * j), turn, h, k).plus(
            bin(|j: int| f(2 * j + 1), turn, h, k).times(turn(2 * h as int, k)),
        ),
{
    let fe = |j: int| f(2 * j);
    let fo = |j: int| f(2 * j + 1);
    let w = turn(2 * h as int, k);
    let terms = |j: int| f(j).times(turn((2 * h) as int, k * j));
    lemma_psum_halves(terms, h);
    let te = |j: int| terms(2 * j);
    let to = |j: int| terms(2 * j + 1);
    let ge = |j: int| fe(j).times(turn(h as int, k * j));
    let go = |j: int| fo(j).times(turn(h as int, k * j));
    let gow = |j: int| go(j).times(w);
    assert forall|j: int| 0 <= j < h implies #[trigger] te(j) == ge(j) by {
        reveal(circles);
        assert(k * (2 * j) == 2 * (k * j)) by (nonlinear_arith);
        assert(turn(2 * h as int, 2 * (k * j)) == turn(h as int, k * j));
    }
    assert forall|j: int| 0 <= j < h implies #[trigger] to(j) == gow(j) by {
        reveal(circles);
        assert(k * (2 * j + 1) == 2 * (k * j) + k) by (nonlinear_arith);
        assert(turn(2 * h as int, 2 * (k * j)) == turn(h as int, k * j));
        assert(turn(2 * h as int, 2 * (k * j) + k) == turn(2 * h as int, 2 * (k * j)).times(w));
        lemma_times_bracket(fo(j), turn(h as int, k * j), w);
    }
    lemma_psum_same(te, ge, h);
    lemma_psum_same(to, gow, h);
    lemma_psum_scaled(go, h, w);
}

/// The second half of the bins is made of the same parts, with a difference in place of the sum.
proof fn lemma_bin_far_half(f: spec_fn(int) -> Point, turn: spec_fn(int, int) -> Point, h: nat, k: int)
    requires
        circles(turn),
        0 < h,
    ensures
        bin(f, turn, 2 * h, k + h) == bin(|j: int| f(2 * j), turn, h, k).minus(
            bin(|j: int| f(2 * j + 1), turn, h, k).times(turn(2 * h as int, k)),
        ),
{
    let fe = |j: int| f(2 * j);
    let fo = |j: int| f(2 * j + 1);
    let w = turn(2 * h as int, k);
    lemma_bin_halves(f, turn, h, k + h);
    lemma_bin_around(fe, turn, h, k);
    lemma_bin_around(fo, turn, h, k);
    assert(turn(2 * h as int, k + h) == w.times(scalar(-1real))) by {
        reveal(circles);
        assert(turn(2 * h as int, k + h as int) == w.times(turn(2 * h as int, h as int)));
        assert(turn(2 * (h as int), h as int) == scalar(-1real));
    }
    let odd = bin(fo, turn, h, k);
    lemma_times_bracket(odd, w, scalar(-1real));
    lemma_turned_sign(odd.times(w));
}

/// Bins repeat after as many as there are numbers.
proof fn lemma_bin_around(f: spec_fn(int) -> Point, turn: spec_fn(int, int) -> Point, h: nat, k: int)
    requires
        circles(turn),
        0 < h,
    ensures
        bin(f, turn, h, k + h) == bin(f, turn, h, k),
{
    let p = |j: int| f(j).times(turn(h as int, (k + h) * j));
    let q = |j: int| f(j).times(turn(h as int, k * j));
    assert forall|j: int| 0 <= j < h implies #[trigger] p(j) == q(j) by {
        reveal(circles);
        assert((k + h) * j == k * j + h * j) by (nonlinear_arith);
        assert(turn(h as int, k * j + h as int * j) == turn(h as int, k * j));
    }
    lemma_psum_same(p, q, h);
}

/// The factor of place `k` in the stage that makes blocks of two to the power `s`.
pub open spec fn stage_factor<A: Arithmetic>(dir: u64, s: nat, k: int) -> Complex {
    power_of::<A>(stage_root::<A>(dir, two_to(s) as int), k as nat)
}

/// The factors that a transform of length `n` computes are within a slack of the exact turning numbers:
/// those of its stages where the length is a power of two, those of its sums otherwise.
#[verifier::opaque]
pub open spec fn factors_near<A: Arithmetic>(
    r: Reading,
    dir: u64,
    turn: spec_fn(int, int) -> Point,
    n: nat,
    slack: real,
) -> bool {
    if is_two_power(n as int) {
        forall|s: nat, k: int|
            0 < s && two_to(s) <= n && 0 <= 2 * k < two_to(s) ==> near(
                r,
                #[trigger] stage_factor::<A>(dir, s, k),
                turn(two_to(s) as int, k),
                slack,
            )
    } else {
        forall|k: int, j: int|
            0 <= k < n && 0 <= j < n ==> near(
                r,
                #[trigger] factor_of::<A>(dir, n as int, k, j),
                turn(n as int, k * j),
                slack,
            )
    }
}

/// Every number of a line is finite and within a span.
pub open spec fn line_within(r: Reading, x: Seq<Complex>, reach: real) -> bool {
    forall|i: int| 0 <= i < x.len() ==> sound(#[trigger] x[i]) && point_of(r, x[i]).span() <= reach
}

/// The numbers that a line stands for, from `offset` on in steps of `stride`.
pub open spec fn points_of(r: Reading, x: Seq<Complex>, offset: int, stride: int) -> spec_fn(int) -> Point {
    |i: int| point_of(r, x[offset + stride * i])
}

/// Computed bins are near those of the numbers that a function gives, which are within a span.
pub open spec fn bins_near(
    r: Reading,
    out: Seq<Complex>,
    f: spec_fn(int) -> Point,
    turn: spec_fn(int, int) -> Point,
    error: real,
    reach: real,
) -> bool {
    forall|k: int|
        0 <= k < out.len() ==> near(r, #[trigger] out[k], bin(f, turn, out.len(), k), error) && bin(
            f,
            turn,
            out.len(),
            k,
        ).span() <= reach
}

/// How large the exact bins can be after `s` stages.
pub open spec fn stage_reach(s: nat, reach: real) -> real
    decreases s,
{
    if s == 0 {
        reach
    } else {
        5real / 2real * stage_reach((s - 1) as nat, reach)
    }
}

/// How far the computed bins can be from the exact ones after `s` stages.
pub open spec fn stage_error(r: Reading, s: nat, reach: real, slack: real) -> real
    decreases s,
{
    if s == 0 {
        0real
    } else {
        let before = stage_error(r, (s - 1) as nat, reach, slack);
        before + product(before, 3real / 2real + slack) + product(stage_reach((s - 1) as nat, reach), slack) + 6real
            * r.step
    }
}

/// Reaches and errors are not negative.
proof fn lemma_stage_signs(r: Reading, s: nat, reach: real, slack: real)
    requires
        0real <= r.step,
        0real <= reach,
        0real <= slack,
    ensures
        0real <= stage_reach(s, reach),
        0real <= stage_error(r, s, reach, slack),
    decreases s,
{
    if s > 0 {
        let t = (s - 1) as nat;
        lemma_stage_signs(r, t, reach, slack);
        lemma_size_product(stage_error(r, t, reach, slack), 3real / 2real + slack);
        lemma_size_product(stage_reach(t, reach), slack);
    }
}

/// The places of the halves of a strided line are places of the line.
proof fn lemma_strides(offset: int, stride: int, h: int, n: int)
    by (nonlinear_arith)
    requires
        0 <= offset,
        0 < stride,
        0 < h,
        offset + stride * (2 * h - 1) < n,
    ensures
        offset + 2 * stride * (h - 1) < n,
        offset + stride + 2 * stride * (h - 1) < n,
{
}

/// Combining a computed bin of each half gives one near the exact combination.
proof fn lemma_combined_near<A: Arithmetic>(
    r: Reading,
    even: Complex,
    odd: Complex,
    factor: Complex,
    x: Point,
    y: Point,
    c: Point,
    reach: real,
    error: real,
    slack: real,
)
    requires
        obeys::<A>(r),
        0real <= reach,
        0real <= error,
        0real <= slack,
        near(r, even, x, error),
        near(r, odd, y, error),
        near(r, factor, c, slack),
        x.span() <= reach,
        y.span() <= reach,
        c.span() <= 3real / 2real,
        5real / 2real * reach + error + product(error, 3real / 2real + slack) + product(reach, slack) + 6real * r.step <= r.top,
    ensures
        near(
            r,
            even.added::<A>(odd.multiplied::<A>(factor)),
            x.plus(y.times(c)),
            error + product(error, 3real / 2real + slack) + product(reach, slack) + 6real * r.step,
        ),
        near(
            r,
            even.subtracted::<A>(odd.multiplied::<A>(factor)),
            x.minus(y.times(c)),
            error + product(error, 3real / 2real + slack) + product(reach, slack) + 6real * r.step,
        ),
        x.plus(y.times(c)).span() <= 5real / 2real * reach,
        x.minus(y.times(c)).span() <= 5real / 2real * reach,
{
    lemma_product_sum(reach, error, 3real / 2real + slack);
    lemma_product_sum(3real / 2real, slack, reach);
    lemma_half_more(reach);
    lemma_product_near::<A>(r, odd, factor, y, c, reach, error, slack);
    lemma_span_bound(y, c, reach, 3real / 2real);
    let z = odd.multiplied::<A>(factor);
    let p = point_of(r, even);
    let q = point_of(r, z);
    lemma_span_sum(p, x);
    lemma_span_sum(q, y.times(c));
    lemma_span_sum(x, y.times(c));
    lemma_added_near::<A>(r, even, z);
    lemma_subtracted_near::<A>(r, even, z);
    lemma_near_sum(point_of(r, even.added::<A>(z)), p, q, x, y.times(c));
    lemma_near_sum(point_of(r, even.subtracted::<A>(z)), p, q, x, y.times(c));
}

/// The bins that halving computes are near the exact ones.
proof fn lemma_halved_near<A: Arithmetic>(
    r: Reading,
    x: Seq<Complex>,
    offset: int,
    stride: int,
    m: nat,
    top: nat,
    dir: u64,
    turn: spec_fn(int, int) -> Point,
    reach: real,
    slack: real,
)
    requires
        obeys::<A>(r),
        circles(turn),
        factors_near::<A>(r, dir, turn, two_to(top), slack),
        m <= top,
        0real <= reach,
        0real <= slack,
        line_within(r, x, reach),
        0 <= offset,
        0 < stride,
        offset + stride * (two_to(m) - 1) < x.len(),
        stage_reach(m, reach) + stage_error(r, m, reach, slack) <= r.top,
    ensures
        bins_near(
            r,
            halved::<A>(x, offset, stride, two_to(m), dir),
            points_of(r, x, offset, stride),
            turn,
            stage_error(r, m, reach, slack),
            stage_reach(m, reach),
        ),
        halved::<A>(x, offset, stride, two_to(m), dir).len() == two_to(m),
    decreases m,
{
    let f = points_of(r, x, offset, stride);
    if m == 0 {
        assert(two_to(0) == 1);
        lemma_bin_of_one(f, turn);
        assert(stride * 0 == 0) by (nonlinear_arith);
        lemma_span_sum(f(0), f(0));
        assert(f(0).minus(f(0)) == origin());
        assert(f(0) == point_of(r, x[offset]));
        let only = halved::<A>(x, offset, stride, two_to(m), dir);
        assert(only == seq![x[offset]]);
        assert(only[0] == x[offset]);
        assert(sound(x[offset]));
        assert forall|k: int| 0 <= k < only.len() implies near(
            r,
            #[trigger] only[k],
            bin(f, turn, only.len(), k),
            stage_error(r, m, reach, slack),
        ) && bin(f, turn, only.len(), k).span() <= stage_reach(m, reach) by {
            assert(k == 0);
        }
        assert(bins_near(r, only, f, turn, stage_error(r, m, reach, slack), stage_reach(m, reach)));
    } else {
        let t = (m - 1) as nat;
        let h = two_to(t);
        lemma_two_to_positive(t);
        assert(two_to(m) == 2 * h);
        lemma_strides(offset, stride, h as int, x.len() as int);
        lemma_stage_signs(r, t, reach, slack);
        lemma_size_product(stage_error(r, t, reach, slack), 3real / 2real + slack);
        lemma_size_product(stage_reach(t, reach), slack);
        lemma_halved_near::<A>(r, x, offset, 2 * stride, t, top, dir, turn, reach, slack);
        lemma_halved_near::<A>(r, x, offset + stride, 2 * stride, t, top, dir, turn, reach, slack);
        let even = halved::<A>(x, offset, 2 * stride, h, dir);
        let odd = halved::<A>(x, offset + stride, 2 * stride, h, dir);
        let fe = |j: int| f(2 * j);
        let fo = |j: int| f(2 * j + 1);
        let ge = points_of(r, x, offset, 2 * stride);
        let go = points_of(r, x, offset + stride, 2 * stride);
        assert forall|j: int| #[trigger] fe(j) == ge(j) by {
            assert(stride * (2 * j) == 2 * stride * j) by (nonlinear_arith);
        }
        assert forall|j: int| #[trigger] fo(j) == go(j) by {
            assert(stride * (2 * j + 1) == stride + 2 * stride * j) by (nonlinear_arith);
        }
        assert(fe =~= ge);
        assert(fo =~= go);
        let whole = halved::<A>(x, offset, stride, two_to(m), dir);
        assert(two_to(m) / 2 == h);
        assert(whole.len() == two_to(m));
        assert forall|k: int| 0 <= k < whole.len() implies near(
            r,
            #[trigger] whole[k],
            bin(f, turn, whole.len(), k),
            stage_error(r, m, reach, slack),
        ) && bin(f, turn, whole.len(), k).span() <= stage_reach(m, reach) by {
            let q = if k < h {
                k
            } else {
                k - h
            };
            let factor = stage_factor::<A>(dir, m, q);
            let c = turn(two_to(m) as int, q);
            assert(near(r, factor, c, slack)) by {
                reveal(factors_near);
                lemma_two_to_grows(m, top);
                assert(is_two_power(two_to(top) as int));
            }
            assert(c.span() <= 3real / 2real) by {
                reveal(circles);
            }
            assert(near(r, even[q], bin(ge, turn, h, q), stage_error(r, t, reach, slack)));
            assert(near(r, odd[q], bin(go, turn, h, q), stage_error(r, t, reach, slack)));
            lemma_combined_near::<A>(
                r,
                even[q],
                odd[q],
                factor,
                bin(ge, turn, h, q),
                bin(go, turn, h, q),
                c,
                stage_reach(t, reach),
                stage_error(r, t, reach, slack),
                slack,
            );
            if k < h {
                lemma_bin_halves(f, turn, h, k);
            } else {
                lemma_bin_far_half(f, turn, h, q);
            }
        }
        assert(bins_near(r, whole, f, turn, stage_error(r, m, reach, slack), stage_reach(m, reach)));
    }
}

/// The only bin of one number is that number.
proof fn lemma_bin_of_one(f: spec_fn(int) -> Point, turn: spec_fn(int, int) -> Point)
    requires
        circles(turn),
    ensures
        bin(f, turn, 1, 0) == f(0),
{
    let terms = |j: int| f(j).times(turn(1, 0 * j));
    assert(psum(terms, 0) == origin());
    assert(psum(terms, 1) == psum(terms, 0).plus(terms(0)));
    lemma_no_turn(turn, 1);
    lemma_product_units(f(0).re, 1real);
    lemma_product_units(f(0).im, 1real);
    lemma_product_units(f(0).re, 0real);
    lemma_product_units(f(0).im, 0real);
}

/// Repeating a number more often does not make the sum smaller, and sums of repeated numbers add up.
proof fn lemma_many(a: nat, n: nat, b: real, c: real)
    requires
        a <= n,
        0real <= b,
    ensures
        0real <= many(a, b) <= many(n, b),
        many(n, b) + many(n, c) == many(n, b + c),
    decreases n,
{
    if a < n {
        lemma_many(a, (n - 1) as nat, b, c);
    } else if n > 0 {
        lemma_many((n - 1) as nat, (n - 1) as nat, b, c);
    }
}

/// How far a term of a defining sum, with the addition, can be from the exact one.
pub open spec fn term_error(r: Reading, reach: real, slack: real) -> real {
    product(reach, slack) + 6real * r.step
}

/// The first `m` terms of bin `k`, exactly.
pub open spec fn partial(
    f: spec_fn(int) -> Point,
    turn: spec_fn(int, int) -> Point,
    n: nat,
    k: int,
    m: nat,
) -> Point {
    psum(|j: int| f(j).times(turn(n as int, k * j)), m)
}

/// The sums that a transform computes term by term are near the exact ones.
proof fn lemma_bin_sum_near<A: Arithmetic>(
    r: Reading,
    x: Seq<Complex>,
    k: int,
    m: nat,
    dir: u64,
    turn: spec_fn(int, int) -> Point,
    reach: real,
    slack: real,
)
    requires
        obeys::<A>(r),
        circles(turn),
        !is_two_power(x.len() as int),
        factors_near::<A>(r, dir, turn, x.len(), slack),
        0real <= reach,
        0real <= slack,
        line_within(r, x, reach),
        0 <= k < x.len(),
        m <= x.len(),
        many(x.len(), 3real / 2real * reach) + many(x.len(), term_error(r, reach, slack)) <= r.top,
    ensures
        near(
            r,
            bin_sum::<A>(x, dir, k, m),
            partial(points_of(r, x, 0, 1), turn, x.len(), k, m),
            many(m, term_error(r, reach, slack)),
        ),
        partial(points_of(r, x, 0, 1), turn, x.len(), k, m).span() <= many(m, 3real / 2real * reach),
    decreases m,
{
    let n = x.len();
    let f = points_of(r, x, 0, 1);
    let e = term_error(r, reach, slack);
    lemma_size_product(reach, slack);
    if m == 0 {
        lemma_zero_reads::<A>(r);
        assert(point_of(r, zero()) == origin());
        lemma_span_sum(origin(), origin());
        assert(origin().minus(origin()) == origin());
    } else {
        let t = (m - 1) as nat;
        lemma_bin_sum_near::<A>(r, x, k, t, dir, turn, reach, slack);
        lemma_many(m, n, 3real / 2real * reach, 0real);
        lemma_many(m, n, e, 0real);
        lemma_many(t, t, 3real / 2real * reach, 0real);
        lemma_many(t, t, e, 0real);
        let factor = factor_of::<A>(dir, n as int, k, t as int);
        let c = turn(n as int, k * t);
        assert(near(r, factor, c, slack)) by {
            reveal(factors_near);
        }
        assert(c.span() <= 3real / 2real) by {
            reveal(circles);
        }
        let y = point_of(r, x[t as int]);
        assert(f(t as int) == y);
        assert(y.minus(y) == origin());
        lemma_span_sum(y, y);
        assert(sound(x[t as int]));
        lemma_product_sum(3real / 2real, slack, reach);
        lemma_half_more(reach);
        lemma_product_units(0real, 3real / 2real + slack);
        lemma_product_near::<A>(r, x[t as int], factor, y, c, reach, 0real, slack);
        lemma_span_bound(y, c, reach, 3real / 2real);
        let z = x[t as int].multiplied::<A>(factor);
        let before = bin_sum::<A>(x, dir, k, t);
        let exact = partial(f, turn, n, k, t);
        lemma_span_sum(point_of(r, before), exact);
        lemma_span_sum(point_of(r, z), y.times(c));
        lemma_span_sum(exact, y.times(c));
        lemma_added_near::<A>(r, before, z);
        lemma_near_sum(
            point_of(r, before.added::<A>(z)),
            point_of(r, before),
            point_of(r, z),
            exact,
            y.times(c),
        );
        assert(partial(f, turn, n, k, m) == exact.plus(y.times(c)));
        assert(bin_sum::<A>(x, dir, k, m) == before.added::<A>(z));
    }
}

/// The number of times a length can be halved.
pub open spec fn halvings(n: nat) -> nat {
    choose|m: nat| two_to(m) == n
}

/// How large the exact bins of a line can be.
pub open spec fn line_reach(n: nat, reach: real) -> real {
    if is_two_power(n as int) {
        stage_reach(halvings(n), reach)
    } else {
        many(n, 3real / 2real * reach)
    }
}

/// How far the computed bins of a line can be from the exact ones.
pub open spec fn line_error(r: Reading, n: nat, reach: real, slack: real) -> real {
    if is_two_power(n as int) {
        stage_error(r, halvings(n), reach, slack)
    } else {
        many(n, term_error(r, reach, slack))
    }
}

/// The transform that is computed of a line, of whatever length, is near the exact one.
pub proof fn law_line_is_near<A: Arithmetic>(
    r: Reading,
    x: Seq<Complex>,
    dir: u64,
    turn: spec_fn(int, int) -> Point,
    reach: real,
    slack: real,
)
    requires
        obeys::<A>(r),
        circles(turn),
        factors_near::<A>(r, dir, turn, x.len(), slack),
        0real <= reach,
        0real <= slack,
        line_within(r, x, reach),
        line_reach(x.len(), reach) + line_error(r, x.len(), reach, slack) <= r.top,
    ensures
        line_of::<A>(x, dir).len() == x.len(),
        bins_near(
            r,
            line_of::<A>(x, dir),
            points_of(r, x, 0, 1),
            turn,
            line_error(r, x.len(), reach, slack),
            line_reach(x.len(), reach),
        ),
{
    let n = x.len();
    if is_two_power(n as int) {
        let m = halvings(n);
        assert(two_to(m) == n);
        lemma_two_to_positive(m);
        lemma_halved_near::<A>(r, x, 0, 1, m, m, dir, turn, reach, slack);
    } else {
        let out = line_of::<A>(x, dir);
        assert(out == summed::<A>(x, dir));
        let f = points_of(r, x, 0, 1);
        assert forall|k: int| 0 <= k < out.len() implies near(
            r,
            #[trigger] out[k],
            bin(f, turn, out.len(), k),
            line_error(r, n, reach, slack),
        ) && bin(f, turn, out.len(), k).span() <= line_reach(n, reach) by {
            lemma_bin_sum_near::<A>(r, x, k, n, dir, turn, reach, slack);
        }
    }
}

/// Reaches and errors of lines are not negative.
proof fn lemma_line_signs(r: Reading, n: nat, reach: real, slack: real)
    requires
        0real <= r.step,
        0real <= reach,
        0real <= slack,
    ensures
        0real <= line_reach(n, reach),
        0real <= line_error(r, n, reach, slack),
{
    lemma_size_product(reach, slack);
    lemma_stage_signs(r, halvings(n), reach, slack);
    lemma_many(n, n, 3real / 2real * reach, 0real);
    lemma_many(n, n, term_error(r, reach, slack), 0real);
}

/// Bins depend on the numbers of the line only.
proof fn lemma_bin_same(
    f: spec_fn(int) -> Point,
    g: spec_fn(int) -> Point,
    turn: spec_fn(int, int) -> Point,
    n: nat,
    k: int,
)
    requires
        forall|i: int| 0 <= i < n ==> #[trigger] f(i) == g(i),
    ensures
        bin(f, turn, n, k) == bin(g, turn, n, k),
{
    let p = |j: int| f(j).times(turn(n as int, k * j));
    let q = |j: int| g(j).times(turn(n as int, k * j));
    assert forall|j: int| 0 <= j < n implies #[trigger] p(j) == q(j) by {
        assert(f(j) == g(j));
    }
    lemma_psum_same(p, q, n);
}

/// The numbers that a plane stands for, by column and row.
pub open spec fn cells_of(r: Reading, data: Seq<Complex>, w: int) -> spec_fn(int, int) -> Point {
    |x: int, y: int| point_of(r, data[at(x, y, w)])
}

/// Bin `x` of row `y` of a plane, exactly.
pub open spec fn row_bin(
    cells: spec_fn(int, int) -> Point,
    turn: spec_fn(int, int) -> Point,
    w: nat,
    x: int,
    y: int,
) -> Point {
    bin(|a: int| cells(a, y), turn, w, x)
}

/// The bin in column `x` and row `y` of the transform of a plane, exactly: rows first, then columns.
pub open spec fn plane_bin(
    cells: spec_fn(int, int) -> Point,
    turn: spec_fn(int, int) -> Point,
    w: nat,
    h: nat,
    x: int,
    y: int,
) -> Point {
    bin(|b: int| row_bin(cells, turn, w, x, b), turn, h, y)
}

/// How large the rows that are computed of a plane can be.
pub open spec fn rows_reach(r: Reading, w: nat, reach: real, slack: real) -> real {
    line_reach(w, reach) + line_error(r, w, reach, slack)
}

/// How large the transform that is computed of a plane can be.
pub open spec fn plane_reach(r: Reading, w: nat, h: nat, reach: real, slack: real) -> real {
    rows_reach(r, h, rows_reach(r, w, reach, slack), slack)
}

/// How far the transform that is computed of a plane can be from the exact one.
pub open spec fn plane_error(r: Reading, w: nat, h: nat, reach: real, slack: real) -> real {
    line_error(r, h, rows_reach(r, w, reach, slack), slack) + many(h, 3real / 2real * line_error(r, w, reach, slack))
}

/// Nothing that is computed in the transform of a plane gets too large for its rounding to be bounded.
pub open spec fn plane_fits(r: Reading, w: nat, h: nat, reach: real, slack: real) -> bool {
    rows_reach(r, w, reach, slack) <= r.top && plane_reach(r, w, h, reach, slack) <= r.top
}

/// The rows that are computed of a plane are near the exact ones.
proof fn lemma_rows_near<A: Arithmetic>(
    r: Reading,
    data: Seq<Complex>,
    w: nat,
    h: nat,
    dir: u64,
    turn: spec_fn(int, int) -> Point,
    reach: real,
    slack: real,
    x: int,
    y: int,
)
    requires
        obeys::<A>(r),
        circles(turn),
        factors_near::<A>(r, dir, turn, w, slack),
        0real <= reach,
        0real <= slack,
        data.len() == w * h,
        line_within(r, data, reach),
        rows_reach(r, w, reach, slack) <= r.top,
        0 <= x < w,
        0 <= y < h,
    ensures
        near(
            r,
            rows_of::<A>(data, w as int, h as int, dir)[at(x, y, w as int)],
            row_bin(cells_of(r, data, w as int), turn, w, x, y),
            line_error(r, w, reach, slack),
        ),
        point_of(r, rows_of::<A>(data, w as int, h as int, dir)[at(x, y, w as int)]).span() <= rows_reach(
            r,
            w,
            reach,
            slack,
        ),
{
    let wi = w as int;
    let line = row_of(data, wi, y);
    assert forall|i: int| 0 <= i < line.len() implies sound(#[trigger] line[i]) && point_of(r, line[i]).span()
        <= reach by {
        lemma_at_bounds(i, y, wi, h as int);
        assert(sound(data[at(i, y, wi)]));
    }
    law_line_is_near::<A>(r, line, dir, turn, reach, slack);
    lemma_at_bounds(x, y, wi, h as int);
    lemma_at_inverse(x, y, wi);
    let f = points_of(r, line, 0, 1);
    let cells = cells_of(r, data, wi);
    let g = |a: int| cells(a, y);
    assert forall|i: int| 0 <= i < w implies #[trigger] f(i) == g(i) by {
        assert(line[0 + 1 * i] == data[at(i, y, wi)]);
    }
    lemma_bin_same(f, g, turn, w, x);
    let out = rows_of::<A>(data, wi, h as int, dir)[at(x, y, wi)];
    assert(out == line_of::<A>(line, dir)[x]);
    lemma_span_sum(point_of(r, out), bin(f, turn, w, x));
}

/// The columns that are computed of a plane are near the exact ones of that plane.
proof fn lemma_columns_near<A: Arithmetic>(
    r: Reading,
    data: Seq<Complex>,
    w: nat,
    h: nat,
    dir: u64,
    turn: spec_fn(int, int) -> Point,
    reach: real,
    slack: real,
    x: int,
    y: int,
)
    requires
        obeys::<A>(r),
        circles(turn),
        factors_near::<A>(r, dir, turn, h, slack),
        0real <= reach,
        0real <= slack,
        data.len() == w * h,
        line_within(r, data, reach),
        rows_reach(r, h, reach, slack) <= r.top,
        0 <= x < w,
        0 <= y < h,
    ensures
        near(
            r,
            columns_of::<A>(data, w as int, h as int, dir)[at(x, y, w as int)],
            bin(|b: int| cells_of(r, data, w as int)(x, b), turn, h, y),
            line_error(r, h, reach, slack),
        ),
        point_of(r, columns_of::<A>(data, w as int, h as int, dir)[at(x, y, w as int)]).span()
            <= rows_reach(r, h, reach, slack),
{
    let wi = w as int;
    let line = column_of(data, wi, h as int, x);
    assert forall|i: int| 0 <= i < line.len() implies sound(#[trigger] line[i]) && point_of(r, line[i]).span()
        <= reach by {
        lemma_at_bounds(x, i, wi, h as int);
        assert(sound(data[at(x, i, wi)]));
    }
    law_line_is_near::<A>(r, line, dir, turn, reach, slack);
    lemma_at_bounds(x, y, wi, h as int);
    lemma_at_inverse(x, y, wi);
    let f = points_of(r, line, 0, 1);
    let g = |b: int| cells_of(r, data, wi)(x, b);
    assert forall|i: int| 0 <= i < h implies #[trigger] f(i) == g(i) by {
        assert(line[0 + 1 * i] == data[at(x, i, wi)]);
    }
    lemma_bin_same(f, g, turn, h, y);
    let out = columns_of::<A>(data, wi, h as int, dir)[at(x, y, wi)];
    assert(out == line_of::<A>(line, dir)[y]);
    lemma_span_sum(point_of(r, out), bin(f, turn, h, y));
}

/// The transform that is computed of a plane is near the exact one, and not too large.
pub proof fn law_plane_is_near<A: Arithmetic>(
    r: Reading,
    data: Seq<Complex>,
    w: nat,
    h: nat,
    dir: u64,
    turn: spec_fn(int, int) -> Point,
    reach: real,
    slack: real,
    x: int,
    y: int,
)
    requires
        obeys::<A>(r),
        circles(turn),
        factors_near::<A>(r, dir, turn, w, slack),
        factors_near::<A>(r, dir, turn, h, slack),
        0real <= reach,
        0real <= slack,
        data.len() == w * h,
        line_within(r, data, reach),
        plane_fits(r, w, h, reach, slack),
        0 <= x < w,
        0 <= y < h,
    ensures
        near(
            r,
            plane_of::<A>(data, w as int, h as int, dir)[at(x, y, w as int)],
            plane_bin(cells_of(r, data, w as int), turn, w, h, x, y),
            plane_error(r, w, h, reach, slack),
        ),
        point_of(r, plane_of::<A>(data, w as int, h as int, dir)[at(x, y, w as int)]).span() <= plane_reach(
            r,
            w,
            h,
            reach,
            slack,
        ),
{
    let wi = w as int;
    let hi = h as int;
    let rows = rows_of::<A>(data, wi, hi, dir);
    let cells = cells_of(r, data, wi);
    let wide = rows_reach(r, w, reach, slack);
    lemma_line_signs(r, w, reach, slack);
    lemma_at_bounds(x, y, wi, hi);
    assert(rows.len() == w * h);
    assert forall|i: int| 0 <= i < rows.len() implies sound(#[trigger] rows[i]) && point_of(r, rows[i]).span()
        <= wide by {
        lemma_at_of(i, wi, hi);
        lemma_rows_near::<A>(r, data, w, h, dir, turn, reach, slack, i % wi, i / wi);
    }
    lemma_columns_near::<A>(r, rows, w, h, dir, turn, wide, slack, x, y);
    let f = |b: int| cells_of(r, rows, wi)(x, b);
    let g = |b: int| row_bin(cells, turn, w, x, b);
    let e = line_error(r, w, reach, slack);
    assert forall|b: int| 0 <= b < h implies (#[trigger] f(b)).minus(g(b)).span() <= e by {
        lemma_rows_near::<A>(r, data, w, h, dir, turn, reach, slack, x, b);
    }
    lemma_bins_near(f, g, turn, h, y, e);
    let out = point_of(r, plane_of::<A>(data, wi, hi, dir)[at(x, y, wi)]);
    lemma_near_chain(out, bin(f, turn, h, y), bin(g, turn, h, y));
}

/// Turning number `j` there and place `l` back, added up over all bins.
pub open spec fn there_and_back(
    turn: spec_fn(int, int) -> Point,
    back: spec_fn(int, int) -> Point,
    n: nat,
    j: int,
    l: int,
) -> Point {
    psum(|k: int| turn(n as int, k * j).times(back(n as int, l * k)), n)
}

/// Turning there and back adds up to the number of bins at the same place, and to nothing at others.
pub open spec fn turns_back(turn: spec_fn(int, int) -> Point, back: spec_fn(int, int) -> Point, n: nat) -> bool {
    forall|j: int, l: int|
        0 <= j < n && 0 <= l < n ==> #[trigger] there_and_back(turn, back, n, j, l) == (if j == l {
            scalar(n as real)
        } else {
            origin()
        })
}

/// The bins of exact bins are the numbers, times how many there are.
proof fn lemma_bin_back(
    f: spec_fn(int) -> Point,
    turn: spec_fn(int, int) -> Point,
    back: spec_fn(int, int) -> Point,
    n: nat,
    l: int,
)
    requires
        turns_back(turn, back, n),
        0 <= l < n,
    ensures
        bin(|k: int| bin(f, turn, n, k), back, n, l) == f(l).times(scalar(n as real)),
{
    let there = |k: int| bin(f, turn, n, k);
    let outer = |k: int| there(k).times(back(n as int, l * k));
    let cross = |k: int, j: int| f(j).times(turn(n as int, k * j).times(back(n as int, l * k)));
    let sums = |k: int| psum(|j: int| cross(k, j), n);
    assert forall|k: int| 0 <= k < n implies #[trigger] outer(k) == sums(k) by {
        let c = back(n as int, l * k);
        let inner = |j: int| f(j).times(turn(n as int, k * j));
        lemma_psum_scaled(inner, n, c);
        let scaled = |j: int| inner(j).times(c);
        let crossed = |j: int| cross(k, j);
        assert forall|j: int| 0 <= j < n implies #[trigger] scaled(j) == crossed(j) by {
            lemma_times_bracket(f(j), turn(n as int, k * j), c);
        }
        lemma_psum_same(scaled, crossed, n);
    }
    lemma_psum_same(outer, sums, n);
    lemma_psums_exchange(cross, n, n);
    let turned = |j: int| psum(|k: int| cross(k, j), n);
    assert forall|j: int| 0 <= j < n implies #[trigger] turned(j) == (if j == l {
        f(l).times(scalar(n as real))
    } else {
        origin()
    }) by {
        let pairs = |k: int| turn(n as int, k * j).times(back(n as int, l * k));
        lemma_psum_scaled(pairs, n, f(j));
        let scaled = |k: int| pairs(k).times(f(j));
        let crossed = |k: int| cross(k, j);
        assert forall|k: int| 0 <= k < n implies #[trigger] scaled(k) == crossed(k) by {
            lemma_times_turn(pairs(k), f(j));
        }
        lemma_psum_same(scaled, crossed, n);
        assert(there_and_back(turn, back, n, j, l) == psum(pairs, n));
        lemma_times_turn(psum(pairs, n), f(j));
        lemma_times_origin(f(j));
    }
    lemma_psum_single(turned, n, l);
}

/// Rows and columns can be transformed in either order.
proof fn lemma_bins_exchange(
    cells: spec_fn(int, int) -> Point,
    s: spec_fn(int, int) -> Point,
    t: spec_fn(int, int) -> Point,
    w: nat,
    h: nat,
    p: int,
    y: int,
)
    ensures
        bin(|a: int| bin(|b: int| cells(a, b), t, h, y), s, w, p) == bin(
            |b: int| bin(|a: int| cells(a, b), s, w, p),
            t,
            h,
            y,
        ),
{
    let cross = |a: int, b: int| cells(a, b).times(t(h as int, y * b)).times(s(w as int, p * a));
    let left = |a: int| bin(|b: int| cells(a, b), t, h, y);
    let right = |b: int| bin(|a: int| cells(a, b), s, w, p);
    let first = |a: int| left(a).times(s(w as int, p * a));
    let rows = |a: int| psum(|b: int| cross(a, b), h);
    assert forall|a: int| 0 <= a < w implies #[trigger] first(a) == rows(a) by {
        let c = s(w as int, p * a);
        let row = |b: int| cells(a, b);
        let inner = |b: int| row(b).times(t(h as int, y * b));
        lemma_psum_scaled(inner, h, c);
        let scaled = |b: int| inner(b).times(c);
        let crossed = |b: int| cross(a, b);
        lemma_psum_same(scaled, crossed, h);
        assert(bin(|b: int| cells(a, b), t, h, y) == bin(row, t, h, y));
    }
    lemma_psum_same(first, rows, w);
    lemma_psums_exchange(cross, w, h);
    let columns = |b: int| psum(|a: int| cross(a, b), w);
    let second = |b: int| right(b).times(t(h as int, y * b));
    assert forall|b: int| 0 <= b < h implies #[trigger] columns(b) == second(b) by {
        let c = t(h as int, y * b);
        let column = |a: int| cells(a, b);
        let inner = |a: int| column(a).times(s(w as int, p * a));
        lemma_psum_scaled(inner, w, c);
        let scaled = |a: int| inner(a).times(c);
        let crossed = |a: int| cross(a, b);
        assert forall|a: int| 0 <= a < w implies #[trigger] scaled(a) == crossed(a) by {
            let d = s(w as int, p * a);
            lemma_times_bracket(cells(a, b), d, c);
            lemma_times_bracket(cells(a, b), c, d);
            lemma_times_turn(c, d);
        }
        lemma_psum_same(scaled, crossed, w);
        assert(bin(|a: int| cells(a, b), s, w, p) == bin(column, s, w, p));
    }
    lemma_psum_same(columns, second, h);
    assert(bin(left, s, w, p) == psum(first, w));
    assert(bin(right, t, h, y) == psum(second, h));
}

/// Turning the exact transform of a plane back gives the plane, times the numbers of columns and rows.
pub proof fn law_exact_plane_turns_back(
    cells: spec_fn(int, int) -> Point,
    turn: spec_fn(int, int) -> Point,
    back: spec_fn(int, int) -> Point,
    w: nat,
    h: nat,
    x: int,
    y: int,
)
    requires
        turns_back(turn, back, w),
        turns_back(turn, back, h),
        0 <= x < w,
        0 <= y < h,
    ensures
        plane_bin(|a: int, b: int| plane_bin(cells, turn, w, h, a, b), back, w, h, x, y) == cells(x, y).times(
            scalar(w as real),
        ).times(scalar(h as real)),
{
    let spectrum = |a: int, b: int| plane_bin(cells, turn, w, h, a, b);
    let rows = |a: int, b: int| row_bin(cells, turn, w, a, b);
    let column = |b: int| cells(x, b).times(scalar(w as real));
    let half = |q: int| row_bin(spectrum, back, w, x, q);
    let whole = |q: int| bin(column, turn, h, q);
    assert forall|q: int| 0 <= q < h implies #[trigger] half(q) == whole(q) by {
        lemma_bins_exchange(rows, back, turn, w, h, x, q);
        let f = |a: int| spectrum(a, q);
        let g = |a: int| bin(|b: int| rows(a, b), turn, h, q);
        assert forall|a: int| 0 <= a < w implies #[trigger] f(a) == g(a) by {
            lemma_bin_same(|b: int| row_bin(cells, turn, w, a, b), |b: int| rows(a, b), turn, h, q);
        }
        lemma_bin_same(f, g, back, w, x);
        let u = |b: int| bin(|a: int| rows(a, b), back, w, x);
        assert forall|b: int| 0 <= b < h implies #[trigger] u(b) == column(b) by {
            let line = |a: int| cells(a, b);
            lemma_bin_back(line, turn, back, w, x);
            lemma_bin_same(|a: int| rows(a, b), |k: int| bin(line, turn, w, k), back, w, x);
        }
        lemma_bin_same(u, column, turn, h, q);
    }
    lemma_bin_same(half, whole, back, h, y);
    lemma_bin_back(column, turn, back, h, y);
}

/// Exact transforms of planes that are near each other are near each other.
proof fn lemma_plane_bins_near(
    f: spec_fn(int, int) -> Point,
    g: spec_fn(int, int) -> Point,
    turn: spec_fn(int, int) -> Point,
    w: nat,
    h: nat,
    x: int,
    y: int,
    error: real,
)
    requires
        circles(turn),
        forall|a: int, b: int|
            0 <= a < w && 0 <= b < h ==> (#[trigger] f(a, b)).minus(g(a, b)).span() <= error,
    ensures
        plane_bin(f, turn, w, h, x, y).minus(plane_bin(g, turn, w, h, x, y)).span() <= many(
            h,
            3real / 2real * many(w, 3real / 2real * error),
        ),
{
    let p = |b: int| row_bin(f, turn, w, x, b);
    let q = |b: int| row_bin(g, turn, w, x, b);
    assert forall|b: int| 0 <= b < h implies (#[trigger] p(b)).minus(q(b)).span() <= many(w, 3real / 2real * error) by {
        let u = |a: int| f(a, b);
        let v = |a: int| g(a, b);
        assert forall|a: int| 0 <= a < w implies (#[trigger] u(a)).minus(v(a)).span() <= error by {
            assert(f(a, b).minus(g(a, b)).span() <= error);
        }
        lemma_bins_near(u, v, turn, w, x, error);
    }
    lemma_bins_near(p, q, turn, h, y, many(w, 3real / 2real * error));
}

/// Scaling a number that is near another times two counts gives one near the other.
proof fn lemma_scaled_near(v: real, d: real, w: real, h: real, s: real, off: real, reach: real, tilt: real)
    requires
        size(v - product(product(d, w), h)) <= off,
        size(d) <= reach,
        size(s) <= 1real,
        size(product(product(w, h), s) - 1real) <= tilt,
    ensures
        size(product(v, s) - d) <= product(size(s), off) + product(reach, tilt),
        size(product(v, s)) <= size(v),
{
    let whole = product(product(d, w), h);
    let gap = product(product(w, h), s) - 1real;
    lemma_product_sum(d, w, h);
    lemma_product_sum(d, product(w, h), s);
    lemma_product_sum(product(product(w, h), s), 1real, d);
    lemma_product_units(d, 1real);
    assert(product(whole, s) - d == product(d, gap));
    lemma_product_sum(v, whole, s);
    lemma_size_product(v - whole, s);
    lemma_product_units(size(v - whole), size(s));
    lemma_product_order(size(s), size(v - whole), off);
    lemma_size_product(v, s);
    lemma_product_order(size(v), size(s), 1real);
    lemma_product_units(size(v), 1real);
    lemma_size_product(d, gap);
    lemma_product_order(size(d), size(gap), tilt);
    lemma_product_order(tilt, size(d), reach);
}

/// A complex number as it comes back from being stored as two samples.
pub open spec fn kept<A: Arithmetic>(z: Complex) -> Complex {
    Complex { re: widen_of::<A>(narrow_of::<A>(z.re)), im: widen_of::<A>(narrow_of::<A>(z.im)) }
}

/// Storing a number moves it by two storing steps at most.
proof fn lemma_kept_near<A: Arithmetic>(r: Reading, z: Complex)
    requires
        obeys::<A>(r),
        sound(z),
        point_of(r, z).span() <= r.top,
    ensures
        near(r, kept::<A>(z), point_of(r, z), 2real * r.store),
{
    reveal(Point::span);
    lemma_narrow_rounds::<A>(r, z.re);
    lemma_narrow_rounds::<A>(r, z.im);
    lemma_widen_reads::<A>(r, narrow_of::<A>(z.re));
    lemma_widen_reads::<A>(r, narrow_of::<A>(z.im));
}

/// How large the stored spectrum can be.
pub open spec fn stored_reach(r: Reading, w: nat, h: nat, reach: real, slack: real) -> real {
    plane_reach(r, w, h, reach, slack) + 2real * r.store
}

/// How far the plane that the stored spectrum turns back into can be from the exact one before it is
/// scaled: the error of the transform back, and the error of the stored spectrum carried through it.
pub open spec fn unscaled_error(r: Reading, q: Reading, w: nat, h: nat, reach: real, slack: real) -> real {
    plane_error(q, w, h, stored_reach(r, w, h, reach, slack), slack) + many(
        h,
        3real / 2real * many(w, 3real / 2real * (plane_error(r, w, h, reach, slack) + 2real * r.store)),
    )
}

/// How far a sample can be from what the stored spectrum turns back into: the error of the plane before
/// it is scaled, scaled down with it, the error of the scale, and those of the last product and of
/// storing it.
pub open spec fn round_trip_error<A: Arithmetic>(
    r: Reading,
    q: Reading,
    w: nat,
    h: nat,
    reach: real,
    slack: real,
    tilt: real,
) -> real {
    product(size((r.wide)(scale_of::<A>((w * h) as int))), unscaled_error(r, q, w, h, reach, slack)) + product(
        reach,
        tilt,
    ) + r.step + r.store
}

/// The scale by which a plane is divided is within a tilt of one over the number of pixels.
pub open spec fn scale_near<A: Arithmetic>(r: Reading, w: nat, h: nat, tilt: real) -> bool {
    let scale = scale_of::<A>((w * h) as int);
    &&& finite(scale)
    &&& size((r.wide)(scale)) <= 1real
    &&& size(product(product(w as real, h as real), (r.wide)(scale)) - 1real) <= tilt
}

/// The plane of a channel stands for its samples.
proof fn lemma_channel_reads<A: Arithmetic>(
    r: Reading,
    samples: Seq<u32>,
    pixels: int,
    channels: int,
    c: int,
    reach: real,
)
    requires
        obeys::<A>(r),
        samples.len() == pixels * channels,
        0 <= pixels,
        0 <= c < channels,
        forall|i: int|
            0 <= i < samples.len() ==> sample_finite(#[trigger] samples[i]) && size((r.small)(samples[i])) <= reach,
    ensures
        line_within(r, real_plane::<A>(samples, pixels, channels, c), reach),
        forall|q: int|
            0 <= q < pixels ==> point_of(r, #[trigger] real_plane::<A>(samples, pixels, channels, c)[q]) == scalar(
                (r.small)(samples[at(c, q, channels)]),
            ),
{
    let base = real_plane::<A>(samples, pixels, channels, c);
    assert forall|q: int| 0 <= q < pixels implies sound(#[trigger] base[q]) && point_of(r, base[q]).span() <= reach
        && point_of(r, base[q]) == scalar((r.small)(samples[at(c, q, channels)])) by {
        reveal(Point::span);
        lemma_at_bounds(c, q, channels, pixels);
        assert(channels * pixels == pixels * channels) by (nonlinear_arith);
        let sample = samples[at(c, q, channels)];
        assert(sample_finite(sample));
        lemma_widen_reads::<A>(r, sample);
        lemma_zero_reads::<A>(r);
    }
}

/// The spectrum of a buffer, read back, is what its transform comes back as from being stored.
proof fn lemma_spectrum_kept<A: Arithmetic>(samples: Seq<u32>, w: nat, h: nat, channels: int, c: int, q: int)
    requires
        0 <= c < channels,
        0 <= q < w * h,
    ensures
        complex_plane::<A>(
            forward_of::<A>(samples, w as int, h as int, channels),
            (w * h) as int,
            channels,
            c,
        )[q] == kept::<A>(
            plane_of::<A>(
                real_plane::<A>(samples, (w * h) as int, channels, c),
                w as int,
                h as int,
                FORWARD,
            )[q],
        ),
{
    let pixels = (w * h) as int;
    let place = 2 * at(c, q, channels);
    lemma_at_bounds(c, q, channels, pixels);
    lemma_at_inverse(c, q, channels);
    assert(channels * pixels == pixels * channels) by (nonlinear_arith);
    assert(place / 2 == at(c, q, channels) && place % 2 == 0);
    assert((place + 1) / 2 == at(c, q, channels) && (place + 1) % 2 == 1);
}

/// Turning the spectrum of a buffer back gives the buffer, sample by sample, up to rounding: for sides of
/// whatever length and every channel, each sample comes back within the error of the round trip. Numbers
/// are larger on the way back, before they are scaled, so that they may be read with other rounding
/// steps there.
pub proof fn law_spectrum_nearly_turns_back<A: Arithmetic>(
    r: Reading,
    q: Reading,
    samples: Seq<u32>,
    w: nat,
    h: nat,
    channels: nat,
    turn: spec_fn(int, int) -> Point,
    back: spec_fn(int, int) -> Point,
    reach: real,
    slack: real,
    tilt: real,
    i: int,
)
    requires
        obeys::<A>(r),
        obeys::<A>(q),
        q.wide == r.wide,
        q.small == r.small,
        circles(turn),
        circles(back),
        turns_back(turn, back, w),
        turns_back(turn, back, h),
        factors_near::<A>(r, FORWARD, turn, w, slack),
        factors_near::<A>(r, FORWARD, turn, h, slack),
        factors_near::<A>(q, INVERSE, back, w, slack),
        factors_near::<A>(q, INVERSE, back, h, slack),
        scale_near::<A>(r, w, h, tilt),
        0real <= reach,
        0real <= slack,
        samples.len() == w * h * channels,
        forall|j: int|
            0 <= j < samples.len() ==> sample_finite(#[trigger] samples[j]) && size((r.small)(samples[j])) <= reach,
        plane_fits(r, w, h, reach, slack),
        plane_fits(q, w, h, stored_reach(r, w, h, reach, slack), slack),
        reach + round_trip_error::<A>(r, q, w, h, reach, slack, tilt) <= r.top,
        0 <= i < samples.len(),
    ensures
        inverse_real_of::<A>(
            forward_of::<A>(samples, w as int, h as int, channels as int),
            w as int,
            h as int,
            channels as int,
        ).len() == samples.len(),
        sample_finite(
            inverse_real_of::<A>(
                forward_of::<A>(samples, w as int, h as int, channels as int),
                w as int,
                h as int,
                channels as int,
            )[i],
        ),
        size(
            (r.small)(
                inverse_real_of::<A>(
                    forward_of::<A>(samples, w as int, h as int, channels as int),
                    w as int,
                    h as int,
                    channels as int,
                )[i],
            ) - (r.small)(samples[i]),
        ) <= round_trip_error::<A>(r, q, w, h, reach, slack, tilt),
{
    let wi = w as int;
    let hi = h as int;
    let ch = channels as int;
    let pixels = (w * h) as int;
    assert(pixels * ch == ch * pixels) by (nonlinear_arith);
    lemma_at_of(i, ch, pixels);
    let c = i % ch;
    let p = i / ch;
    lemma_at_of(p, wi, hi);
    let x = p % wi;
    let y = p / wi;
    let base = real_plane::<A>(samples, pixels, ch, c);
    let there = plane_of::<A>(base, wi, hi, FORWARD);
    let stored = complex_plane::<A>(forward_of::<A>(samples, wi, hi, ch), pixels, ch, c);
    let far = stored_reach(r, w, h, reach, slack);
    let error = plane_error(r, w, h, reach, slack) + 2real * r.store;
    let cells = cells_of(r, base, wi);
    let spectrum = |a: int, b: int| plane_bin(cells, turn, w, h, a, b);
    let held = cells_of(r, stored, wi);
    lemma_channel_reads::<A>(r, samples, pixels, ch, c, reach);
    assert forall|a: int, b: int| 0 <= a < w && 0 <= b < h implies (#[trigger] held(a, b)).minus(
        spectrum(a, b),
    ).span() <= error && sound(stored[at(a, b, wi)]) && held(a, b).span() <= far by {
        let place = at(a, b, wi);
        lemma_at_bounds(a, b, wi, hi);
        law_plane_is_near::<A>(r, base, w, h, FORWARD, turn, reach, slack, a, b);
        lemma_spectrum_kept::<A>(samples, w, h, ch, c, place);
        lemma_kept_near::<A>(r, there[place]);
        lemma_near_chain(held(a, b), point_of(r, there[place]), spectrum(a, b));
        lemma_span_sum(held(a, b), point_of(r, there[place]));
    }
    assert forall|n: int| 0 <= n < stored.len() implies sound(#[trigger] stored[n]) && point_of(
        r,
        stored[n],
    ).span() <= far by {
        lemma_at_of(n, wi, hi);
        assert(held(n % wi, n / wi) == point_of(r, stored[n]));
    }
    assert(0real <= far) by {
        assert(sound(stored[p]));
        lemma_span_sum(point_of(r, stored[p]), point_of(r, stored[p]));
    }
    assert(cells_of(q, stored, wi) =~= held);
    assert(line_within(q, stored, far));
    law_plane_is_near::<A>(q, stored, w, h, INVERSE, back, far, slack, x, y);
    lemma_plane_bins_near(held, spectrum, back, w, h, x, y, error);
    law_exact_plane_turns_back(cells, turn, back, w, h, x, y);
    let z = plane_of::<A>(stored, wi, hi, INVERSE)[p];
    let d = (r.small)(samples[i]);
    let exact = scalar(d).times(scalar(w as real)).times(scalar(h as real));
    assert(cells(x, y) == point_of(r, base[p]));
    assert(cells(x, y) == scalar(d));
    lemma_near_chain(
        point_of(r, z),
        plane_bin(held, back, w, h, x, y),
        plane_bin(spectrum, back, w, h, x, y),
    );
    lemma_scalars(d, w as real, h as real);
    let v = (r.wide)(z.re);
    let scale = scale_of::<A>(pixels);
    assert(size(v - product(product(d, w as real), h as real)) <= point_of(r, z).minus(exact).span()
        && size(v) <= point_of(r, z).span()) by {
        reveal(Point::span);
    }
    lemma_scaled_near(
        v,
        d,
        w as real,
        h as real,
        (r.wide)(scale),
        unscaled_error(r, q, w, h, reach, slack),
        reach,
        tilt,
    );
    lemma_times_rounds::<A>(r, z.re, scale);
    lemma_narrow_rounds::<A>(r, times_of::<A>(z.re, scale));
    assert((2 * i) / 2 == i && (2 * i) % 2 == 0);
}

/// So many of a number are its product with the count.
proof fn lemma_many_product(n: nat, b: real)
    ensures
        many(n, b) == product(n as real, b),
    decreases n,
{
    lemma_product_units(n as real, b);
    if n > 0 {
        lemma_many_product((n - 1) as nat, b);
        lemma_product_sum((n - 1) as real, 1real, b);
        assert((n - 1) as real + 1real == n as real);
        lemma_product_units(1real, b);
    } else {
        lemma_product_units(0real, b);
    }
}

/// An error that is carried through a plane and scaled by about one over the number of pixels is about
/// nine quarters of what it was.
proof fn lemma_carried_and_scaled(w: nat, h: nat, s: real, e: real, tilt: real)
    requires
        0real <= e,
        9real / 4real * e <= 1real,
        size(product(product(w as real, h as real), s) - 1real) <= tilt,
    ensures
        product(size(s), many(h, 3real / 2real * many(w, 3real / 2real * e))) <= 9real / 4real * e + tilt,
{
    let wr = w as real;
    let hr = h as real;
    let once = 3real / 2real * e;
    let twice = 3real / 2real * once;
    lemma_many_product(w, once);
    lemma_half_more(product(wr, once));
    lemma_half_more(once);
    lemma_product_sum(wr, once, 3real / 2real);
    lemma_many_product(h, product(wr, twice));
    lemma_product_units(wr, hr);
    lemma_product_sum(hr, wr, twice);
    let all = product(wr, hr);
    lemma_product_sum(size(s), all, twice);
    lemma_size_product(wr, hr);
    lemma_size_product(all, s);
    lemma_product_units(size(s), all);
    let share = product(size(s), all);
    assert(share == size(product(all, s)));
    assert(share <= 1real + tilt);
    lemma_product_order(twice, share, 1real + tilt);
    lemma_product_sum(1real, tilt, twice);
    lemma_product_units(1real, twice);
    lemma_product_order(tilt, twice, 1real);
    lemma_product_units(tilt, 1real);
}

/// Turning the spectrum of a buffer back gives every sample to within a ten thousandth, for power-of-two
/// sides and others alike and for each channel: where samples are one in size at most, the spectrum stays
/// within what binary32 stores to a 65536th, and the transforms on their own, the scale and a rounding
/// step are within a millionth.
pub proof fn law_spectrum_turns_back_closely<A: Arithmetic>(
    r: Reading,
    q: Reading,
    samples: Seq<u32>,
    w: nat,
    h: nat,
    channels: nat,
    turn: spec_fn(int, int) -> Point,
    back: spec_fn(int, int) -> Point,
    slack: real,
    tilt: real,
    i: int,
)
    requires
        obeys::<A>(r),
        obeys::<A>(q),
        q.wide == r.wide,
        q.small == r.small,
        circles(turn),
        circles(back),
        turns_back(turn, back, w),
        turns_back(turn, back, h),
        factors_near::<A>(r, FORWARD, turn, w, slack),
        factors_near::<A>(r, FORWARD, turn, h, slack),
        factors_near::<A>(q, INVERSE, back, w, slack),
        factors_near::<A>(q, INVERSE, back, h, slack),
        scale_near::<A>(r, w, h, tilt),
        0real <= slack,
        samples.len() == w * h * channels,
        forall|j: int|
            0 <= j < samples.len() ==> sample_finite(#[trigger] samples[j]) && size((r.small)(samples[j])) <= 1real,
        r.top == 512real,
        65536real * r.store <= 1real,
        1000000real * r.step <= 1real,
        1000000real * tilt <= 1real,
        plane_fits(r, w, h, 1real, slack),
        plane_fits(q, w, h, stored_reach(r, w, h, 1real, slack), slack),
        1000000real * plane_error(r, w, h, 1real, slack) <= 1real,
        1000000real * product(
            size((r.wide)(scale_of::<A>((w * h) as int))),
            plane_error(q, w, h, stored_reach(r, w, h, 1real, slack), slack),
        ) <= 1real,
        0 <= i < samples.len(),
    ensures
        ({
            let out = inverse_real_of::<A>(
                forward_of::<A>(samples, w as int, h as int, channels as int),
                w as int,
                h as int,
                channels as int,
            );
            &&& out.len() == samples.len()
            &&& sample_finite(out[i])
            &&& 10000real * size((r.small)(out[i]) - (r.small)(samples[i])) < 1real
        }),
{
    let s = (r.wide)(scale_of::<A>((w * h) as int));
    let error = plane_error(r, w, h, 1real, slack) + 2real * r.store;
    let on_its_own = plane_error(q, w, h, stored_reach(r, w, h, 1real, slack), slack);
    let carried = many(h, 3real / 2real * many(w, 3real / 2real * error));
    lemma_line_signs(r, w, 1real, slack);
    lemma_line_signs(r, h, rows_reach(r, w, 1real, slack), slack);
    lemma_many(0, h, 3real / 2real * line_error(r, w, 1real, slack), 0real);
    lemma_carried_and_scaled(w, h, s, error, tilt);
    lemma_product_sum(on_its_own, carried, size(s));
    lemma_product_units(1real, tilt);
    law_spectrum_nearly_turns_back::<A>(r, q, samples, w, h, channels, turn, back, 1real, slack, tilt, i);
}

/// The product of real numbers, as complex ones.
proof fn lemma_scalars(d: real, w: real, h: real)
    ensures
        scalar(d).times(scalar(w)).times(scalar(h)) == scalar(product(product(d, w), h)),
{
    lemma_product_units(d, 0real);
    lemma_product_units(0real, w);
    lemma_product_units(0real, h);
    lemma_product_units(0real, 0real);
    lemma_product_units(product(d, w), 0real);
}

/// No turn at all is one.
proof fn lemma_no_turn(turn: spec_fn(int, int) -> Point, n: int)
    requires
        circles(turn),
        0 < n,
    ensures
        turn(n, 0) == scalar(1real),
{
    reveal(circles);
    let none: int = 0;
    lemma_turned_sign(scalar(-1real));
    assert(turn(2 * n, n) == scalar(-1real));
    assert(turn(2 * n, n + n) == turn(2 * n, n).times(turn(2 * n, n)));
    assert(turn(2 * n, 2 * n) == turn(n, n));
    assert(turn(n, none + n * 1) == turn(n, none));
    assert(n + n == 2 * n && none + n * 1 == n);
}

/// The exact bins of a wave: the number of places times its height in its own bin, nothing in the others.
pub proof fn law_exact_wave_has_one_bin(
    turn: spec_fn(int, int) -> Point,
    back: spec_fn(int, int) -> Point,
    n: nat,
    height: Point,
    l: int,
    k: int,
)
    requires
        turns_back(turn, back, n),
        0 <= l < n,
        0 <= k < n,
    ensures
        bin(|j: int| height.times(back(n as int, l * j)), turn, n, k) == (if k == l {
            height.times(scalar(n as real))
        } else {
            origin()
        }),
{
    let f = |j: int| height.times(back(n as int, l * j));
    let terms = |j: int| f(j).times(turn(n as int, k * j));
    let pairs = |j: int| turn(n as int, j * k).times(back(n as int, l * j));
    let scaled = |j: int| pairs(j).times(height);
    assert forall|j: int| 0 <= j < n implies #[trigger] terms(j) == scaled(j) by {
        let a = back(n as int, l * j);
        let b = turn(n as int, k * j);
        assert(k * j == j * k) by (nonlinear_arith);
        lemma_times_bracket(height, a, b);
        lemma_times_turn(a, b);
        lemma_times_turn(height, b.times(a));
    }
    lemma_psum_same(terms, scaled, n);
    lemma_psum_scaled(pairs, n, height);
    assert(there_and_back(turn, back, n, k, l) == psum(pairs, n));
    lemma_times_turn(psum(pairs, n), height);
    lemma_times_origin(height);
}

/// A line that is nearly a single wave has nearly one bin: the others are zero within the error of the
/// line and of the transform.
pub proof fn law_single_wave_nearly_has_one_bin<A: Arithmetic>(
    r: Reading,
    x: Seq<Complex>,
    dir: u64,
    turn: spec_fn(int, int) -> Point,
    back: spec_fn(int, int) -> Point,
    height: Point,
    l: int,
    k: int,
    reach: real,
    slack: real,
    error: real,
)
    requires
        obeys::<A>(r),
        circles(turn),
        turns_back(turn, back, x.len()),
        factors_near::<A>(r, dir, turn, x.len(), slack),
        0real <= reach,
        0real <= slack,
        line_within(r, x, reach),
        line_reach(x.len(), reach) + line_error(r, x.len(), reach, slack) <= r.top,
        0 <= l < x.len(),
        0 <= k < x.len(),
        forall|j: int|
            0 <= j < x.len() ==> near(r, #[trigger] x[j], height.times(back(x.len() as int, l * j)), error),
    ensures
        near(
            r,
            line_of::<A>(x, dir)[k],
            if k == l {
                height.times(scalar(x.len() as real))
            } else {
                origin()
            },
            line_error(r, x.len(), reach, slack) + many(x.len(), 3real / 2real * error),
        ),
{
    let n = x.len();
    law_line_is_near::<A>(r, x, dir, turn, reach, slack);
    let f = points_of(r, x, 0, 1);
    let g = |j: int| height.times(back(n as int, l * j));
    assert forall|j: int| 0 <= j < n implies (#[trigger] f(j)).minus(g(j)).span() <= error by {
        assert(near(r, x[j], height.times(back(n as int, l * j)), error));
        assert(x[0 + 1 * j] == x[j]);
    }
    lemma_bins_near(f, g, turn, n, k, error);
    law_exact_wave_has_one_bin(turn, back, n, height, l, k);
    let z = line_of::<A>(x, dir)[k];
    lemma_near_chain(point_of(r, z), bin(f, turn, n, k), bin(g, turn, n, k));
}

/// The exact bins of a constant.
proof fn lemma_constant_bin(
    turn: spec_fn(int, int) -> Point,
    back: spec_fn(int, int) -> Point,
    n: nat,
    height: Point,
    k: int,
)
    requires
        circles(back),
        turns_back(turn, back, n),
        0 <= k < n,
    ensures
        bin(|j: int| height, turn, n, k) == (if k == 0 {
            height.times(scalar(n as real))
        } else {
            origin()
        }),
{
    let zero: int = 0;
    let wave = |j: int| height.times(back(n as int, zero * j));
    let same = |j: int| height;
    assert forall|j: int| 0 <= j < n implies #[trigger] same(j) == wave(j) by {
        assert(zero * j == 0) by (nonlinear_arith)
            requires
                zero == 0,
        ;
        lemma_no_turn(back, n as int);
        lemma_unit_factor(height);
    }
    lemma_bin_same(same, wave, turn, n, k);
    law_exact_wave_has_one_bin(turn, back, n, height, 0, k);
}

/// One as a factor.
proof fn lemma_unit_factor(a: Point)
    ensures
        a.times(scalar(1real)) == a,
{
    lemma_product_units(a.re, 1real);
    lemma_product_units(a.im, 1real);
    lemma_product_units(a.re, 0real);
    lemma_product_units(a.im, 0real);
}

/// A constant plane has nearly one bin: the first holds the constant times the number of pixels, the others
/// zero, each within the error of the transform.
pub proof fn law_constant_plane_nearly_has_one_bin<A: Arithmetic>(
    r: Reading,
    data: Seq<Complex>,
    w: nat,
    h: nat,
    dir: u64,
    turn: spec_fn(int, int) -> Point,
    back: spec_fn(int, int) -> Point,
    height: Point,
    reach: real,
    slack: real,
    x: int,
    y: int,
)
    requires
        obeys::<A>(r),
        circles(turn),
        circles(back),
        turns_back(turn, back, w),
        turns_back(turn, back, h),
        factors_near::<A>(r, dir, turn, w, slack),
        factors_near::<A>(r, dir, turn, h, slack),
        0real <= reach,
        0real <= slack,
        data.len() == w * h,
        line_within(r, data, reach),
        forall|i: int| 0 <= i < data.len() ==> point_of(r, #[trigger] data[i]) == height,
        plane_fits(r, w, h, reach, slack),
        0 <= x < w,
        0 <= y < h,
    ensures
        near(
            r,
            plane_of::<A>(data, w as int, h as int, dir)[at(x, y, w as int)],
            if x == 0 && y == 0 {
                height.times(scalar(w as real)).times(scalar(h as real))
            } else {
                origin()
            },
            plane_error(r, w, h, reach, slack),
        ),
{
    law_plane_is_near::<A>(r, data, w, h, dir, turn, reach, slack, x, y);
    let cells = cells_of(r, data, w as int);
    let tall = if x == 0 {
        height.times(scalar(w as real))
    } else {
        origin()
    };
    let rows = |b: int| row_bin(cells, turn, w, x, b);
    let flat = |b: int| tall;
    assert forall|b: int| 0 <= b < h implies #[trigger] rows(b) == flat(b) by {
        let line = |a: int| cells(a, b);
        let same = |a: int| height;
        assert forall|a: int| 0 <= a < w implies #[trigger] line(a) == same(a) by {
            lemma_at_bounds(a, b, w as int, h as int);
        }
        lemma_bin_same(line, same, turn, w, x);
        lemma_constant_bin(turn, back, w, height, x);
    }
    lemma_bin_same(rows, flat, turn, h, y);
    lemma_constant_bin(turn, back, h, tall, y);
    lemma_times_origin(scalar(h as real));
}

} // verus!
