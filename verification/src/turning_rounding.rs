//! Turning a plane by a quarter and filtering it with a kernel that a quarter turn leaves as it is can be
//! done in either order, up to rounding.
use crate::arithmetic::Arithmetic;
use crate::binary::{sample_finite, ZERO};
use crate::convolve::{filtered_sample, tap_read, BoundaryMode, RequestView};
use crate::gaussian_blur::{
    kernel_fits, kernel_of, law_kernel_is_isotropic, radius_of, request_for,
};
use crate::ir::Extent;
use crate::lattice::{
    at, lemma_at_bounds, lemma_at_inverse, lemma_at_of, lemma_sample_at, lemma_sample_of, sample_at,
};
use crate::rounding::{
    lemma_product_order, obeys, product, quotients_round, size, sum, Reading,
};
use crate::rounding_laws::{
    exact_sum, law_correlation_is_near, numbers_finite, samples_within, steps, term, weight,
};
use crate::smoothing_rounding::{
    law_blur_weights_nearly_add_up_to_one, lemma_sum_same, taps_summable,
};
use crate::turning_laws::{is_turned, lemma_turned_read, turned_extent, turns};
use vstd::prelude::*;

verus! {

/// A sum of sums is the sum of the sums.
proof fn lemma_sum_added(f: spec_fn(int) -> real, g: spec_fn(int) -> real, n: nat)
    ensures
        sum(|i: int| f(i) + g(i), n) == sum(f, n) + sum(g, n),
    decreases n,
{
    if n > 0 {
        lemma_sum_added(f, g, (n - 1) as nat);
    }
}

/// Zeros add up to zero.
proof fn lemma_sum_zeros(f: spec_fn(int) -> real, n: nat)
    requires
        forall|i: int| 0 <= i < n ==> #[trigger] f(i) == 0real,
    ensures
        sum(f, n) == 0real,
    decreases n,
{
    if n > 0 {
        lemma_sum_zeros(f, (n - 1) as nat);
        assert(f(n - 1) == 0real);
    }
}

/// The sum of sums can be taken in either order.
proof fn lemma_sums_exchange(f: spec_fn(int, int) -> real, n: nat, m: nat)
    ensures
        sum(|i: int| sum(|j: int| f(i, j), m), n) == sum(|j: int| sum(|i: int| f(i, j), n), m),
    decreases n,
{
    let columns = |j: int| sum(|i: int| f(i, j), n);
    if n == 0 {
        lemma_sum_zeros(columns, m);
    } else {
        let prior = (n - 1) as nat;
        lemma_sums_exchange(f, prior, m);
        let before = |j: int| sum(|i: int| f(i, j), prior);
        let last = |j: int| f(n - 1, j);
        lemma_sum_added(before, last, m);
        lemma_sum_same(columns, |j: int| before(j) + last(j), m);
        lemma_sum_same(|j: int| f(n - 1, j), last, m);
        let rows = |i: int| sum(|j: int| f(i, j), m);
        assert(sum(rows, n) == sum(rows, prior) + rows(n - 1));
    }
}

/// A sum goes on where it stopped.
proof fn lemma_sum_goes_on(f: spec_fn(int) -> real, a: nat, m: nat)
    ensures
        sum(f, a + m) == sum(f, a) + sum(|i: int| f(a + i), m),
    decreases m,
{
    if m > 0 {
        lemma_sum_goes_on(f, a, (m - 1) as nat);
        assert((a + m - 1) as nat == a + (m - 1) as nat);
    }
}

/// A sum over a grid is the sum of the sums over its rows.
proof fn lemma_sum_rows(f: spec_fn(int) -> real, n: nat, m: nat)
    ensures
        sum(f, n * m) == sum(|j: int| sum(|i: int| f(j * m + i), m), n),
    decreases n,
{
    let rows = |j: int| sum(|i: int| f(j * m + i), m);
    if n == 0 {
        assert(n * m == 0) by (nonlinear_arith)
            requires
                n == 0,
        ;
    } else {
        let prior = (n - 1) as nat;
        lemma_sum_rows(f, prior, m);
        assert(n * m == prior * m + m) by (nonlinear_arith)
            requires
                n == prior + 1,
        ;
        let a = prior * m;
        lemma_sum_goes_on(f, a, m);
        lemma_sum_same(|i: int| f(a + i), |i: int| f(prior * m + i), m);
        assert(sum(rows, n) == sum(rows, prior) + rows(n - 1));
    }
}

/// A sum taken backwards is the sum.
proof fn lemma_sum_reversed(f: spec_fn(int) -> real, n: nat)
    ensures
        sum(|i: int| f(n - 1 - i), n) == sum(f, n),
    decreases n,
{
    let back = |i: int| f(n - 1 - i);
    if n > 0 {
        let prior = (n - 1) as nat;
        lemma_sum_reversed(f, prior);
        lemma_sum_goes_on(back, 1, prior);
        let rest = |i: int| back(1 + i);
        lemma_sum_same(rest, |i: int| f(prior - 1 - i), prior);
        assert(sum(back, 1) == sum(back, 0) + back(0));
        assert(sum(back, 0) == 0real);
    }
}

/// Two sums over a square grid of which one is the other turned by a quarter are equal.
proof fn lemma_turned_sum(fp: spec_fn(int) -> real, ft: spec_fn(int) -> real, n: nat)
    requires
        n >= 1,
        forall|i: int|
            0 <= i < n * n ==> #[trigger] ft(i) == fp(at(i / (n as int), n - 1 - i % (n as int), n as int)),
    ensures
        sum(ft, n * n) == sum(fp, n * n),
{
    let side = n as int;
    let grid = |kx: int, ky: int| fp(at(kx, ky, side));
    lemma_sum_rows(fp, n, n);
    lemma_sum_rows(ft, n, n);
    lemma_sums_exchange(grid, n, n);
    let rows_p = |ky: int| sum(|kx: int| fp(ky * n + kx), n);
    let columns = |ky: int| sum(|kx: int| grid(kx, ky), n);
    assert forall|ky: int| 0 <= ky < n implies #[trigger] rows_p(ky) == columns(ky) by {
        lemma_sum_same(|kx: int| fp(ky * n + kx), |kx: int| grid(kx, ky), n);
    }
    lemma_sum_same(rows_p, columns, n);
    let rows_t = |j: int| sum(|i: int| ft(j * n + i), n);
    let turned = |kx: int| sum(|ky: int| grid(kx, ky), n);
    assert forall|j: int| 0 <= j < n implies #[trigger] rows_t(j) == turned(j) by {
        let across = |ky: int| grid(j, ky);
        lemma_sum_reversed(across, n);
        let back = |i: int| across(n - 1 - i);
        let row = |i: int| ft(j * n + i);
        assert forall|i: int| 0 <= i < n implies #[trigger] back(i) == row(i) by {
            lemma_at_bounds(i, j, side, side);
            lemma_at_inverse(i, j, side);
            assert(ft(at(i, j, side)) == fp(at(j, n - 1 - i, side)));
        }
        lemma_sum_same(back, row, n);
    }
    lemma_sum_same(rows_t, turned, n);
}

/// The samples of a turned plane are those of the plane.
proof fn lemma_turned_within(r: Reading, p: Seq<u32>, t: Seq<u32>, src: Extent, channels: int, bound: real)
    requires
        0 <= channels,
        p.len() == src.area() * channels,
        t.len() == p.len(),
        forall|ch: int| 0 <= ch < channels ==> #[trigger] is_turned(p, t, src, channels, ch),
        samples_within(r, p, bound),
    ensures
        samples_within(r, t, bound),
{
    let w = src.width as int;
    let h = src.height as int;
    assert(w * h * channels == h * w * channels) by (nonlinear_arith);
    assert forall|i: int| 0 <= i < t.len() implies sample_finite(#[trigger] t[i]) && size(
        (r.small)(t[i]),
    ) <= bound by {
        lemma_sample_of(i, h, w, channels);
        let ch = i % channels;
        let tx = (i / channels) % h;
        let ty = (i / channels) / h;
        assert(is_turned(p, t, src, channels, ch));
        lemma_sample_at(ty, h - 1 - tx, ch, w, h, channels);
        assert(t[sample_at(h - 1 - (h - 1 - tx), ty, ch, h, channels)] == p[sample_at(
            ty,
            h - 1 - tx,
            ch,
            w,
            channels,
        )]);
    }
}

/// A correlation with a kernel that a quarter turn leaves as it is follows a quarter turn of its input, up
/// to rounding.
pub proof fn law_turned_correlation_is_near<A: Arithmetic>(
    r: Reading,
    p: Seq<u32>,
    t: Seq<u32>,
    src: Extent,
    channels: int,
    request: RequestView,
    ch: int,
    x: int,
    y: int,
    bound: real,
)
    requires
        obeys::<A>(r),
        src.width >= 1,
        src.height >= 1,
        0 <= ch < channels,
        request.well_formed(channels),
        turns(request.kernel),
        request.mode != BoundaryMode::Valid,
        request.mode == BoundaryMode::Constant ==> request.value[ch] == ZERO,
        numbers_finite(request.kernel.weights),
        p.len() == src.area() * channels,
        t.len() == p.len(),
        samples_within(r, p, bound),
        0real <= bound,
        forall|k: int| 0 <= k < channels ==> #[trigger] is_turned(p, t, src, channels, k),
        product(weight(r, request.kernel.weights, request.kernel.weights.len()), bound) + steps(
            r,
            request.kernel.weights.len(),
        ) <= r.top,
    ensures
        size(
            (r.small)(
                filtered_sample::<A>(t, turned_extent(src), channels, request, src.height - 1 - y, x, ch),
            ) - (r.small)(filtered_sample::<A>(p, src, channels, request, x, y, ch)),
        ) <= 2real * (steps(r, request.kernel.weights.len()) + r.store),
{
    let k = request.kernel;
    let side = k.width as int;
    let n = side as nat;
    let to = turned_extent(src);
    let tx = src.height - 1 - y;
    assert(src.width * src.height * channels == src.height * src.width * channels) by (nonlinear_arith);
    assert(is_turned(p, t, src, channels, ch));
    lemma_turned_within(r, p, t, src, channels, bound);
    law_correlation_is_near::<A>(r, p, src, channels, request, ch, x, y, bound);
    law_correlation_is_near::<A>(r, t, to, channels, request, ch, tx, x, bound);
    let rp = |i: int| tap_read::<A>(p, src, channels, request, ch, x, y, i);
    let rt = |i: int| tap_read::<A>(t, to, channels, request, ch, tx, x, i);
    let fp = |i: int| term(r, k.weights, rp, i);
    let ft = |i: int| term(r, k.weights, rt, i);
    assert(n * n == k.weights.len());
    assert forall|kx: int, ky: int| 0 <= kx < side && 0 <= ky < side implies #[trigger] rt(
        at(side - 1 - ky, kx, side),
    ) == rp(at(kx, ky, side)) by {
        lemma_at_inverse(side - 1 - ky, kx, side);
        lemma_at_inverse(kx, ky, side);
        lemma_turned_read::<A>(
            p,
            t,
            src,
            channels,
            request,
            ch,
            x + kx - k.origin_x,
            y + ky - k.origin_y,
        );
    }
    assert forall|i: int| 0 <= i < n * n implies #[trigger] ft(i) == fp(
        at(i / (n as int), n - 1 - i % (n as int), n as int),
    ) by {
        lemma_at_of(i, side, side);
        let kx = i / side;
        let ky = side - 1 - i % side;
        assert(at(side - 1 - ky, kx, side) == i);
        assert(rt(at(side - 1 - ky, kx, side)) == rp(at(kx, ky, side)));
        assert(k.weights[at(kx, ky, side)] == k.weights[at(side - 1 - ky, kx, side)]);
    }
    lemma_turned_sum(fp, ft, n);
    let cp = |i: int|
        tap_read::<A>(p, src, channels, request, ch, x + request.shift_x(), y + request.shift_y(), i);
    let ct = |i: int|
        tap_read::<A>(t, to, channels, request, ch, tx + request.shift_x(), x + request.shift_y(), i);
    lemma_sum_same(|i: int| term(r, k.weights, cp, i), fp, n * n);
    lemma_sum_same(|i: int| term(r, k.weights, ct, i), ft, n * n);
    assert(exact_sum(r, k.weights, cp, n * n) == exact_sum(r, k.weights, ct, n * n));
}

/// A Gaussian blur follows a quarter turn of its input, up to rounding.
pub proof fn law_blur_is_nearly_isotropic<A: Arithmetic>(
    r: Reading,
    p: Seq<u32>,
    t: Seq<u32>,
    src: Extent,
    channels: u32,
    sigma: u64,
    mode: BoundaryMode,
    ch: int,
    x: int,
    y: int,
    bound: real,
)
    requires
        obeys::<A>(r),
        quotients_round::<A>(r),
        kernel_fits::<A>(sigma),
        taps_summable::<A>(r, sigma),
        src.width >= 1,
        src.height >= 1,
        0 <= ch < channels,
        mode != BoundaryMode::Valid,
        p.len() == src.area() * channels,
        t.len() == p.len(),
        samples_within(r, p, bound),
        0real <= bound,
        forall|k: int| 0 <= k < channels ==> #[trigger] is_turned(p, t, src, channels as int, k),
        product(1real + 4real * steps(r, kernel_of::<A>(sigma).weights.len()), bound) + steps(
            r,
            kernel_of::<A>(sigma).weights.len(),
        ) <= r.top,
    ensures
        size(
            (r.small)(
                filtered_sample::<A>(
                    t,
                    turned_extent(src),
                    channels as int,
                    request_for::<A>(sigma, mode, channels),
                    src.height - 1 - y,
                    x,
                    ch,
                ),
            ) - (r.small)(
                filtered_sample::<A>(
                    p,
                    src,
                    channels as int,
                    request_for::<A>(sigma, mode, channels),
                    x,
                    y,
                    ch,
                ),
            ),
        ) <= 2real * (steps(r, kernel_of::<A>(sigma).weights.len()) + r.store),
{
    let request = request_for::<A>(sigma, mode, channels);
    let kernel = kernel_of::<A>(sigma);
    let n = kernel.weights.len();
    let radius = radius_of::<A>(sigma);
    let side = 2 * radius + 1;
    assert(1 <= side * side && (radius == 0 ==> side * side == 1)) by (nonlinear_arith)
        requires
            side >= 1,
            side == 2 * radius + 1,
    ;
    assert forall|kx: int, ky: int|
        0 <= kx < side && 0 <= ky < side implies #[trigger] kernel.weights[at(kx, ky, side)]
        == kernel.weights[at(side - 1 - ky, kx, side)] by {
        law_kernel_is_isotropic::<A>(sigma, kx - radius, ky - radius);
    }
    law_blur_weights_nearly_add_up_to_one::<A>(r, sigma);
    lemma_product_order(bound, weight(r, kernel.weights, n), 1real + 4real * steps(r, n));
    law_turned_correlation_is_near::<A>(r, p, t, src, channels as int, request, ch, x, y, bound);
}

} // verus!
