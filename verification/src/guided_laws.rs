//! What a guided filter does in an arithmetic that does not round: its window means are means, it
//! keeps a constant channel, averages twice under a constant guide, and reads no pixel outside the
//! region that it asks for.
use crate::arithmetic::{
    fused_of, minus_of, over_of, plus_of, tally_of, times_of, Arithmetic,
};
use crate::binary::{less, negated, rank, ONE, ZERO};
use crate::exact::{
    combined, lemma_distribute, lemma_fused, lemma_minus, lemma_ones_product, lemma_over, lemma_over_times,
    lemma_plus, lemma_plus_assoc, lemma_times, lemma_times_assoc, lemma_total_added,
    lemma_total_constant, lemma_total_cut, lemma_total_plain, lemma_total_same, lemma_total_scaled,
    lemma_units, ones, plain, total, unrounded,
};
use crate::guided::{
    area_sum, footprint, guided_plane, intercept_of, intercepts, products, row_sum, slope_of,
    slopes, window_end, window_mean, window_means, window_start, GuidedRequest,
};
use crate::ir::{Extent, Rect};
use crate::lattice::{at, lemma_at_bounds, lemma_at_inverse, lemma_at_of};
use crate::smoothing_laws::numbers_plain;
use vstd::prelude::*;

verus! {

/// The numbers of row `y` from column `x0` on.
pub open spec fn row_from(plane: Seq<u64>, w: int, y: int, x0: int) -> spec_fn(int) -> u64 {
    |i: int| plane[at(x0 + i, y, w)]
}

/// The sum over a window of `n` columns from `x0` and `m` rows from `y0`, row by row.
pub open spec fn window_sum<A: Arithmetic>(plane: Seq<u64>, w: int, x0: int, y0: int, n: nat, m: nat) -> u64 {
    total::<A>(|j: int| total::<A>(row_from(plane, w, y0 + j, x0), n), m)
}

/// A running row sum is the sum of the row.
proof fn lemma_row_sum<A: Arithmetic>(plane: Seq<u64>, w: int, y: int, x: nat)
    ensures
        row_sum::<A>(plane, w, y, x) == total::<A>(row_from(plane, w, y, 0), x),
    decreases x,
{
    if x > 0 {
        lemma_row_sum::<A>(plane, w, y, (x - 1) as nat);
    }
}

/// The rows of a plane, each summed over its first `x` columns.
pub open spec fn row_sums<A: Arithmetic>(plane: Seq<u64>, w: int, x: nat) -> spec_fn(int) -> u64 {
    |j: int| row_sum::<A>(plane, w, j, x)
}

/// A corner sum is the sum of the row sums.
proof fn lemma_area_sum<A: Arithmetic>(plane: Seq<u64>, w: int, y: nat, x: nat)
    requires
        unrounded::<A>(),
    ensures
        area_sum::<A>(plane, w, y, x) == total::<A>(row_sums::<A>(plane, w, x), y),
    decreases y,
{
    reveal(combined);
    if y > 0 {
        lemma_area_sum::<A>(plane, w, (y - 1) as nat, x);
        if x == 0 {
            lemma_units::<A>(ZERO);
        }
    }
}

/// The row sums of a plane of plain numbers are plain, and a longer one is a shorter one and the rest.
proof fn lemma_row_cut<A: Arithmetic>(plane: Seq<u64>, w: int, h: int, y: int, x0: nat, n: nat)
    requires
        unrounded::<A>(),
        plane.len() == w * h,
        numbers_plain::<A>(plane),
        0 <= y < h,
        x0 + n <= w,
    ensures
        plain::<A>(row_sum::<A>(plane, w, y, x0)),
        plain::<A>(total::<A>(row_from(plane, w, y, x0 as int), n)),
        row_sum::<A>(plane, w, y, x0 + n) == plus_of::<A>(
            row_sum::<A>(plane, w, y, x0),
            total::<A>(row_from(plane, w, y, x0 as int), n),
        ),
{
    let row = row_from(plane, w, y, 0);
    let rest = row_from(plane, w, y, x0 as int);
    assert forall|i: int| 0 <= i < x0 + n implies plain::<A>(#[trigger] row(i)) by {
        lemma_at_bounds(i, y, w, h);
    }
    assert forall|i: int| 0 <= i < n implies plain::<A>(#[trigger] rest(i)) by {
        lemma_at_bounds(x0 + i, y, w, h);
    }
    lemma_row_sum::<A>(plane, w, y, x0);
    lemma_row_sum::<A>(plane, w, y, x0 + n);
    lemma_total_plain::<A>(row, x0);
    lemma_total_plain::<A>(rest, n);
    lemma_total_cut::<A>(row, x0, n);
    let shifted = |i: int| row(x0 + i);
    lemma_total_same::<A>(shifted, rest, n);
}

/// `((q + r) - (p + q)) + p` is `r`.
proof fn lemma_corners<A: Arithmetic>(p: u64, q: u64, r: u64)
    requires
        unrounded::<A>(),
        plain::<A>(p),
        plain::<A>(q),
        plain::<A>(r),
    ensures
        plus_of::<A>(minus_of::<A>(plus_of::<A>(q, r), plus_of::<A>(p, q)), p) == r,
{
    lemma_plus::<A>(q, r);
    lemma_plus::<A>(p, q);
    let d = minus_of::<A>(plus_of::<A>(q, r), plus_of::<A>(p, q));
    lemma_minus::<A>(plus_of::<A>(q, r), plus_of::<A>(p, q));
    lemma_plus_assoc::<A>(d, p, q);
    lemma_plus::<A>(d, p);
    lemma_plus::<A>(plus_of::<A>(d, p), q);
    lemma_plus::<A>(r, q);
}

/// A window mean is the sum over the window, added up directly, over the number of its pixels: the
/// four corner sums give that sum.
pub proof fn law_window_mean_is_the_mean<A: Arithmetic>(plane: Seq<u64>, w: int, h: int, r: int, x: int, y: int)
    requires
        unrounded::<A>(),
        plane.len() == w * h,
        numbers_plain::<A>(plane),
        0 <= x < w,
        0 <= y < h,
        0 <= r,
    ensures
        window_mean::<A>(plane, w, h, r, x, y) == over_of::<A>(
            window_sum::<A>(
                plane,
                w,
                window_start(x, r),
                window_start(y, r),
                (window_end(x, r, w) - window_start(x, r)) as nat,
                (window_end(y, r, h) - window_start(y, r)) as nat,
            ),
            tally_of::<A>(
                ((window_end(x, r, w) - window_start(x, r)) * (window_end(y, r, h) - window_start(
                    y,
                    r,
                ))) as u64,
            ),
        ),
{
    let x0 = window_start(x, r) as nat;
    let x1 = window_end(x, r, w) as nat;
    let y0 = window_start(y, r) as nat;
    let y1 = window_end(y, r, h) as nat;
    let n = (x1 - x0) as nat;
    let m = (y1 - y0) as nat;
    let left = row_sums::<A>(plane, w, x0);
    let whole = row_sums::<A>(plane, w, x1);
    let lower_left = |j: int| left(y0 + j);
    let lower = |j: int| whole(y0 + j);
    let rest = |j: int| total::<A>(row_from(plane, w, y0 + j, x0 as int), n);
    assert forall|j: int| 0 <= j < h implies plain::<A>(#[trigger] left(j)) by {
        lemma_row_cut::<A>(plane, w, h, j, x0, n);
    }
    assert forall|j: int| 0 <= j < h implies plain::<A>(#[trigger] whole(j)) by {
        lemma_row_cut::<A>(plane, w, h, j, x1, 0);
    }
    assert forall|j: int| 0 <= j < m implies plain::<A>(#[trigger] lower_left(j)) by {}
    assert forall|j: int| 0 <= j < m implies plain::<A>(#[trigger] lower(j)) by {}
    assert forall|j: int| 0 <= j < m implies plain::<A>(#[trigger] rest(j)) by {
        lemma_row_cut::<A>(plane, w, h, y0 + j, x0, n);
    }
    lemma_area_sum::<A>(plane, w, y0, x0);
    lemma_area_sum::<A>(plane, w, y1, x0);
    lemma_area_sum::<A>(plane, w, y0, x1);
    lemma_area_sum::<A>(plane, w, y1, x1);
    lemma_total_cut::<A>(left, y0, m);
    lemma_total_cut::<A>(whole, y0, m);
    lemma_total_plain::<A>(left, y0);
    lemma_total_plain::<A>(whole, y0);
    lemma_total_plain::<A>(lower_left, m);
    lemma_total_plain::<A>(lower, m);
    lemma_total_plain::<A>(rest, m);
    lemma_total_added::<A>(lower_left, rest, m);
    let both = |j: int| plus_of::<A>(lower_left(j), rest(j));
    assert forall|j: int| 0 <= j < m implies #[trigger] lower(j) == both(j) by {
        lemma_row_cut::<A>(plane, w, h, y0 + j, x0, n);
    }
    lemma_total_same::<A>(lower, both, m);
    let p = total::<A>(left, y0);
    let q = total::<A>(lower_left, m);
    let sum = total::<A>(rest, m);
    let top = total::<A>(whole, y0);
    lemma_plus::<A>(q, sum);
    lemma_plus::<A>(top, plus_of::<A>(q, sum));
    lemma_corners::<A>(p, q, sum);
}

/// Counts up to `n` are sums of ones, and not zero.
pub open spec fn counts<A: Arithmetic>(n: int) -> bool {
    forall|k: int|
        1 <= k <= n ==> #[trigger] tally_of::<A>(k as u64) == ones::<A>(k as nat) && rank(
            ones::<A>(k as nat),
        ) != 0
}

/// The window about a pixel has at least one pixel and no more than the plane.
proof fn lemma_window_count(w: int, h: int, r: int, x: int, y: int)
    requires
        0 <= x < w,
        0 <= y < h,
        0 <= r,
    ensures
        1 <= (window_end(x, r, w) - window_start(x, r)) * (window_end(y, r, h) - window_start(y, r)) <= w
            * h,
{
    let n = window_end(x, r, w) - window_start(x, r);
    let m = window_end(y, r, h) - window_start(y, r);
    assert(1 <= n * m <= w * h) by (nonlinear_arith)
        requires
            1 <= n <= w,
            1 <= m <= h,
    ;
}

/// A plane of equal numbers.
pub open spec fn level(w: int, h: int, c: u64) -> Seq<u64> {
    Seq::new((w * h) as nat, |i: int| c)
}

/// Every window mean of a constant plane is the constant.
pub proof fn law_mean_of_a_constant<A: Arithmetic>(w: int, h: int, r: int, x: int, y: int, c: u64)
    requires
        unrounded::<A>(),
        plain::<A>(c),
        0 <= x < w,
        0 <= y < h,
        0 <= r,
        counts::<A>(w * h),
    ensures
        window_mean::<A>(level(w, h, c), w, h, r, x, y) == c,
{
    let plane = level(w, h, c);
    let x0 = window_start(x, r);
    let y0 = window_start(y, r);
    let n = (window_end(x, r, w) - x0) as nat;
    let m = (window_end(y, r, h) - y0) as nat;
    lemma_window_count(w, h, r, x, y);
    law_window_mean_is_the_mean::<A>(plane, w, h, r, x, y);
    let rows = |j: int| total::<A>(row_from(plane, w, y0 + j, x0), n);
    let line = times_of::<A>(ones::<A>(n), c);
    lemma_total_constant::<A>(|i: int| c, n, c);
    lemma_times::<A>(ones::<A>(n), c);
    assert forall|j: int| 0 <= j < m implies #[trigger] rows(j) == line by {
        let row = row_from(plane, w, y0 + j, x0);
        assert forall|i: int| 0 <= i < n implies #[trigger] row(i) == c by {
            lemma_at_bounds(x0 + i, y0 + j, w, h);
        }
        lemma_total_constant::<A>(row, n, c);
    }
    lemma_total_constant::<A>(rows, m, line);
    lemma_ones_product::<A>(m, n);
    lemma_ones_product::<A>(n, m);
    lemma_times_assoc::<A>(ones::<A>(m), ones::<A>(n), c);
    lemma_times::<A>(ones::<A>(m), ones::<A>(n));
    let count = ones::<A>(n * m);
    lemma_times::<A>(count, c);
    lemma_over::<A>(c, count);
}

/// The mean over a window of a multiple is the multiple of the mean.
proof fn lemma_mean_of_multiple<A: Arithmetic>(plane: Seq<u64>, scaled: Seq<u64>, c: u64, w: int, h: int, r: int, x: int, y: int)
    requires
        unrounded::<A>(),
        plain::<A>(c),
        plane.len() == w * h,
        scaled.len() == w * h,
        numbers_plain::<A>(plane),
        forall|i: int| 0 <= i < w * h ==> #[trigger] scaled[i] == times_of::<A>(plane[i], c),
        0 <= x < w,
        0 <= y < h,
        0 <= r,
        counts::<A>(w * h),
    ensures
        plain::<A>(window_mean::<A>(plane, w, h, r, x, y)),
        window_mean::<A>(scaled, w, h, r, x, y) == times_of::<A>(
            window_mean::<A>(plane, w, h, r, x, y),
            c,
        ),
{
    let x0 = window_start(x, r);
    let y0 = window_start(y, r);
    let n = (window_end(x, r, w) - x0) as nat;
    let m = (window_end(y, r, h) - y0) as nat;
    lemma_window_count(w, h, r, x, y);
    assert forall|i: int| 0 <= i < scaled.len() implies plain::<A>(#[trigger] scaled[i]) by {
        lemma_times::<A>(plane[i], c);
    }
    law_window_mean_is_the_mean::<A>(plane, w, h, r, x, y);
    law_window_mean_is_the_mean::<A>(scaled, w, h, r, x, y);
    let rows = |j: int| total::<A>(row_from(plane, w, y0 + j, x0), n);
    let scaled_rows = |j: int| total::<A>(row_from(scaled, w, y0 + j, x0), n);
    assert forall|j: int| 0 <= j < m implies plain::<A>(#[trigger] rows(j)) && scaled_rows(j)
        == times_of::<A>(rows(j), c) by {
        let row = row_from(plane, w, y0 + j, x0);
        let scaled_row = row_from(scaled, w, y0 + j, x0);
        assert forall|i: int| 0 <= i < n implies plain::<A>(#[trigger] row(i)) && scaled_row(i)
            == times_of::<A>(row(i), c) by {
            lemma_at_bounds(x0 + i, y0 + j, w, h);
        }
        lemma_total_plain::<A>(row, n);
        lemma_total_scaled::<A>(row, n, c);
        let each = |i: int| times_of::<A>(row(i), c);
        assert forall|i: int| 0 <= i < n implies #[trigger] scaled_row(i) == each(i) by {}
        lemma_total_same::<A>(scaled_row, each, n);
    }
    lemma_total_plain::<A>(rows, m);
    lemma_total_scaled::<A>(rows, m, c);
    let each = |j: int| times_of::<A>(rows(j), c);
    assert forall|j: int| 0 <= j < m implies #[trigger] scaled_rows(j) == each(j) by {}
    lemma_total_same::<A>(scaled_rows, each, m);
    let count = ones::<A>((n * m) as nat);
    lemma_ones_product::<A>(n * m, 1);
    let sum = total::<A>(rows, m);
    lemma_over::<A>(sum, count);
    lemma_over_times::<A>(sum, c, count);
}

/// A window mean of plain numbers is plain.
proof fn lemma_mean_plain<A: Arithmetic>(plane: Seq<u64>, w: int, h: int, r: int, x: int, y: int)
    requires
        unrounded::<A>(),
        plane.len() == w * h,
        numbers_plain::<A>(plane),
        0 <= x < w,
        0 <= y < h,
        0 <= r,
        counts::<A>(w * h),
    ensures
        plain::<A>(window_mean::<A>(plane, w, h, r, x, y)),
{
    let n = plane.len();
    let scaled = Seq::new(n, |i: int| times_of::<A>(plane[i], ZERO));
    lemma_at_bounds(x, y, w, h);
    lemma_units::<A>(plane[0]);
    lemma_mean_of_multiple::<A>(plane, scaled, ZERO, w, h, r, x, y);
}

/// Where the covariance is the product of the means, the fit has no slope.
proof fn lemma_no_slope<A: Arithmetic>(
    mean_guide: u64,
    mean_input: u64,
    mean_prod: u64,
    mean_square: u64,
    epsilon: u64,
)
    requires
        unrounded::<A>(),
        plain::<A>(mean_guide),
        plain::<A>(mean_input),
        plain::<A>(mean_square),
        plain::<A>(epsilon),
        mean_prod == times_of::<A>(mean_guide, mean_input),
    ensures
        slope_of::<A>(mean_guide, mean_input, mean_prod, mean_square, epsilon) == ZERO,
        intercept_of::<A>(ZERO, mean_guide, mean_input) == mean_input,
{
    lemma_units::<A>(mean_guide);
    lemma_units::<A>(mean_input);
    lemma_times::<A>(mean_guide, mean_input);
    lemma_times::<A>(mean_guide, mean_guide);
    lemma_fused::<A>(mean_guide, mean_input, mean_prod);
    lemma_fused::<A>(mean_guide, mean_guide, mean_square);
    lemma_fused::<A>(ZERO, mean_guide, mean_input);
    lemma_units::<A>(mean_prod);
    let var = fused_of::<A>(mean_guide, negated(mean_guide), mean_square);
    lemma_minus::<A>(mean_square, times_of::<A>(mean_guide, mean_guide));
    lemma_plus::<A>(var, epsilon);
    let denom = plus_of::<A>(var, epsilon);
    if less(ZERO, denom) {
        lemma_over::<A>(ZERO, denom);
    }
}

/// A guided filter keeps a constant channel, whatever the guide.
pub proof fn law_guided_keeps_a_constant<A: Arithmetic>(
    guide: Seq<u64>,
    c: u64,
    w: int,
    h: int,
    request: GuidedRequest,
)
    requires
        unrounded::<A>(),
        1 <= w,
        1 <= h,
        guide.len() == w * h,
        numbers_plain::<A>(guide),
        plain::<A>(c),
        plain::<A>(request.epsilon),
        counts::<A>(w * h),
    ensures
        guided_plane::<A>(guide, level(w, h, c), w, h, request) == level(w, h, c),
{
    let r = request.radius as int;
    let input = level(w, h, c);
    let a = slopes::<A>(guide, input, w, h, request);
    let b = intercepts::<A>(guide, input, w, h, request);
    let square = products::<A>(guide, guide);
    let prod = products::<A>(guide, input);
    lemma_units::<A>(c);
    assert forall|i: int| 0 <= i < square.len() implies plain::<A>(#[trigger] square[i]) by {
        assert(plain::<A>(guide[i]));
        lemma_times::<A>(guide[i], guide[i]);
    }
    assert forall|i: int| 0 <= i < w * h implies a[i] == ZERO && b[i] == c by {
        lemma_at_of(i, w, h);
        let x = i % w;
        let y = i / w;
        lemma_mean_plain::<A>(guide, w, h, r, x, y);
        lemma_mean_plain::<A>(square, w, h, r, x, y);
        law_mean_of_a_constant::<A>(w, h, r, x, y, c);
        lemma_mean_of_multiple::<A>(guide, prod, c, w, h, r, x, y);
        lemma_no_slope::<A>(
            window_mean::<A>(guide, w, h, r, x, y),
            c,
            window_mean::<A>(prod, w, h, r, x, y),
            window_mean::<A>(square, w, h, r, x, y),
            request.epsilon,
        );
    }
    assert(a =~= level(w, h, ZERO));
    assert(b =~= level(w, h, c));
    let out = guided_plane::<A>(guide, input, w, h, request);
    assert forall|i: int| 0 <= i < w * h implies out[i] == c by {
        lemma_at_of(i, w, h);
        law_mean_of_a_constant::<A>(w, h, r, i % w, i / w, ZERO);
        law_mean_of_a_constant::<A>(w, h, r, i % w, i / w, c);
        assert(plain::<A>(guide[i]));
        lemma_units::<A>(guide[i]);
        lemma_fused::<A>(ZERO, guide[i], c);
    }
    assert(out =~= input);
}

/// Every window's fit is the regularised least-squares line: it passes through the means of guide and input,
/// and its slope times the guide's variance, with epsilon added, is the covariance of guide and input.
pub proof fn law_fit_is_regularised_least_squares<A: Arithmetic>(
    guide: Seq<u64>,
    input: Seq<u64>,
    w: int,
    h: int,
    request: GuidedRequest,
    x: int,
    y: int,
)
    requires
        unrounded::<A>(),
        0 <= x < w,
        0 <= y < h,
        guide.len() == w * h,
        input.len() == w * h,
        numbers_plain::<A>(guide),
        numbers_plain::<A>(input),
        plain::<A>(request.epsilon),
        counts::<A>(w * h),
        less(
            ZERO,
            plus_of::<A>(
                variance::<A>(guide, w, h, request.radius as int, x, y),
                request.epsilon,
            ),
        ),
    ensures
        ({
            let r = request.radius as int;
            let a = slopes::<A>(guide, input, w, h, request)[at(x, y, w)];
            let b = intercepts::<A>(guide, input, w, h, request)[at(x, y, w)];
            let mg = window_mean::<A>(guide, w, h, r, x, y);
            let mi = window_mean::<A>(input, w, h, r, x, y);
            let mp = window_mean::<A>(products::<A>(guide, input), w, h, r, x, y);
            &&& plus_of::<A>(times_of::<A>(a, mg), b) == mi
            &&& times_of::<A>(
                a,
                plus_of::<A>(variance::<A>(guide, w, h, r, x, y), request.epsilon),
            ) == minus_of::<A>(mp, times_of::<A>(mg, mi))
        }),
{
    let r = request.radius as int;
    let square = products::<A>(guide, guide);
    let prod = products::<A>(guide, input);
    lemma_products_plain::<A>(guide, guide);
    lemma_products_plain::<A>(guide, input);
    lemma_mean_plain::<A>(guide, w, h, r, x, y);
    lemma_mean_plain::<A>(input, w, h, r, x, y);
    lemma_mean_plain::<A>(square, w, h, r, x, y);
    lemma_mean_plain::<A>(prod, w, h, r, x, y);
    let mg = window_mean::<A>(guide, w, h, r, x, y);
    let mi = window_mean::<A>(input, w, h, r, x, y);
    let ms = window_mean::<A>(square, w, h, r, x, y);
    let mp = window_mean::<A>(prod, w, h, r, x, y);
    let var = variance::<A>(guide, w, h, r, x, y);
    let cov = minus_of::<A>(mp, times_of::<A>(mg, mi));
    lemma_at_bounds(x, y, w, h);
    lemma_at_inverse(x, y, w);
    lemma_times::<A>(mg, mg);
    lemma_times::<A>(mg, mi);
    lemma_fused::<A>(mg, mi, mp);
    lemma_fused::<A>(mg, mg, ms);
    lemma_minus::<A>(ms, times_of::<A>(mg, mg));
    lemma_minus::<A>(mp, times_of::<A>(mg, mi));
    let denom = plus_of::<A>(var, request.epsilon);
    lemma_plus::<A>(var, request.epsilon);
    lemma_over::<A>(cov, denom);
    let a = over_of::<A>(cov, denom);
    lemma_times::<A>(a, denom);
    lemma_fused::<A>(a, mg, mi);
    lemma_times::<A>(a, mg);
    lemma_minus::<A>(mi, times_of::<A>(a, mg));
    lemma_plus::<A>(times_of::<A>(a, mg), minus_of::<A>(mi, times_of::<A>(a, mg)));
}

/// The variance of a plane in the window about a pixel: the mean of the squares less the square of the mean.
pub open spec fn variance<A: Arithmetic>(plane: Seq<u64>, w: int, h: int, r: int, x: int, y: int) -> u64 {
    let mean = window_mean::<A>(plane, w, h, r, x, y);
    minus_of::<A>(
        window_mean::<A>(products::<A>(plane, plane), w, h, r, x, y),
        times_of::<A>(mean, mean),
    )
}

/// A channel that is its own guide comes back as it was, where nothing is regularised and the guide varies in
/// every window: edges are kept.
pub proof fn law_guided_keeps_its_guide<A: Arithmetic>(guide: Seq<u64>, w: int, h: int, request: GuidedRequest)
    requires
        unrounded::<A>(),
        1 <= w,
        1 <= h,
        guide.len() == w * h,
        numbers_plain::<A>(guide),
        request.epsilon == ZERO,
        counts::<A>(w * h),
        forall|x: int, y: int|
            0 <= x < w && 0 <= y < h ==> less(
                ZERO,
                #[trigger] variance::<A>(guide, w, h, request.radius as int, x, y),
            ),
    ensures
        guided_plane::<A>(guide, guide, w, h, request) == guide,
{
    let r = request.radius as int;
    let a = slopes::<A>(guide, guide, w, h, request);
    let b = intercepts::<A>(guide, guide, w, h, request);
    let square = products::<A>(guide, guide);
    lemma_products_plain::<A>(guide, guide);
    lemma_at_bounds(0, 0, w, h);
    lemma_units::<A>(guide[0]);
    assert forall|i: int| 0 <= i < w * h implies a[i] == ONE && b[i] == ZERO by {
        lemma_at_of(i, w, h);
        let x = i % w;
        let y = i / w;
        lemma_mean_plain::<A>(guide, w, h, r, x, y);
        lemma_mean_plain::<A>(square, w, h, r, x, y);
        let mg = window_mean::<A>(guide, w, h, r, x, y);
        let ms = window_mean::<A>(square, w, h, r, x, y);
        let var = variance::<A>(guide, w, h, r, x, y);
        lemma_times::<A>(mg, mg);
        lemma_fused::<A>(mg, mg, ms);
        lemma_minus::<A>(ms, times_of::<A>(mg, mg));
        lemma_units::<A>(var);
        lemma_units::<A>(mg);
        lemma_over::<A>(ONE, var);
        lemma_times::<A>(ONE, var);
        lemma_fused::<A>(ONE, mg, mg);
        lemma_times::<A>(ONE, mg);
    }
    assert(a =~= level(w, h, ONE));
    assert(b =~= level(w, h, ZERO));
    let out = guided_plane::<A>(guide, guide, w, h, request);
    assert forall|i: int| 0 <= i < w * h implies out[i] == guide[i] by {
        lemma_at_of(i, w, h);
        law_mean_of_a_constant::<A>(w, h, r, i % w, i / w, ONE);
        law_mean_of_a_constant::<A>(w, h, r, i % w, i / w, ZERO);
        assert(plain::<A>(guide[i]));
        lemma_units::<A>(guide[i]);
        lemma_times::<A>(ONE, guide[i]);
        lemma_fused::<A>(ONE, guide[i], ZERO);
    }
    assert(out =~= guide);
}

/// A difference of multiples is the multiple of the difference.
proof fn lemma_scaled_difference<A: Arithmetic>(a: u64, b: u64, k: u64)
    requires
        unrounded::<A>(),
        plain::<A>(a),
        plain::<A>(b),
        plain::<A>(k),
    ensures
        minus_of::<A>(times_of::<A>(a, k), times_of::<A>(b, k)) == times_of::<A>(minus_of::<A>(a, b), k),
{
    let d = minus_of::<A>(a, b);
    lemma_minus::<A>(a, b);
    lemma_distribute::<A>(d, b, k);
    lemma_times::<A>(d, k);
    lemma_times::<A>(b, k);
    lemma_plus::<A>(times_of::<A>(d, k), times_of::<A>(b, k));
}

/// A multiple of one factor is the multiple of the product.
proof fn lemma_scaled_factor<A: Arithmetic>(a: u64, b: u64, k: u64)
    requires
        unrounded::<A>(),
        plain::<A>(a),
        plain::<A>(b),
        plain::<A>(k),
    ensures
        times_of::<A>(a, times_of::<A>(b, k)) == times_of::<A>(times_of::<A>(a, b), k),
        times_of::<A>(times_of::<A>(a, k), b) == times_of::<A>(times_of::<A>(a, b), k),
{
    lemma_times_assoc::<A>(a, b, k);
    lemma_times_assoc::<A>(a, k, b);
    lemma_times::<A>(k, b);
}

/// The fit of a multiple of the input is the multiple of the fit.
proof fn lemma_scaled_fit<A: Arithmetic>(mg: u64, mi: u64, mp: u64, ms: u64, epsilon: u64, k: u64)
    requires
        unrounded::<A>(),
        plain::<A>(mg),
        plain::<A>(mi),
        plain::<A>(mp),
        plain::<A>(ms),
        plain::<A>(epsilon),
        plain::<A>(k),
    ensures
        ({
            let a = slope_of::<A>(mg, mi, mp, ms, epsilon);
            let b = intercept_of::<A>(a, mg, mi);
            let a_times = slope_of::<A>(mg, times_of::<A>(mi, k), times_of::<A>(mp, k), ms, epsilon);
            &&& a_times == times_of::<A>(a, k)
            &&& intercept_of::<A>(a_times, mg, times_of::<A>(mi, k)) == times_of::<A>(b, k)
        }),
{
    let a = slope_of::<A>(mg, mi, mp, ms, epsilon);
    let scaled = times_of::<A>(mi, k);
    let cross = times_of::<A>(mg, mi);
    lemma_units::<A>(k);
    lemma_times::<A>(mi, k);
    lemma_times::<A>(mp, k);
    lemma_times::<A>(mg, mi);
    lemma_times::<A>(mg, mg);
    lemma_fused::<A>(mg, mi, mp);
    lemma_fused::<A>(mg, mg, ms);
    lemma_fused::<A>(mg, scaled, times_of::<A>(mp, k));
    lemma_scaled_factor::<A>(mg, mi, k);
    lemma_scaled_difference::<A>(mp, cross, k);
    lemma_minus::<A>(mp, cross);
    lemma_minus::<A>(ms, times_of::<A>(mg, mg));
    let cov = minus_of::<A>(mp, cross);
    let var = minus_of::<A>(ms, times_of::<A>(mg, mg));
    lemma_plus::<A>(var, epsilon);
    let denom = plus_of::<A>(var, epsilon);
    if less(ZERO, denom) {
        lemma_over::<A>(cov, denom);
        lemma_over_times::<A>(cov, k, denom);
    }
    lemma_times::<A>(a, k);
    lemma_times::<A>(a, mg);
    lemma_fused::<A>(a, mg, mi);
    lemma_fused::<A>(times_of::<A>(a, k), mg, scaled);
    lemma_scaled_factor::<A>(a, mg, k);
    lemma_scaled_difference::<A>(mi, times_of::<A>(a, mg), k);
}

/// A guided filter is proportional to its input: under the same guide, what it makes of a multiple of the
/// input is the multiple of what it makes of the input.
pub proof fn law_guided_scales_with_its_input<A: Arithmetic>(
    guide: Seq<u64>,
    input: Seq<u64>,
    scaled: Seq<u64>,
    k: u64,
    w: int,
    h: int,
    request: GuidedRequest,
    i: int,
)
    requires
        unrounded::<A>(),
        1 <= w,
        1 <= h,
        guide.len() == w * h,
        input.len() == w * h,
        scaled.len() == w * h,
        numbers_plain::<A>(guide),
        numbers_plain::<A>(input),
        plain::<A>(k),
        plain::<A>(request.epsilon),
        counts::<A>(w * h),
        forall|j: int| 0 <= j < w * h ==> #[trigger] scaled[j] == times_of::<A>(input[j], k),
        0 <= i < w * h,
    ensures
        guided_plane::<A>(guide, scaled, w, h, request)[i] == times_of::<A>(
            guided_plane::<A>(guide, input, w, h, request)[i],
            k,
        ),
{
    let r = request.radius as int;
    let a = slopes::<A>(guide, input, w, h, request);
    let b = intercepts::<A>(guide, input, w, h, request);
    let a_times = slopes::<A>(guide, scaled, w, h, request);
    let b_times = intercepts::<A>(guide, scaled, w, h, request);
    let prod = products::<A>(guide, input);
    let prod_times = products::<A>(guide, scaled);
    let square = products::<A>(guide, guide);
    lemma_products_plain::<A>(guide, input);
    lemma_products_plain::<A>(guide, guide);
    lemma_fits_plain::<A>(guide, input, w, h, request);
    assert forall|j: int| 0 <= j < w * h implies #[trigger] prod_times[j] == times_of::<A>(prod[j], k) by {
        assert(plain::<A>(guide[j]) && plain::<A>(input[j]));
        assert(scaled[j] == times_of::<A>(input[j], k));
        lemma_scaled_factor::<A>(guide[j], input[j], k);
    }
    assert forall|j: int| 0 <= j < w * h implies a_times[j] == times_of::<A>(a[j], k) && b_times[j] == times_of::<A>(
        b[j],
        k,
    ) by {
        lemma_at_of(j, w, h);
        let x = j % w;
        let y = j / w;
        lemma_mean_plain::<A>(guide, w, h, r, x, y);
        lemma_mean_plain::<A>(square, w, h, r, x, y);
        lemma_mean_of_multiple::<A>(input, scaled, k, w, h, r, x, y);
        lemma_mean_of_multiple::<A>(prod, prod_times, k, w, h, r, x, y);
        lemma_scaled_fit::<A>(
            window_mean::<A>(guide, w, h, r, x, y),
            window_mean::<A>(input, w, h, r, x, y),
            window_mean::<A>(prod, w, h, r, x, y),
            window_mean::<A>(square, w, h, r, x, y),
            request.epsilon,
            k,
        );
    }
    lemma_at_of(i, w, h);
    let x = i % w;
    let y = i / w;
    lemma_mean_of_multiple::<A>(a, a_times, k, w, h, r, x, y);
    lemma_mean_of_multiple::<A>(b, b_times, k, w, h, r, x, y);
    let ma = window_mean::<A>(a, w, h, r, x, y);
    let mb = window_mean::<A>(b, w, h, r, x, y);
    let g = guide[i];
    assert(plain::<A>(g));
    lemma_times::<A>(ma, k);
    lemma_times::<A>(mb, k);
    lemma_times::<A>(ma, g);
    lemma_fused::<A>(ma, g, mb);
    lemma_fused::<A>(times_of::<A>(ma, k), g, times_of::<A>(mb, k));
    lemma_scaled_factor::<A>(ma, g, k);
    lemma_distribute::<A>(times_of::<A>(ma, g), mb, k);
}

/// Under a constant guide a guided filter averages over windows twice.
pub proof fn law_constant_guide_averages_twice<A: Arithmetic>(
    g: u64,
    input: Seq<u64>,
    w: int,
    h: int,
    request: GuidedRequest,
)
    requires
        unrounded::<A>(),
        1 <= w,
        1 <= h,
        input.len() == w * h,
        numbers_plain::<A>(input),
        plain::<A>(g),
        plain::<A>(request.epsilon),
        counts::<A>(w * h),
    ensures
        guided_plane::<A>(level(w, h, g), input, w, h, request) == window_means::<A>(
            window_means::<A>(input, w, h, request.radius as int),
            w,
            h,
            request.radius as int,
        ),
{
    let r = request.radius as int;
    let guide = level(w, h, g);
    let means = window_means::<A>(input, w, h, r);
    let a = slopes::<A>(guide, input, w, h, request);
    let b = intercepts::<A>(guide, input, w, h, request);
    let square = products::<A>(guide, guide);
    let prod = products::<A>(guide, input);
    lemma_units::<A>(g);
    lemma_times::<A>(g, g);
    assert forall|i: int| 0 <= i < w * h implies #[trigger] prod[i] == times_of::<A>(input[i], g) by {
        assert(plain::<A>(input[i]));
        lemma_times::<A>(g, input[i]);
    }
    assert forall|i: int| 0 <= i < w * h implies a[i] == ZERO && b[i] == means[i] && plain::<A>(
        #[trigger] means[i],
    ) by {
        lemma_at_of(i, w, h);
        let x = i % w;
        let y = i / w;
        lemma_mean_plain::<A>(input, w, h, r, x, y);
        lemma_mean_plain::<A>(square, w, h, r, x, y);
        law_mean_of_a_constant::<A>(w, h, r, x, y, g);
        lemma_mean_of_multiple::<A>(input, prod, g, w, h, r, x, y);
        lemma_times::<A>(g, means[i]);
        lemma_no_slope::<A>(
            g,
            means[i],
            window_mean::<A>(prod, w, h, r, x, y),
            window_mean::<A>(square, w, h, r, x, y),
            request.epsilon,
        );
    }
    assert(a =~= level(w, h, ZERO)) by {
        assert forall|i: int| 0 <= i < w * h implies a[i] == ZERO by {
            assert(plain::<A>(means[i]));
        }
    }
    assert(b =~= means);
    let out = guided_plane::<A>(guide, input, w, h, request);
    let twice = window_means::<A>(means, w, h, r);
    assert forall|i: int| 0 <= i < w * h implies out[i] == twice[i] by {
        lemma_at_of(i, w, h);
        law_mean_of_a_constant::<A>(w, h, r, i % w, i / w, ZERO);
        lemma_mean_plain::<A>(means, w, h, r, i % w, i / w);
        lemma_fused::<A>(ZERO, g, twice[i]);
    }
    assert(out =~= twice);
}

/// Two planes are equal in the window of radius `r` about a pixel.
pub open spec fn same_window(p: Seq<u64>, q: Seq<u64>, w: int, h: int, r: int, x: int, y: int) -> bool {
    forall|i: int, j: int|
        window_start(x, r) <= i < window_end(x, r, w) && window_start(y, r) <= j < window_end(y, r, h)
            ==> p[#[trigger] at(i, j, w)] == q[at(i, j, w)]
}

/// Planes that are equal in a window have the same mean over it.
proof fn lemma_same_mean<A: Arithmetic>(p: Seq<u64>, q: Seq<u64>, w: int, h: int, r: int, x: int, y: int)
    requires
        unrounded::<A>(),
        p.len() == w * h,
        q.len() == w * h,
        numbers_plain::<A>(p),
        numbers_plain::<A>(q),
        0 <= x < w,
        0 <= y < h,
        0 <= r,
        same_window(p, q, w, h, r, x, y),
    ensures
        window_mean::<A>(p, w, h, r, x, y) == window_mean::<A>(q, w, h, r, x, y),
{
    let x0 = window_start(x, r);
    let y0 = window_start(y, r);
    let n = (window_end(x, r, w) - x0) as nat;
    let m = (window_end(y, r, h) - y0) as nat;
    law_window_mean_is_the_mean::<A>(p, w, h, r, x, y);
    law_window_mean_is_the_mean::<A>(q, w, h, r, x, y);
    let rows_p = |j: int| total::<A>(row_from(p, w, y0 + j, x0), n);
    let rows_q = |j: int| total::<A>(row_from(q, w, y0 + j, x0), n);
    assert forall|j: int| 0 <= j < m implies #[trigger] rows_p(j) == rows_q(j) by {
        let row_p = row_from(p, w, y0 + j, x0);
        let row_q = row_from(q, w, y0 + j, x0);
        assert forall|i: int| 0 <= i < n implies #[trigger] row_p(i) == row_q(i) by {}
        lemma_total_same::<A>(row_p, row_q, n);
    }
    lemma_total_same::<A>(rows_p, rows_q, m);
}

/// The products of plain numbers are plain.
proof fn lemma_products_plain<A: Arithmetic>(a: Seq<u64>, b: Seq<u64>)
    requires
        unrounded::<A>(),
        a.len() == b.len(),
        numbers_plain::<A>(a),
        numbers_plain::<A>(b),
    ensures
        numbers_plain::<A>(products::<A>(a, b)),
{
    assert forall|i: int| 0 <= i < a.len() implies plain::<A>(#[trigger] products::<A>(a, b)[i]) by {
        lemma_times::<A>(a[i], b[i]);
    }
}

/// A window's fit is plain.
proof fn lemma_fit_plain<A: Arithmetic>(
    mean_guide: u64,
    mean_input: u64,
    mean_prod: u64,
    mean_square: u64,
    epsilon: u64,
)
    requires
        unrounded::<A>(),
        plain::<A>(mean_guide),
        plain::<A>(mean_input),
        plain::<A>(mean_prod),
        plain::<A>(mean_square),
        plain::<A>(epsilon),
    ensures
        plain::<A>(slope_of::<A>(mean_guide, mean_input, mean_prod, mean_square, epsilon)),
        plain::<A>(
            intercept_of::<A>(
                slope_of::<A>(mean_guide, mean_input, mean_prod, mean_square, epsilon),
                mean_guide,
                mean_input,
            ),
        ),
{
    lemma_units::<A>(mean_guide);
    lemma_times::<A>(mean_guide, mean_input);
    lemma_times::<A>(mean_guide, mean_guide);
    lemma_fused::<A>(mean_guide, mean_input, mean_prod);
    lemma_fused::<A>(mean_guide, mean_guide, mean_square);
    lemma_minus::<A>(mean_prod, times_of::<A>(mean_guide, mean_input));
    lemma_minus::<A>(mean_square, times_of::<A>(mean_guide, mean_guide));
    let cov = fused_of::<A>(mean_guide, negated(mean_input), mean_prod);
    let var = fused_of::<A>(mean_guide, negated(mean_guide), mean_square);
    lemma_plus::<A>(var, epsilon);
    let denom = plus_of::<A>(var, epsilon);
    let slope = slope_of::<A>(mean_guide, mean_input, mean_prod, mean_square, epsilon);
    if less(ZERO, denom) {
        lemma_over::<A>(cov, denom);
    }
    lemma_times::<A>(slope, mean_guide);
    lemma_fused::<A>(slope, mean_guide, mean_input);
    lemma_minus::<A>(mean_input, times_of::<A>(slope, mean_guide));
}

/// The fits of a plane's windows are plain.
proof fn lemma_fits_plain<A: Arithmetic>(guide: Seq<u64>, input: Seq<u64>, w: int, h: int, request: GuidedRequest)
    requires
        unrounded::<A>(),
        0 <= w,
        0 <= h,
        guide.len() == w * h,
        input.len() == w * h,
        numbers_plain::<A>(guide),
        numbers_plain::<A>(input),
        plain::<A>(request.epsilon),
        counts::<A>(w * h),
    ensures
        numbers_plain::<A>(slopes::<A>(guide, input, w, h, request)),
        numbers_plain::<A>(intercepts::<A>(guide, input, w, h, request)),
{
    let r = request.radius as int;
    let a = slopes::<A>(guide, input, w, h, request);
    let b = intercepts::<A>(guide, input, w, h, request);
    let prod = products::<A>(guide, input);
    let square = products::<A>(guide, guide);
    lemma_products_plain::<A>(guide, input);
    lemma_products_plain::<A>(guide, guide);
    assert forall|i: int| 0 <= i < w * h implies plain::<A>(#[trigger] a[i]) && plain::<A>(b[i]) by {
        lemma_at_of(i, w, h);
        let x = i % w;
        let y = i / w;
        lemma_mean_plain::<A>(guide, w, h, r, x, y);
        lemma_mean_plain::<A>(input, w, h, r, x, y);
        lemma_mean_plain::<A>(prod, w, h, r, x, y);
        lemma_mean_plain::<A>(square, w, h, r, x, y);
        lemma_fit_plain::<A>(
            window_mean::<A>(guide, w, h, r, x, y),
            window_mean::<A>(input, w, h, r, x, y),
            window_mean::<A>(prod, w, h, r, x, y),
            window_mean::<A>(square, w, h, r, x, y),
            request.epsilon,
        );
    }
    assert forall|i: int| 0 <= i < b.len() implies plain::<A>(#[trigger] b[i]) by {}
}

/// Guides and inputs that are equal in a window have the same fit there.
proof fn lemma_same_fit<A: Arithmetic>(
    guide: Seq<u64>,
    input: Seq<u64>,
    other_guide: Seq<u64>,
    other_input: Seq<u64>,
    w: int,
    h: int,
    request: GuidedRequest,
    x: int,
    y: int,
)
    requires
        unrounded::<A>(),
        guide.len() == w * h,
        input.len() == w * h,
        other_guide.len() == w * h,
        other_input.len() == w * h,
        numbers_plain::<A>(guide),
        numbers_plain::<A>(input),
        numbers_plain::<A>(other_guide),
        numbers_plain::<A>(other_input),
        0 <= x < w,
        0 <= y < h,
        same_window(guide, other_guide, w, h, request.radius as int, x, y),
        same_window(input, other_input, w, h, request.radius as int, x, y),
    ensures
        slopes::<A>(guide, input, w, h, request)[at(x, y, w)] == slopes::<A>(
            other_guide,
            other_input,
            w,
            h,
            request,
        )[at(x, y, w)],
        intercepts::<A>(guide, input, w, h, request)[at(x, y, w)] == intercepts::<A>(
            other_guide,
            other_input,
            w,
            h,
            request,
        )[at(x, y, w)],
{
    let r = request.radius as int;
    let prod = products::<A>(guide, input);
    let square = products::<A>(guide, guide);
    let other_prod = products::<A>(other_guide, other_input);
    let other_square = products::<A>(other_guide, other_guide);
    lemma_products_plain::<A>(guide, input);
    lemma_products_plain::<A>(guide, guide);
    lemma_products_plain::<A>(other_guide, other_input);
    lemma_products_plain::<A>(other_guide, other_guide);
    assert forall|i: int, j: int|
        window_start(x, r) <= i < window_end(x, r, w) && window_start(y, r) <= j < window_end(
            y,
            r,
            h,
        ) implies prod[#[trigger] at(i, j, w)] == other_prod[at(i, j, w)] && square[at(i, j, w)]
        == other_square[at(i, j, w)] by {
        lemma_at_bounds(i, j, w, h);
    }
    lemma_same_mean::<A>(guide, other_guide, w, h, r, x, y);
    lemma_same_mean::<A>(input, other_input, w, h, r, x, y);
    lemma_same_mean::<A>(prod, other_prod, w, h, r, x, y);
    lemma_same_mean::<A>(square, other_square, w, h, r, x, y);
    lemma_at_bounds(x, y, w, h);
    lemma_at_inverse(x, y, w);
}

/// The region that a guided filter asks for suffices: inputs and guides that agree on it have the
/// same output in the requested region.
pub proof fn law_required_region_suffices<A: Arithmetic>(
    region: Rect,
    guide: Seq<u64>,
    input: Seq<u64>,
    other_guide: Seq<u64>,
    other_input: Seq<u64>,
    extent: Extent,
    request: GuidedRequest,
    x: int,
    y: int,
)
    requires
        unrounded::<A>(),
        guide.len() == extent.area(),
        input.len() == extent.area(),
        other_guide.len() == extent.area(),
        other_input.len() == extent.area(),
        numbers_plain::<A>(guide),
        numbers_plain::<A>(input),
        numbers_plain::<A>(other_guide),
        numbers_plain::<A>(other_input),
        plain::<A>(request.epsilon),
        counts::<A>(extent.area()),
        region.covers(x, y),
        0 <= x < extent.width,
        0 <= y < extent.height,
        forall|i: int, j: int|
            footprint(region, request.radius, extent).covers(i, j) ==> guide[#[trigger] at(
                i,
                j,
                extent.width as int,
            )] == other_guide[at(i, j, extent.width as int)] && input[at(i, j, extent.width as int)]
                == other_input[at(i, j, extent.width as int)],
    ensures
        guided_plane::<A>(guide, input, extent.width as int, extent.height as int, request)[at(
            x,
            y,
            extent.width as int,
        )] == guided_plane::<A>(
            other_guide,
            other_input,
            extent.width as int,
            extent.height as int,
            request,
        )[at(x, y, extent.width as int)],
{
    let w = extent.width as int;
    let h = extent.height as int;
    let r = request.radius as int;
    let a = slopes::<A>(guide, input, w, h, request);
    let b = intercepts::<A>(guide, input, w, h, request);
    let other_a = slopes::<A>(other_guide, other_input, w, h, request);
    let other_b = intercepts::<A>(other_guide, other_input, w, h, request);
    lemma_fits_plain::<A>(guide, input, w, h, request);
    lemma_fits_plain::<A>(other_guide, other_input, w, h, request);
    assert forall|i: int, j: int|
        window_start(x, r) <= i < window_end(x, r, w) && window_start(y, r) <= j < window_end(
            y,
            r,
            h,
        ) implies a[#[trigger] at(i, j, w)] == other_a[at(i, j, w)] && b[at(i, j, w)] == other_b[at(
        i,
        j,
        w,
    )] by {
        assert forall|u: int, v: int|
            window_start(i, r) <= u < window_end(i, r, w) && window_start(j, r) <= v < window_end(
                j,
                r,
                h,
            ) implies guide[#[trigger] at(u, v, w)] == other_guide[at(u, v, w)] && input[at(u, v, w)]
            == other_input[at(u, v, w)] by {
            assert(footprint(region, request.radius, extent).covers(u, v));
        }
        lemma_same_fit::<A>(guide, input, other_guide, other_input, w, h, request, i, j);
    }
    lemma_same_mean::<A>(a, other_a, w, h, r, x, y);
    lemma_same_mean::<A>(b, other_b, w, h, r, x, y);
    lemma_at_bounds(x, y, w, h);
    lemma_at_inverse(x, y, w);
    assert(footprint(region, request.radius, extent).covers(x, y));
    assert(guide[at(x, y, w)] == other_guide[at(x, y, w)]);
}

} // verus!
