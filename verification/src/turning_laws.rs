//! Turning a plane by a quarter and filtering it with a kernel that a quarter turn leaves as it is can
//! be done in either order, in an arithmetic that does not round.
use crate::arithmetic::{times_of, Arithmetic};
use crate::convolve::{
    filtered_sample, law_source_index_is_in_range, mirror_of, read_of, source_of, tap_read,
    BoundaryMode, KernelView, RequestView,
};
use crate::exact::{
    all_plain, lemma_total_reversed, lemma_total_rows, lemma_total_same, lemma_totals_exchange,
    plain, total, unrounded,
};
use crate::gaussian_blur::{
    kernel_fits, kernel_of, law_kernel_is_isotropic, radius_of, request_for,
};
use crate::ir::Extent;
use crate::lattice::{at, lemma_at_bounds, lemma_at_inverse, lemma_at_of, sample_at};
use crate::smoothing_laws::{
    law_blur_weights_add_up_to_one, lemma_sum_is_weighted, lemma_weighted_total, numbers_plain,
    taps_plain,
};
use vstd::arithmetic::div_mod::{
    lemma_fundamental_div_mod, lemma_fundamental_div_mod_converse, lemma_mod_bound,
};
use vstd::prelude::*;

verus! {

/// Every boundary mode treats both ends of an axis alike.
pub proof fn law_reflected_index(c: int, n: int, mode: BoundaryMode)
    requires
        n >= 1,
    ensures
        source_of(n - 1 - c, n, mode) == (match source_of(c, n, mode) {
            Some(i) => Some(n - 1 - i),
            None => None::<int>,
        }),
{
    if !(0 <= c < n) {
        match mode {
            BoundaryMode::Wrap => {
                let m = c % n;
                lemma_mod_bound(c, n);
                lemma_fundamental_div_mod(c, n);
                let q = c / n;
                assert(n - 1 - c == (-q) * n + (n - 1 - m)) by (nonlinear_arith)
                    requires
                        c == n * q + m,
                ;
                lemma_fundamental_div_mod_converse(n - 1 - c, n, -q, n - 1 - m);
            },
            BoundaryMode::Mirror => {
                lemma_reflected_mirror(c, n);
            },
            _ => {},
        }
    }
}

/// Mirroring treats both ends of an axis alike.
proof fn lemma_reflected_mirror(c: int, n: int)
    requires
        n >= 1,
    ensures
        mirror_of(n - 1 - c, n) == n - 1 - mirror_of(c, n),
{
    if n > 1 {
        let period = 2 * (n - 1);
        let m = c % period;
        lemma_mod_bound(c, period);
        lemma_fundamental_div_mod(c, period);
        let q = c / period;
        if m < n {
            assert(n - 1 - c == (-q) * period + (n - 1 - m)) by (nonlinear_arith)
                requires
                    c == period * q + m,
            ;
            lemma_fundamental_div_mod_converse(n - 1 - c, period, -q, n - 1 - m);
        } else {
            assert(n - 1 - c == (-q - 1) * period + (n - 1 - m + period)) by (nonlinear_arith)
                requires
                    c == period * q + m,
            ;
            lemma_fundamental_div_mod_converse(n - 1 - c, period, -q - 1, n - 1 - m + period);
        }
    }
}

/// A square kernel of odd side about its middle that a quarter turn leaves as it is.
pub open spec fn turns(kernel: KernelView) -> bool {
    let side = kernel.width as int;
    &&& kernel.well_formed()
    &&& kernel.height == kernel.width
    &&& side == 2 * kernel.origin_x + 1
    &&& kernel.origin_y == kernel.origin_x
    &&& forall|kx: int, ky: int|
        0 <= kx < side && 0 <= ky < side ==> #[trigger] kernel.weights[at(kx, ky, side)]
            == kernel.weights[at(side - 1 - ky, kx, side)]
}

/// A plane turned by a quarter: the sample at column `x` and row `y` goes to column `h - 1 - y` and
/// row `x`.
pub open spec fn is_turned(p: Seq<u32>, t: Seq<u32>, src: Extent, channels: int, ch: int) -> bool {
    forall|x: int, y: int|
        0 <= x < src.width && 0 <= y < src.height ==> t[#[trigger] sample_at(
            src.height - 1 - y,
            x,
            ch,
            src.height as int,
            channels,
        )] == p[sample_at(x, y, ch, src.width as int, channels)]
}

/// The size of a plane after a quarter turn.
pub open spec fn turned_extent(src: Extent) -> Extent {
    Extent { width: src.height, height: src.width }
}

/// A tap of the turned plane reads what the tap that it came from reads.
pub proof fn lemma_turned_read<A: Arithmetic>(
    p: Seq<u32>,
    t: Seq<u32>,
    src: Extent,
    channels: int,
    request: RequestView,
    ch: int,
    sx: int,
    sy: int,
)
    requires
        src.width >= 1,
        src.height >= 1,
        is_turned(p, t, src, channels, ch),
    ensures
        read_of::<A>(t, turned_extent(src), channels, request, ch, src.height - 1 - sy, sx) == read_of::<A>(
            p,
            src,
            channels,
            request,
            ch,
            sx,
            sy,
        ),
{
    law_reflected_index(sy, src.height as int, request.mode);
    law_source_index_is_in_range(sx, src.width as int, request.mode);
    law_source_index_is_in_range(sy, src.height as int, request.mode);
    match (
        source_of(sx, src.width as int, request.mode),
        source_of(sy, src.height as int, request.mode),
    ) {
        (Some(x), Some(y)) => {
            assert(t[sample_at(src.height - 1 - y, x, ch, src.height as int, channels)] == p[sample_at(
                x,
                y,
                ch,
                src.width as int,
                channels,
            )]);
        },
        _ => {},
    }
}

/// Every tap of a correlation at a pixel reads a plain number.
pub open spec fn reads_plain<A: Arithmetic>(
    p: Seq<u32>,
    src: Extent,
    channels: int,
    request: RequestView,
    ch: int,
    x: int,
    y: int,
) -> bool {
    forall|t: int|
        0 <= t < request.kernel.weights.len() ==> plain::<A>(
            #[trigger] tap_read::<A>(p, src, channels, request, ch, x, y, t),
        )
}

/// A correlation with a kernel that a quarter turn leaves as it is follows a quarter turn of its input.
pub proof fn law_turned_correlation<A: Arithmetic>(
    p: Seq<u32>,
    t: Seq<u32>,
    src: Extent,
    channels: int,
    request: RequestView,
    ch: int,
    x: int,
    y: int,
)
    requires
        unrounded::<A>(),
        src.width >= 1,
        src.height >= 1,
        turns(request.kernel),
        request.mode != BoundaryMode::Valid,
        numbers_plain::<A>(request.kernel.weights),
        reads_plain::<A>(p, src, channels, request, ch, x, y),
        is_turned(p, t, src, channels, ch),
    ensures
        filtered_sample::<A>(t, turned_extent(src), channels, request, src.height - 1 - y, x, ch)
            == filtered_sample::<A>(p, src, channels, request, x, y, ch),
{
    let k = request.kernel;
    let side = k.width as int;
    let n = side as nat;
    let to = turned_extent(src);
    let tx = src.height - 1 - y;
    let rp = |i: int| tap_read::<A>(p, src, channels, request, ch, x, y, i);
    let rt = |i: int| tap_read::<A>(t, to, channels, request, ch, tx, x, i);
    let fp = |i: int| times_of::<A>(k.weights[i], rp(i));
    let ft = |i: int| times_of::<A>(k.weights[i], rt(i));
    assert(n * n == k.weights.len());
    assert forall|kx: int, ky: int| 0 <= kx < side && 0 <= ky < side implies #[trigger] rt(
        at(side - 1 - ky, kx, side),
    ) == rp(at(kx, ky, side)) by {
        lemma_at_inverse(side - 1 - ky, kx, side);
        lemma_at_inverse(kx, ky, side);
        lemma_turned_read::<A>(
            p,
            t,
            src,
            channels,
            request,
            ch,
            x + kx - k.origin_x,
            y + ky - k.origin_y,
        );
    }
    let grid = |kx: int, ky: int| fp(at(kx, ky, side));
    assert forall|i: int| 0 <= i < n * n implies plain::<A>(#[trigger] rp(i)) by {
        assert(plain::<A>(tap_read::<A>(p, src, channels, request, ch, x, y, i)));
    }
    assert forall|i: int| 0 <= i < n * n implies plain::<A>(#[trigger] rt(i)) && ft(i) == grid(
        i / side,
        side - 1 - i % side,
    ) by {
        lemma_at_of(i, side, side);
        let kx = i / side;
        let ky = side - 1 - i % side;
        assert(at(side - 1 - ky, kx, side) == i);
        lemma_at_bounds(kx, ky, side, side);
        assert(rt(at(side - 1 - ky, kx, side)) == rp(at(kx, ky, side)));
        assert(k.weights[at(kx, ky, side)] == k.weights[at(side - 1 - ky, kx, side)]);
        assert(plain::<A>(rp(at(kx, ky, side))));
    }
    lemma_sum_is_weighted::<A>(p, src, channels, request, ch, x, y, n * n);
    lemma_sum_is_weighted::<A>(t, to, channels, request, ch, tx, x, n * n);
    lemma_weighted_total::<A>(k.weights, rp, n * n);
    lemma_weighted_total::<A>(k.weights, rt, n * n);
    lemma_turned_total::<A>(fp, ft, n);
}

/// Two sums over a square grid of which one is the other turned by a quarter are equal.
proof fn lemma_turned_total<A: Arithmetic>(fp: spec_fn(int) -> u64, ft: spec_fn(int) -> u64, n: nat)
    requires
        unrounded::<A>(),
        n >= 1,
        all_plain::<A>(fp, n * n),
        all_plain::<A>(ft, n * n),
        forall|i: int|
            0 <= i < n * n ==> #[trigger] ft(i) == fp(at(i / (n as int), n - 1 - i % (n as int), n as int)),
    ensures
        total::<A>(ft, n * n) == total::<A>(fp, n * n),
{
    let side = n as int;
    let grid = |kx: int, ky: int| fp(at(kx, ky, side));
    assert forall|kx: int, ky: int| 0 <= kx < n && 0 <= ky < n implies plain::<A>(
        #[trigger] grid(kx, ky),
    ) by {
        lemma_at_bounds(kx, ky, side, side);
    }
    lemma_total_rows::<A>(fp, n, n);
    lemma_total_rows::<A>(ft, n, n);
    lemma_totals_exchange::<A>(grid, n, n);
    let rows_p = |ky: int| total::<A>(|kx: int| fp(ky * n + kx), n);
    let columns = |ky: int| total::<A>(|kx: int| grid(kx, ky), n);
    assert forall|ky: int| 0 <= ky < n implies #[trigger] rows_p(ky) == columns(ky) by {
        lemma_total_same::<A>(|kx: int| fp(ky * n + kx), |kx: int| grid(kx, ky), n);
    }
    lemma_total_same::<A>(rows_p, columns, n);
    let rows_t = |j: int| total::<A>(|i: int| ft(j * n + i), n);
    let turned = |kx: int| total::<A>(|ky: int| grid(kx, ky), n);
    assert forall|j: int| 0 <= j < n implies #[trigger] rows_t(j) == turned(j) by {
        let across = |ky: int| grid(j, ky);
        assert forall|ky: int| 0 <= ky < n implies plain::<A>(#[trigger] across(ky)) by {}
        lemma_total_reversed::<A>(across, n);
        let back = |i: int| across(n - 1 - i);
        assert forall|i: int| 0 <= i < n implies #[trigger] back(i) == ft(j * n + i) by {
            lemma_at_bounds(i, j, side, side);
            lemma_at_inverse(i, j, side);
        }
        lemma_total_same::<A>(back, |i: int| ft(j * n + i), n);
    }
    lemma_total_same::<A>(rows_t, turned, n);
}

/// A Gaussian blur follows a quarter turn of its input.
pub proof fn law_blur_is_isotropic<A: Arithmetic>(
    p: Seq<u32>,
    t: Seq<u32>,
    src: Extent,
    channels: u32,
    sigma: u64,
    mode: BoundaryMode,
    ch: int,
    x: int,
    y: int,
)
    requires
        unrounded::<A>(),
        kernel_fits::<A>(sigma),
        taps_plain::<A>(sigma),
        src.width >= 1,
        src.height >= 1,
        mode != BoundaryMode::Valid,
        reads_plain::<A>(p, src, channels as int, request_for::<A>(sigma, mode, channels), ch, x, y),
        is_turned(p, t, src, channels as int, ch),
    ensures
        filtered_sample::<A>(
            t,
            turned_extent(src),
            channels as int,
            request_for::<A>(sigma, mode, channels),
            src.height - 1 - y,
            x,
            ch,
        ) == filtered_sample::<A>(
            p,
            src,
            channels as int,
            request_for::<A>(sigma, mode, channels),
            x,
            y,
            ch,
        ),
{
    let request = request_for::<A>(sigma, mode, channels);
    let kernel = kernel_of::<A>(sigma);
    let r = radius_of::<A>(sigma);
    let side = 2 * r + 1;
    assert(1 <= side * side && (r == 0 ==> side * side == 1)) by (nonlinear_arith)
        requires
            side >= 1,
            side == 2 * r + 1,
    ;
    assert forall|kx: int, ky: int|
        0 <= kx < side && 0 <= ky < side implies #[trigger] kernel.weights[at(kx, ky, side)]
        == kernel.weights[at(side - 1 - ky, kx, side)] by {
        law_kernel_is_isotropic::<A>(sigma, kx - r, ky - r);
    }
    law_blur_weights_add_up_to_one::<A>(sigma);
    law_turned_correlation::<A>(p, t, src, channels as int, request, ch, x, y);
}

} // verus!
