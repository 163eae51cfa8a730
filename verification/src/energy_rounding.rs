//! What the measures of bands and channels are, up to rounding: an energy is a sum of squares, a relative
//! change a distance divided by what was before, and a channel's mean its sum divided by its count.
use crate::arithmetic::{minus_of, over_of, plus_of, tally_of, times_of, widen_of, Arithmetic};
use crate::binary::{absolute, finite, sample_finite};
use crate::diff_rounding::{lemma_steps_product, ExactTotals};
use crate::frequency_energy::{energy_of, halved_sum, squares_of, straight_sum};
use crate::frequency_preserved::delta_of;
use crate::report::stats_of;
use crate::rounding::{
    counts_read, lemma_count_reads, lemma_fused_rounds, lemma_minus_rounds, lemma_over_rounds,
    lemma_plus_rounds, lemma_product_order, lemma_product_units, lemma_size_product, lemma_times_rounds,
    lemma_widen_reads, lemma_zero_reads, obeys, product, quotients_round, size, sum, Reading,
};
use crate::rounding_laws::steps;
use crate::smoothing_rounding::lemma_sum_same;
use vstd::prelude::*;

verus! {

/// What numbers stand for.
pub open spec fn worths(r: Reading, values: Seq<u64>) -> spec_fn(int) -> real {
    |i: int| (r.wide)(values[i])
}

/// How large the numbers are.
pub open spec fn sizes(r: Reading, values: Seq<u64>) -> spec_fn(int) -> real {
    |i: int| size((r.wide)(values[i]))
}

/// The squares of what samples stand for.
pub open spec fn squares(r: Reading, plane: Seq<u32>) -> spec_fn(int) -> real {
    |i: int| product((r.small)(plane[i]), (r.small)(plane[i]))
}

/// The sum of a whole is the sum of a first part and of the rest.
proof fn lemma_sum_parts(f: spec_fn(int) -> real, g: spec_fn(int) -> real, m: nat, n: nat)
    requires
        forall|i: int| 0 <= i < n ==> #[trigger] g(i) == f(m + i),
    ensures
        sum(f, m + n) == sum(f, m) + sum(g, n),
    decreases n,
{
    if n > 0 {
        lemma_sum_parts(f, g, m, (n - 1) as nat);
        assert(g(n - 1) == f(m + (n - 1)));
        assert((m + n - 1) as nat == m + (n - 1) as nat);
    }
}

/// Steps of two counts are the steps of both.
proof fn lemma_steps_sum(r: Reading, m: nat, n: nat)
    requires
        0real <= r.step,
    ensures
        steps(r, m + n) == steps(r, m) + steps(r, n),
        0real <= steps(r, n),
    decreases n,
{
    if n > 0 {
        lemma_steps_sum(r, m, (n - 1) as nat);
        assert((m + n - 1) as nat == m + (n - 1) as nat);
    }
}

/// A sum is no larger than the sum of the sizes, which is not negative.
proof fn lemma_sum_size(r: Reading, values: Seq<u64>, n: nat)
    ensures
        size(sum(worths(r, values), n)) <= sum(sizes(r, values), n),
    decreases n,
{
    if n > 0 {
        lemma_sum_size(r, values, (n - 1) as nat);
    }
}

/// Numbers added up in order give their sum, up to a step for each.
proof fn lemma_straight_near<A: Arithmetic>(r: Reading, values: Seq<u64>, n: nat)
    requires
        obeys::<A>(r),
        n <= values.len(),
        forall|i: int| 0 <= i < values.len() ==> finite(#[trigger] values[i]),
        sum(sizes(r, values), n) + steps(r, n) <= r.top,
    ensures
        finite(straight_sum::<A>(values, n)),
        size((r.wide)(straight_sum::<A>(values, n)) - sum(worths(r, values), n)) <= steps(r, n),
    decreases n,
{
    lemma_zero_reads::<A>(r);
    if n > 0 {
        let m = (n - 1) as nat;
        lemma_straight_near::<A>(r, values, m);
        lemma_sum_size(r, values, m);
        assert(finite(values[n - 1]));
        lemma_plus_rounds::<A>(r, straight_sum::<A>(values, m), values[n - 1]);
    }
}

/// Numbers added up in halves give their sum, up to two steps for each, less one.
proof fn lemma_halved_near<A: Arithmetic>(r: Reading, values: Seq<u64>)
    requires
        obeys::<A>(r),
        forall|i: int| 0 <= i < values.len() ==> finite(#[trigger] values[i]),
        sum(sizes(r, values), values.len()) + steps(r, 2 * values.len()) <= r.top,
    ensures
        finite(halved_sum::<A>(values)),
        values.len() > 0 ==> size((r.wide)(halved_sum::<A>(values)) - sum(worths(r, values), values.len())) <= steps(
            r,
            (2 * values.len() - 1) as nat,
        ),
        values.len() == 0 ==> (r.wide)(halved_sum::<A>(values)) == 0real,
    decreases values.len(),
{
    let n = values.len();
    lemma_zero_reads::<A>(r);
    if n <= 8 {
        lemma_steps_sum(r, n, n);
        lemma_straight_near::<A>(r, values, n);
        if n > 0 {
            lemma_steps_sum(r, n, (n - 1) as nat);
        }
    } else {
        let mid = n as int / 2;
        let left = values.take(mid);
        let right = values.skip(mid);
        let a = left.len();
        let b = right.len();
        assert(a + b == n && a > 0 && b > 0);
        lemma_steps_sum(r, 2 * a, 2 * b);
        lemma_steps_sum(r, 0, 2 * a);
        assert(2 * a + 2 * b == 2 * n);
        lemma_sum_same(sizes(r, left), sizes(r, values), a);
        lemma_sum_same(worths(r, left), worths(r, values), a);
        lemma_sum_parts(sizes(r, values), sizes(r, right), a, b);
        lemma_sum_parts(worths(r, values), worths(r, right), a, b);
        lemma_sum_size(r, left, a);
        lemma_sum_size(r, right, b);
        lemma_halved_near::<A>(r, left);
        lemma_halved_near::<A>(r, right);
        let p = (2 * a - 1) as nat;
        let q = (2 * b - 1) as nat;
        lemma_steps_sum(r, p, q);
        assert(steps(r, (p + q + 1) as nat) == steps(r, p + q) + r.step);
        assert((p + q + 1) as nat == (2 * n - 1) as nat);
        assert(steps(r, (2 * n) as nat) == steps(r, (2 * n - 1) as nat) + r.step);
        lemma_plus_rounds::<A>(r, halved_sum::<A>(left), halved_sum::<A>(right));
    }
}

/// The squares of samples are near, and their sizes add up to the exact squares with a step for each.
proof fn lemma_squares_near<A: Arithmetic>(r: Reading, plane: Seq<u32>, n: nat)
    requires
        obeys::<A>(r),
        n <= plane.len(),
        forall|i: int| 0 <= i < plane.len() ==> sample_finite(#[trigger] plane[i]),
        sum(squares(r, plane), n) <= r.top,
    ensures
        forall|i: int| 0 <= i < n ==> finite(#[trigger] squares_of::<A>(plane)[i]),
        size(sum(worths(r, squares_of::<A>(plane)), n) - sum(squares(r, plane), n)) <= steps(r, n),
        sum(sizes(r, squares_of::<A>(plane)), n) <= sum(squares(r, plane), n) + steps(r, n),
        0real <= sum(squares(r, plane), n),
    decreases n,
{
    if n > 0 {
        let m = (n - 1) as nat;
        let s = plane[n - 1];
        let v = (r.small)(s);
        assert(sample_finite(s));
        lemma_square_sign(v);
        lemma_squares_grow(r, plane, m);
        lemma_squares_near::<A>(r, plane, m);
        lemma_widen_reads::<A>(r, s);
        lemma_times_rounds::<A>(r, widen_of::<A>(s), widen_of::<A>(s));
        assert(squares_of::<A>(plane)[n - 1] == times_of::<A>(widen_of::<A>(s), widen_of::<A>(s)));
    }
}

/// A square is not negative.
proof fn lemma_square_sign(v: real)
    ensures
        0real <= product(v, v),
{
    lemma_size_product(v, v);
    if v < 0real {
        lemma_size_product(-v, -v);
        lemma_product_units(v, -v);
        lemma_product_units(v, v);
    }
}

/// Sums of squares are not negative.
proof fn lemma_squares_grow(r: Reading, plane: Seq<u32>, n: nat)
    ensures
        0real <= sum(squares(r, plane), n),
    decreases n,
{
    if n > 0 {
        lemma_squares_grow(r, plane, (n - 1) as nat);
        lemma_square_sign((r.small)(plane[n - 1]));
    }
}

/// The energy of a band is, up to three steps for each of its samples, the sum of the squares of the
/// samples.
pub proof fn law_energy_is_nearly_the_sum_of_squares<A: Arithmetic>(r: Reading, plane: Seq<u32>)
    requires
        obeys::<A>(r),
        forall|i: int| 0 <= i < plane.len() ==> sample_finite(#[trigger] plane[i]),
        sum(squares(r, plane), plane.len()) + steps(r, 3 * plane.len()) <= r.top,
    ensures
        finite(energy_of::<A>(plane)),
        size((r.wide)(energy_of::<A>(plane)) - sum(squares(r, plane), plane.len())) <= steps(r, 3 * plane.len()),
{
    let n = plane.len();
    let values = squares_of::<A>(plane);
    lemma_steps_sum(r, 0, 3 * n);
    lemma_squares_near::<A>(r, plane, n);
    lemma_steps_sum(r, n, 2 * n);
    assert(n + 2 * n == 3 * n);
    assert(values.len() == n);
    lemma_halved_near::<A>(r, values);
    if n > 0 {
        assert(steps(r, 2 * n) == steps(r, (2 * n - 1) as nat) + r.step);
    }
}

/// Numbers without their sign are read as their sizes.
#[verifier::opaque]
pub open spec fn sizes_read(r: Reading) -> bool {
    forall|a: u64| finite(a) ==> finite(#[trigger] absolute(a)) && (r.wide)(absolute(a)) == size((r.wide)(a))
}

/// The relative change of an energy times a divisor is, up to rounding, the distance of the energy after
/// from the one before; the divisor is, up to a step, the energy before with a billionth more.
pub proof fn law_change_is_nearly_relative<A: Arithmetic>(r: Reading, before: u64, after: u64) -> (divisor: real)
    requires
        obeys::<A>(r),
        quotients_round::<A>(r),
        sizes_read(r),
        finite(before),
        finite(after),
        finite(0x3e11_2e0b_e826_d695u64),
        r.step + r.step < (r.wide)(0x3e11_2e0b_e826_d695u64) + (r.wide)(before),
        0real <= (r.wide)(before),
        0real <= (r.wide)(after),
        (r.wide)(before) + (r.wide)(0x3e11_2e0b_e826_d695u64) <= r.top,
        size((r.wide)(after) - (r.wide)(before)) <= r.top,
        size((r.wide)(after) - (r.wide)(before)) + r.step <= product(
            r.top,
            (r.wide)(before) + (r.wide)(0x3e11_2e0b_e826_d695u64) - r.step,
        ),
        0real <= r.top,
    ensures
        0real < divisor,
        size(divisor - ((r.wide)(before) + (r.wide)(0x3e11_2e0b_e826_d695u64))) <= r.step,
        finite(delta_of::<A>(before, after)),
        size(
            product((r.wide)(delta_of::<A>(before, after)), divisor) - size((r.wide)(after) - (r.wide)(before)),
        ) <= product(r.step, divisor) + r.step,
{
    reveal(sizes_read);
    let little = 0x3e11_2e0b_e826_d695u64;
    let d = minus_of::<A>(after, before);
    let whole = plus_of::<A>(before, little);
    lemma_minus_rounds::<A>(r, after, before);
    lemma_plus_rounds::<A>(r, before, little);
    assert(finite(absolute(d)));
    let divisor = (r.wide)(whole);
    lemma_product_order(r.top, (r.wide)(before) + (r.wide)(little) - r.step, divisor);
    lemma_over_rounds::<A>(r, absolute(d), whole);
    divisor
}

/// What the finite samples of a channel among the first `n` add up to, exactly.
pub open spec fn channel_totals(r: Reading, samples: Seq<u32>, channels: int, c: int, n: nat) -> ExactTotals
    decreases n,
{
    if n == 0 {
        ExactTotals { sum: 0real, sum_sq: 0real, count: 0 }
    } else {
        let before = channel_totals(r, samples, channels, c, (n - 1) as nat);
        if (n - 1) % channels == c && sample_finite(samples[n - 1]) {
            let v = (r.small)(samples[n - 1]);
            ExactTotals {
                sum: before.sum + v,
                sum_sq: before.sum_sq + product(v, v),
                count: before.count + 1,
            }
        } else {
            before
        }
    }
}

/// How large the finite samples of a channel among the first `n` are together.
pub open spec fn channel_size(r: Reading, samples: Seq<u32>, channels: int, c: int, n: nat) -> real
    decreases n,
{
    if n == 0 {
        0real
    } else {
        let before = channel_size(r, samples, channels, c, (n - 1) as nat);
        if (n - 1) % channels == c && sample_finite(samples[n - 1]) {
            before + size((r.small)(samples[n - 1]))
        } else {
            before
        }
    }
}

/// The totals of a channel are near the exact ones.
proof fn lemma_channel_near<A: Arithmetic>(r: Reading, samples: Seq<u32>, channels: int, c: int, n: nat)
    requires
        obeys::<A>(r),
        n <= samples.len(),
        n <= u64::MAX,
        channel_size(r, samples, channels, c, n) + steps(r, channel_totals(r, samples, channels, c, n).count) <= r.top,
        channel_totals(r, samples, channels, c, n).sum_sq + steps(
            r,
            channel_totals(r, samples, channels, c, n).count,
        ) <= r.top,
    ensures
        ({
            let s = stats_of::<A>(samples, channels, c, n);
            let e = channel_totals(r, samples, channels, c, n);
            &&& s.finite == e.count
            &&& e.count <= n
            &&& finite(s.sum) && size((r.wide)(s.sum) - e.sum) <= steps(r, e.count)
            &&& finite(s.sum_sq) && size((r.wide)(s.sum_sq) - e.sum_sq) <= steps(r, e.count)
            &&& size(e.sum) <= channel_size(r, samples, channels, c, n)
            &&& 0real <= e.sum_sq
            &&& 0real <= steps(r, e.count)
        }),
    decreases n,
{
    lemma_zero_reads::<A>(r);
    if n > 0 {
        let m = (n - 1) as nat;
        let s = samples[n - 1];
        let e = channel_totals(r, samples, channels, c, m);
        let v = (r.small)(s);
        lemma_square_sign(v);
        if (n - 1) % channels == c && sample_finite(s) {
            assert(steps(r, e.count + 1) == steps(r, e.count) + r.step);
            lemma_channel_near::<A>(r, samples, channels, c, m);
            let t = stats_of::<A>(samples, channels, c, m);
            let wide = widen_of::<A>(s);
            lemma_widen_reads::<A>(r, s);
            lemma_plus_rounds::<A>(r, t.sum, wide);
            lemma_fused_rounds::<A>(r, wide, wide, t.sum_sq);
        } else {
            lemma_channel_near::<A>(r, samples, channels, c, m);
        }
    }
}

/// What is counted, summed and squared of a channel is, up to a step for each, what its finite samples
/// are, and its mean times their number is their sum.
pub proof fn law_channel_measures_are_near<A: Arithmetic>(
    r: Reading,
    samples: Seq<u32>,
    channels: int,
    c: int,
)
    requires
        obeys::<A>(r),
        quotients_round::<A>(r),
        counts_read::<A>(r, samples.len() as int),
        samples.len() <= u64::MAX,
        channel_size(r, samples, channels, c, samples.len()) + steps(
            r,
            channel_totals(r, samples, channels, c, samples.len()).count,
        ) <= r.top,
        channel_totals(r, samples, channels, c, samples.len()).sum_sq + steps(
            r,
            channel_totals(r, samples, channels, c, samples.len()).count,
        ) <= r.top,
    ensures
        ({
            let s = stats_of::<A>(samples, channels, c, samples.len());
            let e = channel_totals(r, samples, channels, c, samples.len());
            &&& s.finite == e.count
            &&& size((r.wide)(s.sum) - e.sum) <= steps(r, e.count)
            &&& size((r.wide)(s.sum_sq) - e.sum_sq) <= steps(r, e.count)
            &&& s.mean_of::<A>() is None <==> e.count == 0
            &&& s.mean_of::<A>() matches Some(mean) ==> finite(mean) && size(
                product((r.wide)(mean), e.count as real) - e.sum,
            ) <= 2real * steps(r, e.count)
        }),
{
    let n = samples.len();
    let s = stats_of::<A>(samples, channels, c, n);
    let e = channel_totals(r, samples, channels, c, n);
    lemma_channel_near::<A>(r, samples, channels, c, n);
    if e.count > 0 {
        let k = e.count as real;
        let denom = tally_of::<A>(s.finite);
        lemma_count_reads::<A>(r, n as int, s.finite as int);
        lemma_steps_product(r, e.count);
        assert(1real <= k);
        lemma_product_order(r.top, 1real, k);
        lemma_product_units(r.top, 1real);
        lemma_product_units(r.step, k);
        lemma_over_rounds::<A>(r, s.sum, denom);
        assert(s.mean_of::<A>() == Some(over_of::<A>(s.sum, denom)));
    }
}

} // verus!
