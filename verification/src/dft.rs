//! Discrete Fourier transforms of planes: the forward transform without a factor, the inverse with
//! the factor of one over the number of pixels, and the zero frequency at the origin.
//!
//! Rows are transformed first and columns after them. A line whose length is a power of two is
//! transformed by halving, any other by its defining sum.
use crate::arithmetic::{
    cosine, cosine_of, fused, fused_of, hypotenuse, hypotenuse_of, lawful, minus, minus_of, narrow,
    narrow_of, over, over_of, plus, plus_of, sine, sine_of, tally, tally_of, times, times_of, whole,
    whole_of, widen, widen_of, Arithmetic,
};
use crate::binary::{negate, negated, ONE, TWO, ZERO};
use crate::lattice::{at, lemma_at_bounds, lemma_at_inverse, lemma_at_of, position};
use vstd::prelude::*;

verus! {

/// The circle constant by its binary64 pattern.
pub const PI: u64 = 0x4009_21fb_5444_2d18;

/// The exponent's sign in the forward transform, minus one by its binary64 pattern.
pub const FORWARD: u64 = 0xbff0_0000_0000_0000;

/// The exponent's sign in the inverse transform, one by its binary64 pattern.
pub const INVERSE: u64 = 0x3ff0_0000_0000_0000;

/// A complex number, its parts by their binary64 patterns.
#[derive(Debug, Clone, Copy, PartialEq, Eq, Structural)]
pub struct Complex {
    pub re: u64,
    pub im: u64,
}

impl Default for Complex {
    /// Zero.
    fn default() -> (r: Self)
        ensures
            r == (Complex { re: ZERO, im: ZERO }),
    {
        Complex { re: ZERO, im: ZERO }
    }
}

impl Complex {
    /// The number with these parts.
    #[verifier::allow_in_spec]
    pub fn new(re: u64, im: u64) -> Self
        returns
            (Complex { re, im }),
    {
        Complex { re, im }
    }

    /// The sum with another number.
    pub open spec fn added<A: Arithmetic>(self, other: Complex) -> Complex {
        Complex { re: plus_of::<A>(self.re, other.re), im: plus_of::<A>(self.im, other.im) }
    }

    /// The difference from another number.
    pub open spec fn subtracted<A: Arithmetic>(self, other: Complex) -> Complex {
        Complex { re: minus_of::<A>(self.re, other.re), im: minus_of::<A>(self.im, other.im) }
    }

    /// The product with another number.
    pub open spec fn multiplied<A: Arithmetic>(self, other: Complex) -> Complex {
        Complex {
            re: fused_of::<A>(self.re, other.re, negated(times_of::<A>(self.im, other.im))),
            im: fused_of::<A>(self.re, other.im, times_of::<A>(self.im, other.re)),
        }
    }

    /// The squared magnitude.
    pub open spec fn norm_sq_of<A: Arithmetic>(self) -> u64 {
        fused_of::<A>(self.re, self.re, times_of::<A>(self.im, self.im))
    }

    /// Add another number.
    pub fn add<A: Arithmetic>(self, other: Complex) -> (r: Complex)
        requires
            lawful::<A>(),
        ensures
            r == self.added::<A>(other),
    {
        Complex { re: plus::<A>(self.re, other.re), im: plus::<A>(self.im, other.im) }
    }

    /// Subtract another number.
    pub fn sub<A: Arithmetic>(self, other: Complex) -> (r: Complex)
        requires
            lawful::<A>(),
        ensures
            r == self.subtracted::<A>(other),
    {
        Complex { re: minus::<A>(self.re, other.re), im: minus::<A>(self.im, other.im) }
    }

    /// Multiply by another number.
    pub fn mul<A: Arithmetic>(self, other: Complex) -> (r: Complex)
        requires
            lawful::<A>(),
        ensures
            r == self.multiplied::<A>(other),
    {
        Complex {
            re: fused::<A>(self.re, other.re, negate(times::<A>(self.im, other.im))),
            im: fused::<A>(self.re, other.im, times::<A>(self.im, other.re)),
        }
    }

    /// Compute the squared magnitude.
    pub fn norm_sq<A: Arithmetic>(self) -> (r: u64)
        requires
            lawful::<A>(),
        ensures
            r == self.norm_sq_of::<A>(),
    {
        fused::<A>(self.re, self.re, times::<A>(self.im, self.im))
    }
}

/// The complex zero.
#[verifier::allow_in_spec]
pub fn zero() -> Complex
    returns
        (Complex { re: ZERO, im: ZERO }),
{
    Complex { re: ZERO, im: ZERO }
}

/// The complex one.
#[verifier::allow_in_spec]
pub fn one() -> Complex
    returns
        (Complex { re: ONE, im: ZERO }),
{
    Complex { re: ONE, im: ZERO }
}

/// The number of magnitude one at an angle.
pub open spec fn turned<A: Arithmetic>(angle: u64) -> Complex {
    Complex { re: cosine_of::<A>(angle), im: sine_of::<A>(angle) }
}

/// Compute the number of magnitude one at an angle.
fn turn<A: Arithmetic>(angle: u64) -> (r: Complex)
    requires
        lawful::<A>(),
    ensures
        r == turned::<A>(angle),
{
    Complex { re: cosine::<A>(angle), im: sine::<A>(angle) }
}

/// `dir` times a full turn.
pub open spec fn full_turn<A: Arithmetic>(dir: u64) -> u64 {
    times_of::<A>(times_of::<A>(dir, TWO), PI)
}

/// The root of unity that steps through a block of `len`.
pub open spec fn stage_root<A: Arithmetic>(dir: u64, len: int) -> Complex {
    turned::<A>(over_of::<A>(full_turn::<A>(dir), tally_of::<A>(len as u64)))
}

/// The power `k` of a root, by repeated multiplication.
pub open spec fn power_of<A: Arithmetic>(root: Complex, k: nat) -> Complex
    decreases k,
{
    if k == 0 {
        one()
    } else {
        power_of::<A>(root, (k - 1) as nat).multiplied::<A>(root)
    }
}

/// Two to the power `m`.
pub open spec fn two_to(m: nat) -> nat
    decreases m,
{
    if m == 0 {
        1
    } else {
        2 * two_to((m - 1) as nat)
    }
}

/// The transform of the `len` numbers of `x` from `offset` on in steps of `stride`, by halving: those
/// at even and at odd places are transformed apart and combined.
pub open spec fn halved<A: Arithmetic>(
    x: Seq<Complex>,
    offset: int,
    stride: int,
    len: nat,
    dir: u64,
) -> Seq<Complex>
    decreases len,
{
    if len <= 1 {
        seq![x[offset]]
    } else {
        let half = len / 2;
        let even = halved::<A>(x, offset, 2 * stride, half, dir);
        let odd = halved::<A>(x, offset + stride, 2 * stride, half, dir);
        let root = stage_root::<A>(dir, len as int);
        Seq::new(
            2 * half,
            |k: int|
                if k < half {
                    even[k].added::<A>(odd[k].multiplied::<A>(power_of::<A>(root, k as nat)))
                } else {
                    even[k - half].subtracted::<A>(
                        odd[k - half].multiplied::<A>(power_of::<A>(root, (k - half) as nat)),
                    )
                },
        )
    }
}

/// The factor of number `m` in bin `k` of a transform of length `n`.
pub open spec fn factor_of<A: Arithmetic>(dir: u64, n: int, k: int, m: int) -> Complex {
    turned::<A>(
        over_of::<A>(
            times_of::<A>(full_turn::<A>(dir), tally_of::<A>((k * m) as u64)),
            tally_of::<A>(n as u64),
        ),
    )
}

/// The first `m` terms of bin `k`, added up in order.
pub open spec fn bin_sum<A: Arithmetic>(x: Seq<Complex>, dir: u64, k: int, m: nat) -> Complex
    decreases m,
{
    if m == 0 {
        zero()
    } else {
        bin_sum::<A>(x, dir, k, (m - 1) as nat).added::<A>(
            x[m - 1].multiplied::<A>(factor_of::<A>(dir, x.len() as int, k, m - 1)),
        )
    }
}

/// The transform of a line by its defining sum.
pub open spec fn summed<A: Arithmetic>(x: Seq<Complex>, dir: u64) -> Seq<Complex> {
    Seq::new(x.len(), |k: int| bin_sum::<A>(x, dir, k, x.len()))
}

/// The number is a power of two.
pub open spec fn is_two_power(n: int) -> bool {
    exists|m: nat| two_to(m) == n
}

/// The transform of a line.
pub open spec fn line_of<A: Arithmetic>(x: Seq<Complex>, dir: u64) -> Seq<Complex> {
    if is_two_power(x.len() as int) {
        halved::<A>(x, 0, 1, x.len(), dir)
    } else {
        summed::<A>(x, dir)
    }
}

/// Powers of two are positive.
pub proof fn lemma_two_to_positive(a: nat)
    ensures
        two_to(a) >= 1,
    decreases a,
{
    if a > 0 {
        lemma_two_to_positive((a - 1) as nat);
    }
}

/// Powers of two grow.
pub proof fn lemma_two_to_grows(a: nat, b: nat)
    ensures
        two_to(a) >= 1,
        a < b ==> 2 * two_to(a) <= two_to(b),
        a <= b ==> two_to(a) <= two_to(b),
    decreases b,
{
    lemma_two_to_positive(a);
    if a < b {
        lemma_two_to_grows(a, (b - 1) as nat);
    }
}

/// A line keeps its length.
pub proof fn lemma_line_len<A: Arithmetic>(x: Seq<Complex>, dir: u64)
    ensures
        line_of::<A>(x, dir).len() == x.len(),
{
    if is_two_power(x.len() as int) {
        let m = choose|m: nat| two_to(m) == x.len();
        lemma_halved_len::<A>(x, 0, 1, m, dir);
    }
}

/// A halved transform keeps its length.
pub proof fn lemma_halved_len<A: Arithmetic>(x: Seq<Complex>, offset: int, stride: int, m: nat, dir: u64)
    ensures
        halved::<A>(x, offset, stride, two_to(m), dir).len() == two_to(m),
{
    if m > 0 {
        lemma_two_to_grows((m - 1) as nat, (m - 1) as nat);
    }
}

/// The lowest `m` binary digits of `i` in reverse order.
pub open spec fn reversed(i: int, m: nat) -> int
    decreases m,
{
    if m == 0 {
        0
    } else {
        reversed(i / 2, (m - 1) as nat) + (if i % 2 == 1 {
            two_to((m - 1) as nat) as int
        } else {
            0
        })
    }
}

/// Reversed digits make a number with as many digits.
proof fn lemma_reversed_bounds(i: int, m: nat)
    ensures
        0 <= reversed(i, m) < two_to(m),
    decreases m,
{
    if m > 0 {
        lemma_reversed_bounds(i / 2, (m - 1) as nat);
    }
}

/// Step from the reversed digits of a number to those of the next.
fn next_reversed(from: usize, n: usize, Ghost(i): Ghost<int>, Ghost(m): Ghost<nat>) -> (r: usize)
    requires
        n == two_to(m),
        0 <= i,
        i + 1 < n,
        from == reversed(i, m),
    ensures
        r == reversed(i + 1, m),
{
    let ghost mut t: nat = m;
    let ghost mut q: int = i;
    let mut j: usize = from;
    let mut bit: usize = n / 2;
    proof {
        lemma_reversed_bounds(i, m);
        lemma_reversed_bounds(i + 1, m);
        if m > 0 {
            lemma_two_to_grows((m - 1) as nat, (m - 1) as nat);
            lemma_reversed_bounds(i / 2, (m - 1) as nat);
        }
    }
    while j >= bit
        invariant
            n == two_to(m),
            1 <= t <= m,
            0 <= q,
            q + 1 < two_to(t),
            bit == two_to((t - 1) as nat),
            bit >= 1,
            j == reversed(q, t),
            reversed(q + 1, t) == reversed(i + 1, m),
            0 <= reversed(q / 2, (t - 1) as nat) < bit,
        decreases t,
    {
        assert(t > 1) by {
            assert(two_to(1) == 2) by {
                reveal_with_fuel(two_to, 2);
            }
        }
        j = j - bit;
        bit = bit / 2;
        proof {
            q = q / 2;
            t = (t - 1) as nat;
            lemma_two_to_grows((t - 1) as nat, (t - 1) as nat);
            lemma_reversed_bounds(q / 2, (t - 1) as nat);
        }
    }
    proof {
        lemma_reversed_bounds(i + 1, m);
    }
    j + bit
}

/// Order numbers by the reversed digits of their places.
fn bit_reversed(data: &Vec<Complex>, Ghost(m): Ghost<nat>) -> (out: Vec<Complex>)
    requires
        data@.len() == two_to(m),
    ensures
        out@.len() == data@.len(),
        forall|i: int| 0 <= i < out@.len() ==> #[trigger] out@[i] == data@[reversed(i, m)],
{
    let n: usize = data.len();
    let mut out: Vec<Complex> = Vec::new();
    let mut j: usize = 0;
    let mut i: usize = 0;
    proof {
        lemma_reversed_zero(m);
    }
    while i < n
        invariant
            n == data@.len(),
            n == two_to(m),
            i <= n,
            i < n ==> j == reversed(i as int, m),
            out@.len() == i,
            forall|k: int| 0 <= k < i ==> #[trigger] out@[k] == data@[reversed(k, m)],
        decreases n - i,
    {
        proof {
            lemma_reversed_bounds(i as int, m);
        }
        out.push(data[j]);
        if i + 1 < n {
            j = next_reversed(j, n, Ghost(i as int), Ghost(m));
        }
        i = i + 1;
    }
    out
}

/// Zero is its own reverse.
proof fn lemma_reversed_zero(m: nat)
    ensures
        reversed(0, m) == 0,
    decreases m,
{
    if m > 0 {
        lemma_reversed_zero((m - 1) as nat);
    }
}

/// One stage of the halving transform: neighbouring blocks of `half` numbers are combined.
spec fn stage_of<A: Arithmetic>(data: Seq<Complex>, half: int, dir: u64) -> Seq<Complex> {
    let root = stage_root::<A>(dir, 2 * half);
    Seq::new(
        data.len(),
        |i: int|
            {
                let k = i % (2 * half);
                if k < half {
                    data[i].added::<A>(
                        data[i + half].multiplied::<A>(power_of::<A>(root, k as nat)),
                    )
                } else {
                    data[i - half].subtracted::<A>(
                        data[i].multiplied::<A>(power_of::<A>(root, (k - half) as nat)),
                    )
                }
            },
    )
}

/// Take the powers of a root below `n`.
fn powers<A: Arithmetic>(root: Complex, n: usize) -> (out: Vec<Complex>)
    requires
        lawful::<A>(),
    ensures
        out@.len() == n,
        forall|k: int| 0 <= k < n ==> #[trigger] out@[k] == power_of::<A>(root, k as nat),
{
    let mut out: Vec<Complex> = Vec::new();
    let mut w: Complex = one();
    let mut k: usize = 0;
    while k < n
        invariant
            lawful::<A>(),
            k <= n,
            w == power_of::<A>(root, k as nat),
            out@.len() == k,
            forall|j: int| 0 <= j < k ==> #[trigger] out@[j] == power_of::<A>(root, j as nat),
        decreases n - k,
    {
        out.push(w);
        w = w.mul::<A>(root);
        k = k + 1;
    }
    out
}

/// Combine neighbouring blocks of `half` numbers.
fn stage<A: Arithmetic>(data: &Vec<Complex>, half: usize, dir: u64, Ghost(blocks): Ghost<int>) -> (out: Vec<
    Complex,
>)
    requires
        lawful::<A>(),
        1 <= half,
        2 * half <= usize::MAX,
        0 <= blocks,
        data@.len() == 2 * half * blocks,
    ensures
        out@ == stage_of::<A>(data@, half as int, dir),
{
    let n: usize = data.len();
    let len: usize = 2 * half;
    let theta: u64 = over::<A>(
        times::<A>(times::<A>(dir, TWO), PI),
        tally::<A>(len as u64),
    );
    let root: Complex = turn::<A>(theta);
    let roots: Vec<Complex> = powers::<A>(root, half);
    let ghost all = stage_of::<A>(data@, half as int, dir);
    let mut out: Vec<Complex> = Vec::new();
    let mut i: usize = 0;
    while i < n
        invariant
            lawful::<A>(),
            n == data@.len(),
            n == len * blocks,
            0 <= blocks,
            len == 2 * half,
            1 <= half,
            root == stage_root::<A>(dir, 2 * half),
            roots@.len() == half,
            forall|k: int| 0 <= k < half ==> #[trigger] roots@[k] == power_of::<A>(root, k as nat),
            all == stage_of::<A>(data@, half as int, dir),
            all.len() == n,
            i <= n,
            out@ == all.take(i as int),
        decreases n - i,
    {
        let k: usize = i % len;
        proof {
            lemma_at_of(i as int, len as int, blocks);
            lemma_at_bounds(k as int, i as int / len as int, len as int, blocks);
            assert(i as int % (len as int) <= i) by (nonlinear_arith)
                requires
                    len >= 1,
                    i >= 0,
            ;
        }
        if k < half {
            let u: Complex = data[i];
            let v: Complex = data[i + half].mul::<A>(roots[k]);
            out.push(u.add::<A>(v));
        } else {
            let u: Complex = data[i - half];
            let v: Complex = data[i].mul::<A>(roots[k - half]);
            out.push(u.sub::<A>(v));
        }
        i = i + 1;
    }
    out
}

/// After `s` stages every block of `two_to(s)` numbers is the transform of those of `x` whose places
/// end in the block's reversed digits.
spec fn blocks_done<A: Arithmetic>(data: Seq<Complex>, x: Seq<Complex>, m: nat, s: nat, dir: u64) -> bool {
    forall|b: int, k: int|
        0 <= b < two_to((m - s) as nat) && 0 <= k < two_to(s) ==> data[#[trigger] at(
            k,
            b,
            two_to(s) as int,
        )] == halved::<A>(
            x,
            reversed(b, (m - s) as nat),
            two_to((m - s) as nat) as int,
            two_to(s),
            dir,
        )[k]
}

/// A power of two splits at any digit.
proof fn lemma_two_to_splits(m: nat, s: nat)
    requires
        s <= m,
    ensures
        two_to(s) * two_to((m - s) as nat) == two_to(m),
    decreases s,
{
    if s > 0 {
        lemma_two_to_splits(m, (s - 1) as nat);
        let a = two_to((s - 1) as nat);
        let b = two_to((m - s) as nat);
        assert(two_to((m - s + 1) as nat) == 2 * b);
        assert((2 * a) * b == a * (2 * b)) by (nonlinear_arith);
    } else {
        assert(1 * two_to(m) == two_to(m));
    }
}

/// A stage takes blocks to blocks twice as long.
proof fn lemma_stage<A: Arithmetic>(data: Seq<Complex>, x: Seq<Complex>, m: nat, s: nat, dir: u64)
    requires
        s < m,
        data.len() == two_to(m),
        blocks_done::<A>(data, x, m, s, dir),
    ensures
        blocks_done::<A>(stage_of::<A>(data, two_to(s) as int, dir), x, m, s + 1, dir),
{
    let half = two_to(s) as int;
    let len = two_to(s + 1) as int;
    let done = stage_of::<A>(data, half, dir);
    let t = (m - s - 1) as nat;
    lemma_two_to_grows(s, m);
    lemma_two_to_splits(m, s + 1);
    assert forall|b: int, k: int| 0 <= b < two_to(t) && 0 <= k < len implies done[#[trigger] at(
        k,
        b,
        len,
    )] == halved::<A>(x, reversed(b, t), two_to(t) as int, two_to(s + 1), dir)[k] by {
        lemma_at_inverse(k, b, len);
        lemma_at_bounds(k, b, len, two_to(t) as int);
        let lane = if k < half {
            k
        } else {
            k - half
        };
        assert(at(lane, 2 * b, half) == b * len + lane) by (nonlinear_arith)
            requires
                len == 2 * half,
                at(lane, 2 * b, half) == 2 * b * half + lane,
        ;
        assert(at(lane, 2 * b + 1, half) == b * len + lane + half) by (nonlinear_arith)
            requires
                len == 2 * half,
                at(lane, 2 * b + 1, half) == (2 * b + 1) * half + lane,
        ;
    }
}

/// Transform a line whose length is a power of two, by halving.
pub fn fft_radix2<A: Arithmetic>(data: &mut Vec<Complex>, dir: u64)
    requires
        lawful::<A>(),
        is_two_power(old(data)@.len() as int),
    ensures
        final(data)@ == halved::<A>(old(data)@, 0, 1, old(data)@.len(), dir),
        final(data)@.len() == old(data)@.len(),
{
    let ghost x = data@;
    let ghost m = choose|m: nat| two_to(m) == x.len();
    let n: usize = data.len();
    let mut work: Vec<Complex> = bit_reversed(data, Ghost(m));
    let ghost mut s: nat = 0;
    proof {
        lemma_two_to_grows(m, m);
        assert forall|b: int, k: int| 0 <= b < two_to(m) && 0 <= k < two_to(0) implies work@[#[trigger] at(
            k,
            b,
            two_to(0) as int,
        )] == halved::<A>(x, reversed(b, m), two_to(m) as int, two_to(0), dir)[k] by {
            assert(k == 0);
            assert(b * 1 == b);
            assert(work@[b] == x[reversed(b, m)]);
        }
    }
    let mut half: usize = 1;
    while half < n
        invariant
            lawful::<A>(),
            n == two_to(m),
            x.len() == n,
            s <= m,
            half == two_to(s),
            half <= n,
            work@.len() == n,
            blocks_done::<A>(work@, x, m, s, dir),
        decreases n - half,
    {
        proof {
            if s >= m {
                lemma_two_to_grows(m, s);
            }
            lemma_two_to_grows(s, m);
            lemma_two_to_splits(m, s + 1);
            lemma_stage::<A>(work@, x, m, s, dir);
        }
        work = stage::<A>(&work, half, dir, Ghost(two_to((m - s - 1) as nat) as int));
        half = 2 * half;
        proof {
            s = s + 1;
        }
    }
    proof {
        if s < m {
            lemma_two_to_grows(s, m);
        }
        lemma_halved_len::<A>(x, 0, 1, m, dir);
        let result = halved::<A>(x, 0, 1, x.len(), dir);
        assert forall|k: int| 0 <= k < n implies #[trigger] work@[k] == result[k] by {
            assert(two_to(0) == 1);
            assert(reversed(0, 0) == 0);
            assert(0 * n == 0);
            assert(at(k, 0, two_to(m) as int) == k);
        }
        assert(work@ =~= result);
    }
    *data = work;
}

/// Transform a line by its defining sum.
pub fn dft_direct<A: Arithmetic>(src: &Vec<Complex>, dir: u64) -> (dst: Vec<Complex>)
    requires
        lawful::<A>(),
        src@.len() <= u32::MAX,
    ensures
        dst@ == summed::<A>(src@, dir),
{
    let n: usize = src.len();
    let nf: u64 = tally::<A>(n as u64);
    let round: u64 = times::<A>(times::<A>(dir, TWO), PI);
    let mut dst: Vec<Complex> = Vec::new();
    let mut k: usize = 0;
    while k < n
        invariant
            lawful::<A>(),
            n == src@.len(),
            n <= u32::MAX,
            nf == tally_of::<A>(n as u64),
            round == full_turn::<A>(dir),
            k <= n,
            dst@ == summed::<A>(src@, dir).take(k as int),
        decreases n - k,
    {
        let mut acc: Complex = zero();
        let mut m: usize = 0;
        while m < n
            invariant
                lawful::<A>(),
                n == src@.len(),
                n <= u32::MAX,
                nf == tally_of::<A>(n as u64),
                round == full_turn::<A>(dir),
                k < n,
                m <= n,
                acc == bin_sum::<A>(src@, dir, k as int, m as nat),
            decreases n - m,
        {
            let kw: u64 = k as u64;
            let mw: u64 = m as u64;
            assert(0 <= kw * mw <= 0xffff_ffff * 0xffff_ffff) by (nonlinear_arith)
                requires
                    0 <= kw <= 0xffff_ffff,
                    0 <= mw <= 0xffff_ffff,
            ;
            let angle: u64 = over::<A>(times::<A>(round, tally::<A>(kw * mw)), nf);
            acc = acc.add::<A>(src[m].mul::<A>(turn::<A>(angle)));
            m = m + 1;
        }
        dst.push(acc);
        k = k + 1;
    }
    dst
}

/// Whether a number is a power of two.
fn power_of_two(n: usize) -> (r: bool)
    ensures
        r == is_two_power(n as int),
{
    if n == 0 {
        assert forall|m: nat| two_to(m) != 0 by {
            lemma_two_to_grows(m, m);
        }
        return false;
    }
    let ghost mut s: nat = 0;
    let mut p: usize = 1;
    while p < n
        invariant
            1 <= p <= n,
            p == two_to(s),
        decreases n - p,
    {
        if p > n / 2 {
            assert forall|m: nat| two_to(m) != n by {
                if m <= s {
                    lemma_two_to_grows(m, s);
                } else {
                    lemma_two_to_grows(s, m);
                }
            }
            return false;
        }
        p = 2 * p;
        proof {
            s = s + 1;
        }
    }
    true
}

/// Transform a line.
pub fn fft_line<A: Arithmetic>(line: Vec<Complex>, dir: u64) -> (out: Vec<Complex>)
    requires
        lawful::<A>(),
        line@.len() <= u32::MAX,
    ensures
        out@ == line_of::<A>(line@, dir),
        out@.len() == line@.len(),
{
    if power_of_two(line.len()) {
        let mut work: Vec<Complex> = line;
        fft_radix2::<A>(&mut work, dir);
        work
    } else {
        dft_direct::<A>(&line, dir)
    }
}

/// Row `y` of a plane that is `w` wide.
pub open spec fn row_of(data: Seq<Complex>, w: int, y: int) -> Seq<Complex> {
    Seq::new(w as nat, |x: int| data[at(x, y, w)])
}

/// Column `x` of a plane of `w` by `h`.
pub open spec fn column_of(data: Seq<Complex>, w: int, h: int, x: int) -> Seq<Complex> {
    Seq::new(h as nat, |y: int| data[at(x, y, w)])
}

/// A plane with its rows transformed.
pub open spec fn rows_of<A: Arithmetic>(data: Seq<Complex>, w: int, h: int, dir: u64) -> Seq<Complex> {
    Seq::new((w * h) as nat, |i: int| line_of::<A>(row_of(data, w, i / w), dir)[i % w])
}

/// A plane with its columns transformed.
pub open spec fn columns_of<A: Arithmetic>(data: Seq<Complex>, w: int, h: int, dir: u64) -> Seq<Complex> {
    Seq::new((w * h) as nat, |i: int| line_of::<A>(column_of(data, w, h, i % w), dir)[i / w])
}

/// The transform of a plane: its rows, and then the columns of what they became.
pub open spec fn plane_of<A: Arithmetic>(data: Seq<Complex>, w: int, h: int, dir: u64) -> Seq<Complex> {
    columns_of::<A>(rows_of::<A>(data, w, h, dir), w, h, dir)
}

/// Take a line out of a plane: `len` numbers from `start` on in steps of `stride`.
fn take_line(data: &Vec<Complex>, start: usize, stride: usize, len: usize) -> (line: Vec<Complex>)
    requires
        len > 0 ==> at(start as int, len - 1, stride as int) < data@.len(),
    ensures
        line@ == Seq::new(len as nat, |j: int| data@[at(start as int, j, stride as int)]),
{
    let held: usize = data.len();
    let mut line: Vec<Complex> = Vec::new();
    let mut j: usize = 0;
    while j < len
        invariant
            len > 0 ==> at(start as int, len - 1, stride as int) < data@.len(),
            held == data@.len(),
            j <= len,
            line@ == Seq::new(j as nat, |k: int| data@[at(start as int, k, stride as int)]),
        decreases len - j,
    {
        assert(at(start as int, j as int, stride as int) <= at(
            start as int,
            len - 1,
            stride as int,
        )) by (nonlinear_arith)
            requires
                0 <= j <= len - 1,
                0 <= stride,
                at(start as int, j as int, stride as int) == j * stride + start,
                at(start as int, len - 1, stride as int) == (len - 1) * stride + start,
        ;
        let index: usize = position(start, j, stride);
        line.push(data[index]);
        j = j + 1;
    }
    line
}

/// Transform the rows of a plane.
fn transform_rows<A: Arithmetic>(data: &Vec<Complex>, w: usize, h: usize, dir: u64) -> (out: Vec<Complex>)
    requires
        lawful::<A>(),
        data@.len() == w * h,
        0 < w <= u32::MAX,
    ensures
        out@ == rows_of::<A>(data@, w as int, h as int, dir),
{
    let held: usize = data.len();
    let ghost all = rows_of::<A>(data@, w as int, h as int, dir);
    let mut out: Vec<Complex> = Vec::new();
    let mut y: usize = 0;
    assert(0 * w == 0);
    while y < h
        invariant
            lawful::<A>(),
            data@.len() == w * h,
            held == data@.len(),
            0 < w <= u32::MAX,
            all == rows_of::<A>(data@, w as int, h as int, dir),
            y <= h,
            out@.len() == y * w,
            out@ == all.take((y * w) as int),
        decreases h - y,
    {
        proof {
            lemma_at_bounds(0, y as int, w as int, h as int);
            lemma_at_bounds(w - 1, y as int, w as int, h as int);
            assert(at(w - 1, y as int, w as int) == at((y * w) as int, w - 1, 1));
        }
        let start: usize = position(0, y, w);
        let line: Vec<Complex> = take_line(data, start, 1, w);
        assert(line@ =~= row_of(data@, w as int, y as int));
        let mut done: Vec<Complex> = fft_line::<A>(line, dir);
        let ghost row = done@;
        let ghost before = out@;
        out.append(&mut done);
        assert((y + 1) * w == y * w + w) by (nonlinear_arith);
        assert forall|i: int| 0 <= i < (y + 1) * w implies #[trigger] out@[i] == all[i] by {
            if i < y * w {
                assert(out@[i] == before[i]);
            } else {
                let x = i - y * w;
                lemma_at_inverse(x, y as int, w as int);
                assert(out@[i] == row[x]);
            }
        }
        assert(out@ =~= all.take(((y + 1) * w) as int));
        y = y + 1;
    }
    assert(h * w == w * h) by (nonlinear_arith);
    assert(all.take((h * w) as int) =~= all);
    out
}

/// Transform the columns of a plane.
fn transform_columns<A: Arithmetic>(data: &Vec<Complex>, w: usize, h: usize, dir: u64) -> (out: Vec<Complex>)
    requires
        lawful::<A>(),
        data@.len() == w * h,
        0 < h <= u32::MAX,
    ensures
        out@ == columns_of::<A>(data@, w as int, h as int, dir),
{
    let held: usize = data.len();
    let mut columns: Vec<Vec<Complex>> = Vec::new();
    let mut x: usize = 0;
    while x < w
        invariant
            lawful::<A>(),
            data@.len() == w * h,
            held == data@.len(),
            0 < h <= u32::MAX,
            x <= w,
            columns@.len() == x,
            forall|j: int|
                0 <= j < x ==> (#[trigger] columns@[j])@ == line_of::<A>(
                    column_of(data@, w as int, h as int, j),
                    dir,
                ),
        decreases w - x,
    {
        proof {
            lemma_at_bounds(x as int, h - 1, w as int, h as int);
        }
        let line: Vec<Complex> = take_line(data, x, w, h);
        columns.push(fft_line::<A>(line, dir));
        x = x + 1;
    }
    let ghost all = columns_of::<A>(data@, w as int, h as int, dir);
    let mut out: Vec<Complex> = Vec::new();
    let mut i: usize = 0;
    while i < held
        invariant
            data@.len() == w * h,
            held == data@.len(),
            columns@.len() == w,
            forall|j: int|
                0 <= j < w ==> (#[trigger] columns@[j])@ == line_of::<A>(
                    column_of(data@, w as int, h as int, j),
                    dir,
                ),
            all == columns_of::<A>(data@, w as int, h as int, dir),
            all.len() == held,
            i <= held,
            out@ == all.take(i as int),
        decreases held - i,
    {
        proof {
            lemma_at_of(i as int, w as int, h as int);
            lemma_line_len::<A>(column_of(data@, w as int, h as int, i as int % w as int), dir);
        }
        out.push(columns[i % w][i / w]);
        i = i + 1;
    }
    out
}

/// Transform a plane.
pub fn fft2_plane<A: Arithmetic>(data: &Vec<Complex>, width: usize, height: usize, dir: u64) -> (out: Vec<Complex>)
    requires
        lawful::<A>(),
        data@.len() == width * height,
        width <= u32::MAX,
        height <= u32::MAX,
    ensures
        out@ == plane_of::<A>(data@, width as int, height as int, dir),
        out@.len() == width * height,
{
    if width == 0 || height == 0 {
        let none: Vec<Complex> = Vec::new();
        assert(width * height == 0) by (nonlinear_arith)
            requires
                width == 0 || height == 0,
        ;
        return none;
    }
    let rows: Vec<Complex> = transform_rows::<A>(data, width, height, dir);
    transform_columns::<A>(&rows, width, height, dir)
}

/// Channel `c` of an interleaved buffer of real samples.
pub open spec fn real_plane<A: Arithmetic>(samples: Seq<u32>, pixels: int, channels: int, c: int) -> Seq<Complex> {
    Seq::new(
        pixels as nat,
        |p: int| Complex { re: widen_of::<A>(samples[at(c, p, channels)]), im: ZERO },
    )
}

/// Channel `c` of an interleaved buffer of complex samples.
pub open spec fn complex_plane<A: Arithmetic>(spectrum: Seq<u32>, pixels: int, channels: int, c: int) -> Seq<
    Complex,
> {
    Seq::new(
        pixels as nat,
        |p: int|
            Complex {
                re: widen_of::<A>(spectrum[2 * at(c, p, channels)]),
                im: widen_of::<A>(spectrum[2 * at(c, p, channels) + 1]),
            },
    )
}

/// One part of a complex number: the real one at even places.
pub open spec fn part_of(z: Complex, place: int) -> u64 {
    if place % 2 == 0 {
        z.re
    } else {
        z.im
    }
}

/// The spectrum of an interleaved buffer: the parts of every bin of every channel.
pub open spec fn forward_of<A: Arithmetic>(samples: Seq<u32>, w: int, h: int, channels: int) -> Seq<u32> {
    Seq::new(
        (w * h * channels * 2) as nat,
        |i: int|
            narrow_of::<A>(
                part_of(
                    plane_of::<A>(
                        real_plane::<A>(samples, w * h, channels, (i / 2) % channels),
                        w,
                        h,
                        FORWARD,
                    )[(i / 2) / channels],
                    i,
                ),
            ),
    )
}

/// One over the number of pixels.
pub open spec fn scale_of<A: Arithmetic>(pixels: int) -> u64 {
    over_of::<A>(ONE, tally_of::<A>(pixels as u64))
}

/// The buffer of a spectrum: the scaled parts of every pixel of every channel.
pub open spec fn inverse_of<A: Arithmetic>(spectrum: Seq<u32>, w: int, h: int, channels: int) -> Seq<u32> {
    Seq::new(
        (w * h * channels * 2) as nat,
        |i: int|
            narrow_of::<A>(
                times_of::<A>(
                    part_of(
                        plane_of::<A>(
                            complex_plane::<A>(spectrum, w * h, channels, (i / 2) % channels),
                            w,
                            h,
                            INVERSE,
                        )[(i / 2) / channels],
                        i,
                    ),
                    scale_of::<A>(w * h),
                ),
            ),
    )
}

/// The real parts of the buffer of a spectrum.
pub open spec fn inverse_real_of<A: Arithmetic>(spectrum: Seq<u32>, w: int, h: int, channels: int) -> Seq<u32> {
    Seq::new(
        (w * h * channels) as nat,
        |i: int| inverse_of::<A>(spectrum, w, h, channels)[2 * i],
    )
}

/// Place `i` of a spectrum belongs to one channel of one bin.
proof fn lemma_place(i: int, pixels: int, channels: int)
    requires
        0 <= i < pixels * channels * 2,
        0 <= pixels,
        0 <= channels,
    ensures
        0 < channels,
        0 <= (i / 2) % channels < channels,
        0 <= (i / 2) / channels < pixels,
{
    assert(pixels * channels == channels * pixels) by (nonlinear_arith);
    assert(0 <= i / 2 < channels * pixels);
    lemma_at_of(i / 2, channels, pixels);
}

/// The forward transform of an interleaved buffer of real samples.
pub fn forward_real<A: Arithmetic>(samples: &Vec<u32>, width: usize, height: usize, channels: usize) -> (out: Vec<
    u32,
>)
    requires
        lawful::<A>(),
        samples@.len() >= width * height * channels,
        width * height <= usize::MAX,
        width * height * channels * 2 <= usize::MAX,
        width <= u32::MAX,
        height <= u32::MAX,
    ensures
        out@ == forward_of::<A>(samples@, width as int, height as int, channels as int),
{
    let held: usize = samples.len();
    let pixels: usize = width * height;
    assert(0 <= pixels * channels) by (nonlinear_arith)
        requires
            0 <= pixels,
            0 <= channels,
    ;
    let count: usize = pixels * channels * 2;
    let mut planes: Vec<Vec<Complex>> = Vec::new();
    let mut c: usize = 0;
    while c < channels
        invariant
            lawful::<A>(),
            samples@.len() >= pixels * channels,
            held == samples@.len(),
            pixels == width * height,
            width <= u32::MAX,
            height <= u32::MAX,
            c <= channels,
            planes@.len() == c,
            forall|j: int|
                0 <= j < c ==> (#[trigger] planes@[j])@ == plane_of::<A>(
                    real_plane::<A>(samples@, pixels as int, channels as int, j),
                    width as int,
                    height as int,
                    FORWARD,
                ),
        decreases channels - c,
    {
        let mut plane: Vec<Complex> = Vec::new();
        let mut p: usize = 0;
        while p < pixels
            invariant
                lawful::<A>(),
                samples@.len() >= pixels * channels,
                held == samples@.len(),
                c < channels,
                p <= pixels,
                plane@ == real_plane::<A>(samples@, p as int, channels as int, c as int),
            decreases pixels - p,
        {
            proof {
                lemma_at_bounds(c as int, p as int, channels as int, pixels as int);
                assert(channels * pixels == pixels * channels) by (nonlinear_arith);
            }
            let index: usize = position(c, p, channels);
            plane.push(Complex::new(widen::<A>(samples[index]), ZERO));
            p = p + 1;
            assert(plane@ =~= real_plane::<A>(samples@, p as int, channels as int, c as int));
        }
        planes.push(fft2_plane::<A>(&plane, width, height, FORWARD));
        c = c + 1;
    }
    let ghost all = forward_of::<A>(samples@, width as int, height as int, channels as int);
    let mut out: Vec<u32> = Vec::new();
    let mut i: usize = 0;
    while i < count
        invariant
            lawful::<A>(),
            pixels == width * height,
            count == pixels * channels * 2,
            planes@.len() == channels,
            forall|j: int|
                0 <= j < channels ==> (#[trigger] planes@[j])@ == plane_of::<A>(
                    real_plane::<A>(samples@, pixels as int, channels as int, j),
                    width as int,
                    height as int,
                    FORWARD,
                ),
            all == forward_of::<A>(samples@, width as int, height as int, channels as int),
            all.len() == count,
            i <= count,
            out@ == all.take(i as int),
        decreases count - i,
    {
        proof {
            lemma_place(i as int, pixels as int, channels as int);
        }
        let s: usize = i / 2;
        assert(planes@[s as int % channels as int]@.len() == pixels);
        let z: Complex = planes[s % channels][s / channels];
        out.push(
            narrow::<A>(
                if i % 2 == 0 {
                    z.re
                } else {
                    z.im
                },
            ),
        );
        assert(all.take(i + 1) =~= all.take(i as int).push(all[i as int]));
        i = i + 1;
    }
    assert(all.take(i as int) =~= all);
    out
}

/// The inverse transform of a spectrum, with both parts of every sample.
pub fn inverse_complex<A: Arithmetic>(spectrum: &Vec<u32>, width: usize, height: usize, channels: usize) -> (out: Vec<
    u32,
>)
    requires
        lawful::<A>(),
        spectrum@.len() >= width * height * channels * 2,
        width * height <= usize::MAX,
        width <= u32::MAX,
        height <= u32::MAX,
    ensures
        out@ == inverse_of::<A>(spectrum@, width as int, height as int, channels as int),
{
    let held: usize = spectrum.len();
    let pixels: usize = width * height;
    assert(0 <= pixels * channels) by (nonlinear_arith)
        requires
            0 <= pixels,
            0 <= channels,
    ;
    let count: usize = pixels * channels * 2;
    let scale: u64 = over::<A>(ONE, tally::<A>(pixels as u64));
    let mut planes: Vec<Vec<Complex>> = Vec::new();
    let mut c: usize = 0;
    while c < channels
        invariant
            lawful::<A>(),
            spectrum@.len() >= pixels * channels * 2,
            held == spectrum@.len(),
            pixels == width * height,
            width <= u32::MAX,
            height <= u32::MAX,
            c <= channels,
            planes@.len() == c,
            forall|j: int|
                0 <= j < c ==> (#[trigger] planes@[j])@ == plane_of::<A>(
                    complex_plane::<A>(spectrum@, pixels as int, channels as int, j),
                    width as int,
                    height as int,
                    INVERSE,
                ),
        decreases channels - c,
    {
        let mut plane: Vec<Complex> = Vec::new();
        let mut p: usize = 0;
        while p < pixels
            invariant
                lawful::<A>(),
                spectrum@.len() >= pixels * channels * 2,
                held == spectrum@.len(),
                c < channels,
                p <= pixels,
                plane@ == complex_plane::<A>(spectrum@, p as int, channels as int, c as int),
            decreases pixels - p,
        {
            proof {
                lemma_at_bounds(c as int, p as int, channels as int, pixels as int);
                assert(channels * pixels == pixels * channels) by (nonlinear_arith);
            }
            let base: usize = 2 * position(c, p, channels);
            plane.push(Complex::new(widen::<A>(spectrum[base]), widen::<A>(spectrum[base + 1])));
            p = p + 1;
            assert(plane@ =~= complex_plane::<A>(spectrum@, p as int, channels as int, c as int));
        }
        planes.push(fft2_plane::<A>(&plane, width, height, INVERSE));
        c = c + 1;
    }
    let ghost all = inverse_of::<A>(spectrum@, width as int, height as int, channels as int);
    let mut out: Vec<u32> = Vec::new();
    let mut i: usize = 0;
    while i < count
        invariant
            lawful::<A>(),
            pixels == width * height,
            count == pixels * channels * 2,
            scale == scale_of::<A>(pixels as int),
            planes@.len() == channels,
            forall|j: int|
                0 <= j < channels ==> (#[trigger] planes@[j])@ == plane_of::<A>(
                    complex_plane::<A>(spectrum@, pixels as int, channels as int, j),
                    width as int,
                    height as int,
                    INVERSE,
                ),
            all == inverse_of::<A>(spectrum@, width as int, height as int, channels as int),
            all.len() == count,
            i <= count,
            out@ == all.take(i as int),
        decreases count - i,
    {
        proof {
            lemma_place(i as int, pixels as int, channels as int);
        }
        let s: usize = i / 2;
        assert(planes@[s as int % channels as int]@.len() == pixels);
        let z: Complex = planes[s % channels][s / channels];
        let part: u64 = if i % 2 == 0 {
            z.re
        } else {
            z.im
        };
        out.push(narrow::<A>(times::<A>(part, scale)));
        assert(all.take(i + 1) =~= all.take(i as int).push(all[i as int]));
        i = i + 1;
    }
    assert(all.take(i as int) =~= all);
    out
}

/// The inverse transform of a spectrum, with the real part of every sample alone.
pub fn inverse_real<A: Arithmetic>(spectrum: &Vec<u32>, width: usize, height: usize, channels: usize) -> (out: Vec<
    u32,
>)
    requires
        lawful::<A>(),
        spectrum@.len() >= width * height * channels * 2,
        width * height <= usize::MAX,
        width <= u32::MAX,
        height <= u32::MAX,
    ensures
        out@ == inverse_real_of::<A>(spectrum@, width as int, height as int, channels as int),
{
    let both: Vec<u32> = inverse_complex::<A>(spectrum, width, height, channels);
    let held: usize = both.len();
    let count: usize = held / 2;
    assert(0 <= width * height * channels) by (nonlinear_arith)
        requires
            0 <= width,
            0 <= height,
            0 <= channels,
    ;
    let ghost all = inverse_real_of::<A>(
        spectrum@,
        width as int,
        height as int,
        channels as int,
    );
    let mut out: Vec<u32> = Vec::new();
    let mut i: usize = 0;
    while i < count
        invariant
            both@ == inverse_of::<A>(
                spectrum@,
                width as int,
                height as int,
                channels as int,
            ),
            held == both@.len(),
            held == 2 * count,
            all == inverse_real_of::<A>(
                spectrum@,
                width as int,
                height as int,
                channels as int,
            ),
            all.len() == count,
            i <= count,
            out@ == all.take(i as int),
        decreases count - i,
    {
        out.push(both[2 * i]);
        i = i + 1;
    }
    out
}

/// The frequency of bin `k` on an axis of length `n`: bins past the middle stand for negative ones.
pub fn signed_frequency(k: usize, n: usize) -> (r: i64)
    requires
        k <= 0x3fff_ffff_ffff_ffff,
        n <= i64::MAX,
    ensures
        r == (if 2 * k <= n {
            k as int
        } else {
            k - n
        }),
{
    let ki: i64 = k as i64;
    let ni: i64 = n as i64;
    if 2 * ki <= ni {
        ki
    } else {
        ki - ni
    }
}

/// The frequency of a bin in cycles per pixel of an axis; zero on an axis without pixels.
pub open spec fn axis_frequency<A: Arithmetic>(k: int, n: int) -> u64 {
    if n == 0 {
        ZERO
    } else {
        over_of::<A>(
            whole_of::<A>(
                (if 2 * k <= n {
                    k
                } else {
                    k - n
                }) as i64,
            ),
            tally_of::<A>(n as u64),
        )
    }
}

/// Compute the frequency of a bin in cycles per pixel of an axis.
fn axis_cycles<A: Arithmetic>(k: usize, n: usize) -> (r: u64)
    requires
        lawful::<A>(),
        k <= 0x3fff_ffff_ffff_ffff,
        n <= i64::MAX,
    ensures
        r == axis_frequency::<A>(k as int, n as int),
{
    if n == 0 {
        ZERO
    } else {
        over::<A>(whole::<A>(signed_frequency(k, n)), tally::<A>(n as u64))
    }
}

/// The length of the vector of a bin's frequencies along both axes.
pub open spec fn radial_of<A: Arithmetic>(kx: int, ky: int, width: int, height: int) -> u64 {
    hypotenuse_of::<A>(axis_frequency::<A>(kx, width), axis_frequency::<A>(ky, height))
}

/// The radial frequency of bin `(kx, ky)` in cycles per pixel.
pub fn radial_frequency<A: Arithmetic>(kx: usize, ky: usize, width: usize, height: usize) -> (r: u64)
    requires
        lawful::<A>(),
        kx <= 0x3fff_ffff_ffff_ffff,
        ky <= 0x3fff_ffff_ffff_ffff,
        width <= i64::MAX,
        height <= i64::MAX,
    ensures
        r == hypotenuse_of::<A>(
            axis_frequency::<A>(kx as int, width as int),
            axis_frequency::<A>(ky as int, height as int),
        ),
        r == radial_of::<A>(kx as int, ky as int, width as int, height as int),
{
    hypotenuse::<A>(axis_cycles::<A>(kx, width), axis_cycles::<A>(ky, height))
}

/// Channels are transformed apart: a channel's bins are those of its own plane, whatever the others
/// hold.
pub proof fn law_channels_are_independent<A: Arithmetic>(
    samples: Seq<u32>,
    other: Seq<u32>,
    w: int,
    h: int,
    channels: int,
    i: int,
)
    requires
        0 <= w,
        0 <= h,
        0 <= i < w * h * channels * 2,
        0 <= channels,
        forall|p: int|
            0 <= p < w * h ==> samples[#[trigger] at((i / 2) % channels, p, channels)] == other[at(
                (i / 2) % channels,
                p,
                channels,
            )],
    ensures
        forward_of::<A>(samples, w, h, channels)[i] == forward_of::<A>(other, w, h, channels)[i],
{
    assert(real_plane::<A>(samples, w * h, channels, (i / 2) % channels) =~= real_plane::<A>(
        other,
        w * h,
        channels,
        (i / 2) % channels,
    ));
}

/// A bin's frequency is its index up to a whole turn of the axis, and lies above minus a half and up
/// to a half of the axis.
pub proof fn law_frequency_folds(k: int, n: int, f: int)
    requires
        0 <= k < n,
        f == (if 2 * k <= n {
            k
        } else {
            k - n
        }),
    ensures
        f == k || f == k - n,
        -n < 2 * f <= n,
{
}

} // verus!
