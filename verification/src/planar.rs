//! Complex numbers over the reals, and sums of them.
use crate::rounding::{
    lemma_product_order, lemma_product_sum, lemma_product_units, lemma_size_product, product, size,
};
use vstd::prelude::*;

verus! {

/// A complex number.
pub ghost struct Point {
    pub re: real,
    pub im: real,
}

impl Point {
    /// The sum with another.
    pub open spec fn plus(self, other: Point) -> Point {
        Point { re: self.re + other.re, im: self.im + other.im }
    }

    /// The difference from another.
    pub open spec fn minus(self, other: Point) -> Point {
        Point { re: self.re - other.re, im: self.im - other.im }
    }

    /// The product with another.
    pub open spec fn times(self, other: Point) -> Point {
        Point {
            re: product(self.re, other.re) - product(self.im, other.im),
            im: product(self.re, other.im) + product(self.im, other.re),
        }
    }

    /// The magnitudes of both parts, added.
    #[verifier::opaque]
    pub open spec fn span(self) -> real {
        size(self.re) + size(self.im)
    }
}

/// The complex zero.
pub open spec fn origin() -> Point {
    Point { re: 0real, im: 0real }
}

/// A real number as a complex one.
pub open spec fn scalar(x: real) -> Point {
    Point { re: x, im: 0real }
}

/// How spans add up.
pub proof fn lemma_span_sum(a: Point, b: Point)
    ensures
        a.plus(b).span() <= a.span() + b.span(),
        a.minus(b).span() <= a.span() + b.span(),
        a.span() <= b.span() + a.minus(b).span(),
        0real <= a.span(),
        0real <= b.span(),
        origin().span() == 0real,
{
    reveal(Point::span);
}

/// A number near the sum of two that are near others is near the sum of the others; and so with
/// differences.
pub proof fn lemma_near_sum(z: Point, a: Point, b: Point, x: Point, y: Point)
    ensures
        z.minus(x.plus(y)).span() <= z.minus(a.plus(b)).span() + a.minus(x).span() + b.minus(y).span(),
        z.minus(x.minus(y)).span() <= z.minus(a.minus(b)).span() + a.minus(x).span() + b.minus(y).span(),
{
    let d = a.minus(x);
    let e = b.minus(y);
    assert(z.minus(x.plus(y)) == z.minus(a.plus(b)).plus(d.plus(e)));
    lemma_span_sum(d, e);
    lemma_span_sum(z.minus(a.plus(b)), d.plus(e));
    assert(z.minus(x.minus(y)) == z.minus(a.minus(b)).plus(d.minus(e)));
    lemma_span_sum(z.minus(a.minus(b)), d.minus(e));
}

/// A number near another that is near a third is near the third.
pub proof fn lemma_near_chain(z: Point, a: Point, x: Point)
    ensures
        z.minus(x).span() <= z.minus(a).span() + a.minus(x).span(),
{
    assert(z.minus(x) == z.minus(a).plus(a.minus(x)));
    lemma_span_sum(z.minus(a), a.minus(x));
}

/// The span of a product is no more than the product of the spans.
pub proof fn lemma_span_times(a: Point, b: Point)
    ensures
        a.times(b).span() <= product(a.span(), b.span()),
        0real <= product(a.span(), b.span()),
{
    reveal(Point::span);
    lemma_size_product(a.re, b.re);
    lemma_size_product(a.im, b.im);
    lemma_size_product(a.re, b.im);
    lemma_size_product(a.im, b.re);
    lemma_product_sum(size(a.re), size(a.im), b.span());
    lemma_product_sum(size(b.re), size(b.im), size(a.re));
    lemma_product_sum(size(b.re), size(b.im), size(a.im));
}

/// A product of spans grows with the spans.
pub proof fn lemma_span_bound(a: Point, b: Point, x: real, y: real)
    requires
        a.span() <= x,
        b.span() <= y,
    ensures
        a.times(b).span() <= product(x, y),
{
    lemma_span_times(a, b);
    lemma_span_sum(a, b);
    lemma_product_order(a.span(), b.span(), y);
    lemma_product_order(y, a.span(), x);
}

/// Products distribute over sums and differences.
pub proof fn lemma_times_sum(a: Point, b: Point, c: Point)
    ensures
        a.plus(b).times(c) == a.times(c).plus(b.times(c)),
        a.minus(b).times(c) == a.times(c).minus(b.times(c)),
        c.times(a.minus(b)) == c.times(a).minus(c.times(b)),
{
    lemma_product_sum(a.re, b.re, c.re);
    lemma_product_sum(a.im, b.im, c.im);
    lemma_product_sum(a.re, b.re, c.im);
    lemma_product_sum(a.im, b.im, c.re);
}

/// Products do not depend on the order.
pub proof fn lemma_times_turn(a: Point, b: Point)
    ensures
        a.times(b) == b.times(a),
{
    lemma_product_units(a.re, b.re);
    lemma_product_units(a.im, b.im);
    lemma_product_units(a.re, b.im);
    lemma_product_units(a.im, b.re);
}

/// Products can be bracketed either way.
pub proof fn lemma_times_bracket(a: Point, b: Point, c: Point)
    ensures
        a.times(b).times(c) == a.times(b.times(c)),
{
    let ab = a.times(b);
    let bc = b.times(c);
    lemma_product_sum(product(a.re, b.re), product(a.im, b.im), c.re);
    lemma_product_sum(product(a.re, b.re), product(a.im, b.im), c.im);
    lemma_product_sum(product(a.re, b.im), product(a.im, b.re), c.im);
    lemma_product_sum(product(a.re, b.im), product(a.im, b.re), c.re);
    lemma_product_sum(product(b.re, c.re), product(b.im, c.im), a.re);
    lemma_product_sum(product(b.re, c.re), product(b.im, c.im), a.im);
    lemma_product_sum(product(b.re, c.im), product(b.im, c.re), a.im);
    lemma_product_sum(product(b.re, c.im), product(b.im, c.re), a.re);
    lemma_product_sum(a.re, b.re, c.re);
    lemma_product_sum(a.im, b.im, c.re);
    lemma_product_sum(a.re, b.im, c.im);
    lemma_product_sum(a.im, b.re, c.im);
    lemma_product_sum(a.re, b.re, c.im);
    lemma_product_sum(a.im, b.im, c.im);
    lemma_product_sum(a.re, b.im, c.re);
    lemma_product_sum(a.im, b.re, c.re);
}

/// Zero as a factor.
pub proof fn lemma_times_origin(a: Point)
    ensures
        a.times(origin()) == origin(),
        origin().times(a) == origin(),
{
    lemma_product_units(a.re, 0real);
    lemma_product_units(a.im, 0real);
    lemma_product_units(0real, a.re);
    lemma_product_units(0real, a.im);
}

/// The sum of the first `n` values of a function.
pub open spec fn psum(f: spec_fn(int) -> Point, n: nat) -> Point
    decreases n,
{
    if n == 0 {
        origin()
    } else {
        psum(f, (n - 1) as nat).plus(f(n - 1))
    }
}

/// `n` times a real number.
pub open spec fn many(n: nat, b: real) -> real
    decreases n,
{
    if n == 0 {
        0real
    } else {
        many((n - 1) as nat, b) + b
    }
}

/// More of a larger number is more.
pub proof fn lemma_many_order(a: nat, n: nat, b: real, c: real)
    requires
        a <= n,
        0real <= b <= c,
    ensures
        0real <= many(a, b) <= many(n, c),
    decreases n,
{
    if a < n {
        lemma_many_order(a, (n - 1) as nat, b, c);
    } else if n > 0 {
        lemma_many_order((n - 1) as nat, (n - 1) as nat, b, c);
    }
}

/// Functions with the same first values have the same sum.
pub proof fn lemma_psum_same(f: spec_fn(int) -> Point, g: spec_fn(int) -> Point, n: nat)
    requires
        forall|i: int| 0 <= i < n ==> #[trigger] f(i) == g(i),
    ensures
        psum(f, n) == psum(g, n),
    decreases n,
{
    if n > 0 {
        lemma_psum_same(f, g, (n - 1) as nat);
        assert(f(n - 1) == g(n - 1));
    }
}

/// A sum of differences is the difference of the sums.
pub proof fn lemma_psum_difference(f: spec_fn(int) -> Point, g: spec_fn(int) -> Point, n: nat)
    ensures
        psum(|i: int| f(i).minus(g(i)), n) == psum(f, n).minus(psum(g, n)),
    decreases n,
{
    if n > 0 {
        lemma_psum_difference(f, g, (n - 1) as nat);
    }
}

/// A sum of sums is the sum of the sums.
pub proof fn lemma_psum_added(f: spec_fn(int) -> Point, g: spec_fn(int) -> Point, n: nat)
    ensures
        psum(|i: int| f(i).plus(g(i)), n) == psum(f, n).plus(psum(g, n)),
    decreases n,
{
    if n > 0 {
        lemma_psum_added(f, g, (n - 1) as nat);
    }
}

/// A sum times a number is the sum of the products.
pub proof fn lemma_psum_scaled(f: spec_fn(int) -> Point, n: nat, c: Point)
    ensures
        psum(f, n).times(c) == psum(|i: int| f(i).times(c), n),
    decreases n,
{
    if n == 0 {
        lemma_times_origin(c);
    } else {
        lemma_psum_scaled(f, (n - 1) as nat, c);
        lemma_times_sum(psum(f, (n - 1) as nat), f(n - 1), c);
    }
}

/// A sum of `n` numbers within a span is within `n` times that span.
pub proof fn lemma_psum_span(f: spec_fn(int) -> Point, n: nat, b: real)
    requires
        forall|i: int| 0 <= i < n ==> (#[trigger] f(i)).span() <= b,
    ensures
        psum(f, n).span() <= many(n, b),
    decreases n,
{
    lemma_span_sum(psum(f, (n - 1) as nat), f(n - 1));
    if n > 0 {
        lemma_psum_span(f, (n - 1) as nat, b);
        assert(f(n - 1).span() <= b);
    }
}

/// A sum with one term that is not zero is that term.
pub proof fn lemma_psum_single(f: spec_fn(int) -> Point, n: nat, k: int)
    requires
        0 <= k,
        forall|i: int| 0 <= i < n && i != k ==> #[trigger] f(i) == origin(),
    ensures
        psum(f, n) == (if k < n {
            f(k)
        } else {
            origin()
        }),
    decreases n,
{
    if n > 0 {
        lemma_psum_single(f, (n - 1) as nat, k);
        if n - 1 != k {
            assert(f(n - 1) == origin());
        }
    }
}

/// Zeros add up to zero.
proof fn lemma_psum_zeros(f: spec_fn(int) -> Point, n: nat)
    requires
        forall|i: int| 0 <= i < n ==> #[trigger] f(i) == origin(),
    ensures
        psum(f, n) == origin(),
    decreases n,
{
    if n > 0 {
        lemma_psum_zeros(f, (n - 1) as nat);
        assert(f(n - 1) == origin());
    }
}

/// The sum of sums can be taken in either order.
pub proof fn lemma_psums_exchange(f: spec_fn(int, int) -> Point, n: nat, m: nat)
    ensures
        psum(|i: int| psum(|j: int| f(i, j), m), n) == psum(|j: int| psum(|i: int| f(i, j), n), m),
    decreases n,
{
    let columns = |j: int| psum(|i: int| f(i, j), n);
    if n == 0 {
        lemma_psum_zeros(columns, m);
    } else {
        let prior = (n - 1) as nat;
        lemma_psums_exchange(f, prior, m);
        let before = |j: int| psum(|i: int| f(i, j), prior);
        let last = |j: int| f(n - 1, j);
        lemma_psum_added(before, last, m);
        lemma_psum_same(columns, |j: int| before(j).plus(last(j)), m);
        lemma_psum_same(|j: int| f(n - 1, j), last, m);
        let rows = |i: int| psum(|j: int| f(i, j), m);
        assert(psum(rows, n) == psum(rows, prior).plus(rows(n - 1)));
    }
}

/// A sum of `2 * h` terms is the sum of those at even and of those at odd places.
pub proof fn lemma_psum_halves(f: spec_fn(int) -> Point, h: nat)
    ensures
        psum(f, 2 * h) == psum(|j: int| f(2 * j), h).plus(psum(|j: int| f(2 * j + 1), h)),
    decreases h,
{
    if h > 0 {
        let prior = (h - 1) as nat;
        lemma_psum_halves(f, prior);
        let last = (2 * h - 1) as nat;
        assert(psum(f, 2 * h) == psum(f, last).plus(f(2 * h - 1)));
        assert(psum(f, last) == psum(f, 2 * prior).plus(f(2 * prior as int)));
    }
}

} // verus!
