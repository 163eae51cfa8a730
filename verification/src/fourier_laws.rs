//! What the Fourier transform is in an arithmetic that does not round: both ways of transforming a
//! line give one result, and the inverse undoes the forward transform.
//!
//! Patterns for which adding zero changes nothing are the settled ones: the laws speak of those, since
//! a pattern of a negative zero stands for the same number as that of zero.
use crate::arithmetic::{narrow_of, plus_of, times_of, widen_of, Arithmetic};
use crate::binary::{ONE, ZERO};
use crate::dft::{
    bin_sum, column_of, columns_of, complex_plane, factor_of, forward_of, halved, inverse_real_of,
    is_two_power, lemma_halved_len, lemma_two_to_positive, line_of, one, plane_of, power_of,
    real_plane, row_of, rows_of, scale_of, stage_root, summed, two_to, zero, Complex, FORWARD,
    INVERSE,
};
use crate::exact::{self as reals, combined, opposite, plain, unrounded};
use crate::lattice::{at, lemma_at_bounds, lemma_at_inverse, lemma_at_of};
use vstd::prelude::*;

verus! {

/// Adding zero changes nothing.
pub open spec fn settled<A: Arithmetic>(z: Complex) -> bool {
    zero().added::<A>(z) == z
}

/// Sums and products of settled numbers are settled, and obey the rules of a commutative ring.
#[verifier::opaque]
pub open spec fn exact<A: Arithmetic>() -> bool {
    &&& settled::<A>(zero())
    &&& settled::<A>(one())
    &&& forall|a: Complex, b: Complex|
        settled::<A>(a) && settled::<A>(b) ==> settled::<A>(#[trigger] a.added::<A>(b))
    &&& forall|a: Complex, b: Complex|
        settled::<A>(a) && settled::<A>(b) ==> settled::<A>(#[trigger] a.multiplied::<A>(b))
    &&& forall|a: Complex, b: Complex|
        settled::<A>(a) && settled::<A>(b) ==> #[trigger] a.added::<A>(b) == b.added::<A>(a)
    &&& forall|a: Complex, b: Complex, c: Complex|
        settled::<A>(a) && settled::<A>(b) && settled::<A>(c) ==> #[trigger] a.added::<A>(b).added::<
            A,
        >(c) == a.added::<A>(b.added::<A>(c))
    &&& forall|a: Complex, b: Complex|
        settled::<A>(a) && settled::<A>(b) ==> #[trigger] a.multiplied::<A>(b) == b.multiplied::<A>(a)
    &&& forall|a: Complex, b: Complex, c: Complex|
        settled::<A>(a) && settled::<A>(b) && settled::<A>(c) ==> #[trigger] a.multiplied::<A>(
            b,
        ).multiplied::<A>(c) == a.multiplied::<A>(b.multiplied::<A>(c))
    &&& forall|a: Complex, b: Complex, c: Complex|
        settled::<A>(a) && settled::<A>(b) && settled::<A>(c) ==> #[trigger] a.added::<A>(
            b,
        ).multiplied::<A>(c) == a.multiplied::<A>(c).added::<A>(b.multiplied::<A>(c))
    &&& forall|a: Complex| settled::<A>(a) ==> #[trigger] a.multiplied::<A>(one()) == a
    &&& forall|a: Complex| settled::<A>(a) ==> #[trigger] zero().multiplied::<A>(a) == zero()
}

/// A product in an arithmetic that does not round: real and imaginary part as sums of products.
proof fn lemma_product_parts<A: Arithmetic>(a: Complex, b: Complex)
    requires
        unrounded::<A>(),
        settled::<A>(a),
        settled::<A>(b),
    ensures
        settled::<A>(a.multiplied::<A>(b)),
        a.multiplied::<A>(b).re == plus_of::<A>(
            times_of::<A>(a.re, b.re),
            opposite::<A>(times_of::<A>(a.im, b.im)),
        ),
        a.multiplied::<A>(b).im == plus_of::<A>(
            times_of::<A>(a.re, b.im),
            times_of::<A>(a.im, b.re),
        ),
{
    let rr = times_of::<A>(a.re, b.re);
    let ii = times_of::<A>(a.im, b.im);
    let ri = times_of::<A>(a.re, b.im);
    let ir = times_of::<A>(a.im, b.re);
    reals::lemma_times::<A>(a.re, b.re);
    reals::lemma_times::<A>(a.im, b.im);
    reals::lemma_times::<A>(a.re, b.im);
    reals::lemma_times::<A>(a.im, b.re);
    reals::lemma_fused::<A>(a.re, b.re, ii);
    reals::lemma_fused::<A>(a.re, b.im, ir);
    reals::lemma_opposite::<A>(rr, ii);
    reals::lemma_plus::<A>(rr, opposite::<A>(ii));
    reals::lemma_plus::<A>(ri, ir);
}

/// Products of complex numbers do not depend on the order.
proof fn lemma_complex_turn<A: Arithmetic>(a: Complex, b: Complex)
    requires
        unrounded::<A>(),
        settled::<A>(a),
        settled::<A>(b),
    ensures
        a.multiplied::<A>(b) == b.multiplied::<A>(a),
{
    lemma_product_parts::<A>(a, b);
    lemma_product_parts::<A>(b, a);
    reals::lemma_times::<A>(a.re, b.re);
    reals::lemma_times::<A>(a.im, b.im);
    reals::lemma_times::<A>(a.re, b.im);
    reals::lemma_times::<A>(a.im, b.re);
    reals::lemma_plus::<A>(times_of::<A>(a.re, b.im), times_of::<A>(a.im, b.re));
}

/// A product of complex numbers with a sum is the sum of the products.
proof fn lemma_complex_distribute<A: Arithmetic>(a: Complex, b: Complex, c: Complex)
    requires
        unrounded::<A>(),
        settled::<A>(a),
        settled::<A>(b),
        settled::<A>(c),
    ensures
        a.added::<A>(b).multiplied::<A>(c) == a.multiplied::<A>(c).added::<A>(b.multiplied::<A>(c)),
{
    assert(plain::<A>(a.re) && plain::<A>(a.im) && plain::<A>(b.re) && plain::<A>(b.im)
        && plain::<A>(c.re) && plain::<A>(c.im));
    let sum = a.added::<A>(b);
    reals::lemma_plus::<A>(a.re, b.re);
    reals::lemma_plus::<A>(a.im, b.im);
    lemma_product_parts::<A>(sum, c);
    lemma_product_parts::<A>(a, c);
    lemma_product_parts::<A>(b, c);
    reals::lemma_distribute::<A>(a.re, b.re, c.re);
    reals::lemma_distribute::<A>(a.im, b.im, c.im);
    reals::lemma_distribute::<A>(a.re, b.re, c.im);
    reals::lemma_distribute::<A>(a.im, b.im, c.re);
    let arr = times_of::<A>(a.re, c.re);
    let brr = times_of::<A>(b.re, c.re);
    let aii = times_of::<A>(a.im, c.im);
    let bii = times_of::<A>(b.im, c.im);
    let ari = times_of::<A>(a.re, c.im);
    let bri = times_of::<A>(b.re, c.im);
    let air = times_of::<A>(a.im, c.re);
    let bir = times_of::<A>(b.im, c.re);
    reals::lemma_times::<A>(a.re, c.re);
    reals::lemma_times::<A>(b.re, c.re);
    reals::lemma_times::<A>(a.im, c.im);
    reals::lemma_times::<A>(b.im, c.im);
    reals::lemma_times::<A>(a.re, c.im);
    reals::lemma_times::<A>(b.re, c.im);
    reals::lemma_times::<A>(a.im, c.re);
    reals::lemma_times::<A>(b.im, c.re);
    reals::lemma_opposite::<A>(aii, aii);
    reals::lemma_opposite::<A>(bii, bii);
    reals::lemma_opposite_sum::<A>(aii, bii);
    reals::lemma_exchange::<A>(arr, brr, opposite::<A>(aii), opposite::<A>(bii));
    reals::lemma_exchange::<A>(ari, bri, air, bir);
}

/// `(p - q) * c` as a sum of products.
proof fn lemma_difference_times<A: Arithmetic>(p: u64, q: u64, c: u64)
    requires
        unrounded::<A>(),
        plain::<A>(p),
        plain::<A>(q),
        plain::<A>(c),
    ensures
        times_of::<A>(plus_of::<A>(p, opposite::<A>(q)), c) == plus_of::<A>(
            times_of::<A>(p, c),
            opposite::<A>(times_of::<A>(q, c)),
        ),
{
    reals::lemma_opposite::<A>(p, q);
    reals::lemma_distribute::<A>(p, opposite::<A>(q), c);
    reals::lemma_opposite_product::<A>(q, c);
}

/// The four products of three that a part of a product of three complex numbers is made of, on the
/// left: `((p - q) * c) - ((r + s) * d)`.
proof fn lemma_left_expanded<A: Arithmetic>(p: u64, q: u64, r: u64, s: u64, c: u64, d: u64)
    requires
        unrounded::<A>(),
        plain::<A>(p),
        plain::<A>(q),
        plain::<A>(r),
        plain::<A>(s),
        plain::<A>(c),
        plain::<A>(d),
    ensures
        plus_of::<A>(
            times_of::<A>(plus_of::<A>(p, opposite::<A>(q)), c),
            opposite::<A>(times_of::<A>(plus_of::<A>(r, s), d)),
        ) == plus_of::<A>(
            plus_of::<A>(times_of::<A>(p, c), opposite::<A>(times_of::<A>(r, d))),
            opposite::<A>(plus_of::<A>(times_of::<A>(q, c), times_of::<A>(s, d))),
        ),
        plus_of::<A>(
            times_of::<A>(plus_of::<A>(p, opposite::<A>(q)), d),
            times_of::<A>(plus_of::<A>(r, s), c),
        ) == plus_of::<A>(
            plus_of::<A>(times_of::<A>(p, d), times_of::<A>(r, c)),
            plus_of::<A>(times_of::<A>(s, c), opposite::<A>(times_of::<A>(q, d))),
        ),
{
    let pc = times_of::<A>(p, c);
    let qc = times_of::<A>(q, c);
    let rd = times_of::<A>(r, d);
    let sd = times_of::<A>(s, d);
    let pd = times_of::<A>(p, d);
    let qd = times_of::<A>(q, d);
    let rc = times_of::<A>(r, c);
    let sc = times_of::<A>(s, c);
    reals::lemma_times::<A>(p, c);
    reals::lemma_times::<A>(q, c);
    reals::lemma_times::<A>(r, d);
    reals::lemma_times::<A>(s, d);
    reals::lemma_times::<A>(p, d);
    reals::lemma_times::<A>(q, d);
    reals::lemma_times::<A>(r, c);
    reals::lemma_times::<A>(s, c);
    lemma_difference_times::<A>(p, q, c);
    lemma_difference_times::<A>(p, q, d);
    reals::lemma_distribute::<A>(r, s, d);
    reals::lemma_distribute::<A>(r, s, c);
    reals::lemma_opposite_sum::<A>(rd, sd);
    reals::lemma_opposite_sum::<A>(qc, sd);
    reals::lemma_opposite::<A>(pc, qc);
    reals::lemma_opposite::<A>(pc, rd);
    reals::lemma_opposite::<A>(pc, sd);
    reals::lemma_opposite::<A>(pd, qd);
    let nq = opposite::<A>(qc);
    let nr = opposite::<A>(rd);
    let ns = opposite::<A>(sd);
    let nd = opposite::<A>(qd);
    reals::lemma_exchange::<A>(pc, nq, nr, ns);
    reals::lemma_exchange::<A>(pd, nd, rc, sc);
    reals::lemma_plus::<A>(nd, sc);
}

/// Products of complex numbers can be bracketed either way.
proof fn lemma_complex_bracket<A: Arithmetic>(a: Complex, b: Complex, c: Complex)
    requires
        unrounded::<A>(),
        settled::<A>(a),
        settled::<A>(b),
        settled::<A>(c),
    ensures
        a.multiplied::<A>(b).multiplied::<A>(c) == a.multiplied::<A>(b.multiplied::<A>(c)),
{
    assert(plain::<A>(a.re) && plain::<A>(a.im) && plain::<A>(b.re) && plain::<A>(b.im)
        && plain::<A>(c.re) && plain::<A>(c.im));
    let ab = a.multiplied::<A>(b);
    let bc = b.multiplied::<A>(c);
    lemma_product_parts::<A>(a, b);
    lemma_product_parts::<A>(b, c);
    lemma_product_parts::<A>(ab, c);
    lemma_product_parts::<A>(bc, a);
    lemma_complex_turn::<A>(a, bc);
    reals::lemma_times::<A>(a.re, b.re);
    reals::lemma_times::<A>(a.im, b.im);
    reals::lemma_times::<A>(a.re, b.im);
    reals::lemma_times::<A>(a.im, b.re);
    reals::lemma_times::<A>(b.re, c.re);
    reals::lemma_times::<A>(b.im, c.im);
    reals::lemma_times::<A>(b.re, c.im);
    reals::lemma_times::<A>(b.im, c.re);
    lemma_left_expanded::<A>(
        times_of::<A>(a.re, b.re),
        times_of::<A>(a.im, b.im),
        times_of::<A>(a.re, b.im),
        times_of::<A>(a.im, b.re),
        c.re,
        c.im,
    );
    lemma_left_expanded::<A>(
        times_of::<A>(b.re, c.re),
        times_of::<A>(b.im, c.im),
        times_of::<A>(b.re, c.im),
        times_of::<A>(b.im, c.re),
        a.re,
        a.im,
    );
    lemma_cycled::<A>(a.re, b.re, c.re);
    lemma_cycled::<A>(a.im, b.im, c.re);
    lemma_cycled::<A>(a.re, b.im, c.im);
    lemma_cycled::<A>(a.im, b.re, c.im);
    lemma_cycled::<A>(a.re, b.re, c.im);
    lemma_cycled::<A>(a.im, b.im, c.im);
    lemma_cycled::<A>(a.re, b.im, c.re);
    lemma_cycled::<A>(a.im, b.re, c.re);
    lemma_real_regrouped::<A>(
        times_of::<A>(times_of::<A>(a.re, b.re), c.re),
        times_of::<A>(times_of::<A>(a.re, b.im), c.im),
        times_of::<A>(times_of::<A>(a.im, b.im), c.re),
        times_of::<A>(times_of::<A>(a.im, b.re), c.im),
    );
    lemma_regrouped::<A>(
        times_of::<A>(times_of::<A>(a.re, b.re), c.im),
        times_of::<A>(times_of::<A>(a.re, b.im), c.re),
        times_of::<A>(times_of::<A>(a.im, b.re), c.re),
        times_of::<A>(times_of::<A>(a.im, b.im), c.im),
    );
}

/// `(x * y) * z` is `(y * z) * x`, and plain.
proof fn lemma_cycled<A: Arithmetic>(x: u64, y: u64, z: u64)
    requires
        unrounded::<A>(),
        plain::<A>(x),
        plain::<A>(y),
        plain::<A>(z),
    ensures
        times_of::<A>(times_of::<A>(x, y), z) == times_of::<A>(times_of::<A>(y, z), x),
        plain::<A>(times_of::<A>(times_of::<A>(x, y), z)),
{
    reals::lemma_times_assoc::<A>(x, y, z);
    reals::lemma_times::<A>(x, y);
    reals::lemma_times::<A>(y, z);
    reals::lemma_times::<A>(x, times_of::<A>(y, z));
    reals::lemma_times::<A>(times_of::<A>(x, y), z);
}

/// `(u - v) - (s + t)` is `(u - t) - (v + s)`.
proof fn lemma_real_regrouped<A: Arithmetic>(u: u64, v: u64, s: u64, t: u64)
    requires
        unrounded::<A>(),
        plain::<A>(u),
        plain::<A>(v),
        plain::<A>(s),
        plain::<A>(t),
    ensures
        plus_of::<A>(plus_of::<A>(u, opposite::<A>(v)), opposite::<A>(plus_of::<A>(s, t)))
            == plus_of::<A>(plus_of::<A>(u, opposite::<A>(t)), opposite::<A>(plus_of::<A>(v, s))),
{
    let x = opposite::<A>(v);
    let y = opposite::<A>(s);
    let z = opposite::<A>(t);
    reals::lemma_opposite::<A>(u, v);
    reals::lemma_opposite::<A>(u, s);
    reals::lemma_opposite::<A>(u, t);
    reals::lemma_opposite_sum::<A>(s, t);
    reals::lemma_opposite_sum::<A>(v, s);
    reals::lemma_plus::<A>(y, z);
    reals::lemma_exchange::<A>(u, x, z, y);
}

/// `(u + v) + (s - q)` is `(s + u) + (v - q)`.
proof fn lemma_regrouped<A: Arithmetic>(u: u64, v: u64, s: u64, q: u64)
    requires
        unrounded::<A>(),
        plain::<A>(u),
        plain::<A>(v),
        plain::<A>(s),
        plain::<A>(q),
    ensures
        plus_of::<A>(plus_of::<A>(u, v), plus_of::<A>(s, opposite::<A>(q))) == plus_of::<A>(
            plus_of::<A>(s, u),
            plus_of::<A>(v, opposite::<A>(q)),
        ),
{
    let n = opposite::<A>(q);
    reals::lemma_opposite::<A>(s, q);
    reals::lemma_exchange::<A>(u, v, s, n);
    reals::lemma_plus::<A>(u, s);
}

/// Where plain numbers obey the rules of a field, complex numbers with plain parts obey those of a
/// commutative ring.
pub proof fn law_unrounded_complex_numbers_are_exact<A: Arithmetic>()
    requires
        unrounded::<A>(),
    ensures
        exact::<A>(),
{
    assert(plain::<A>(ZERO) && plain::<A>(ONE)) by {
        reveal(combined);
    }
    assert forall|a: Complex, b: Complex| settled::<A>(a) && settled::<A>(b) implies settled::<A>(
        #[trigger] a.added::<A>(b),
    ) && a.added::<A>(b) == b.added::<A>(a) by {
        reals::lemma_plus::<A>(a.re, b.re);
        reals::lemma_plus::<A>(a.im, b.im);
    }
    assert forall|a: Complex, b: Complex| settled::<A>(a) && settled::<A>(b) implies settled::<A>(
        #[trigger] a.multiplied::<A>(b),
    ) && a.multiplied::<A>(b) == b.multiplied::<A>(a) by {
        lemma_product_parts::<A>(a, b);
        lemma_complex_turn::<A>(a, b);
    }
    assert forall|a: Complex, b: Complex, c: Complex|
        settled::<A>(a) && settled::<A>(b) && settled::<A>(c) implies #[trigger] a.added::<A>(
        b,
    ).added::<A>(c) == a.added::<A>(b.added::<A>(c)) by {
        reals::lemma_plus_assoc::<A>(a.re, b.re, c.re);
        reals::lemma_plus_assoc::<A>(a.im, b.im, c.im);
    }
    assert forall|a: Complex, b: Complex, c: Complex|
        settled::<A>(a) && settled::<A>(b) && settled::<A>(c) implies #[trigger] a.multiplied::<A>(
        b,
    ).multiplied::<A>(c) == a.multiplied::<A>(b.multiplied::<A>(c)) by {
        lemma_complex_bracket::<A>(a, b, c);
    }
    assert forall|a: Complex, b: Complex, c: Complex|
        settled::<A>(a) && settled::<A>(b) && settled::<A>(c) implies #[trigger] a.added::<A>(
        b,
    ).multiplied::<A>(c) == a.multiplied::<A>(c).added::<A>(b.multiplied::<A>(c)) by {
        lemma_complex_distribute::<A>(a, b, c);
    }
    assert forall|a: Complex| settled::<A>(a) implies #[trigger] a.multiplied::<A>(one()) == a by {
        lemma_product_parts::<A>(a, one());
        reals::lemma_units::<A>(a.re);
        reals::lemma_units::<A>(a.im);
        reals::lemma_opposite::<A>(a.re, ZERO);
        reals::lemma_units::<A>(opposite::<A>(ZERO));
    }
    assert forall|a: Complex| settled::<A>(a) implies #[trigger] zero().multiplied::<A>(a) == zero() by {
        lemma_product_parts::<A>(zero(), a);
        reals::lemma_units::<A>(a.re);
        reals::lemma_units::<A>(a.im);
        reals::lemma_units::<A>(ZERO);
        reals::lemma_opposite::<A>(ZERO, ZERO);
    }
    reveal(exact);
}

/// A sum of two is settled and does not depend on their order.
proof fn lemma_add<A: Arithmetic>(a: Complex, b: Complex)
    requires
        exact::<A>(),
        settled::<A>(a),
        settled::<A>(b),
    ensures
        settled::<A>(a.added::<A>(b)),
        a.added::<A>(b) == b.added::<A>(a),
{
    reveal(exact);
}

/// Sums can be bracketed either way.
proof fn lemma_add_assoc<A: Arithmetic>(a: Complex, b: Complex, c: Complex)
    requires
        exact::<A>(),
        settled::<A>(a),
        settled::<A>(b),
        settled::<A>(c),
    ensures
        a.added::<A>(b).added::<A>(c) == a.added::<A>(b.added::<A>(c)),
{
    reveal(exact);
}

/// A product of two is settled and does not depend on their order.
proof fn lemma_mul<A: Arithmetic>(a: Complex, b: Complex)
    requires
        exact::<A>(),
        settled::<A>(a),
        settled::<A>(b),
    ensures
        settled::<A>(a.multiplied::<A>(b)),
        a.multiplied::<A>(b) == b.multiplied::<A>(a),
{
    reveal(exact);
}

/// Products can be bracketed either way.
proof fn lemma_mul_assoc<A: Arithmetic>(a: Complex, b: Complex, c: Complex)
    requires
        exact::<A>(),
        settled::<A>(a),
        settled::<A>(b),
        settled::<A>(c),
    ensures
        a.multiplied::<A>(b).multiplied::<A>(c) == a.multiplied::<A>(b.multiplied::<A>(c)),
{
    reveal(exact);
}

/// A product with a sum is the sum of the products.
proof fn lemma_distribute<A: Arithmetic>(a: Complex, b: Complex, c: Complex)
    requires
        exact::<A>(),
        settled::<A>(a),
        settled::<A>(b),
        settled::<A>(c),
    ensures
        a.added::<A>(b).multiplied::<A>(c) == a.multiplied::<A>(c).added::<A>(b.multiplied::<A>(c)),
{
    reveal(exact);
}

/// One and zero do what they should.
proof fn lemma_units<A: Arithmetic>(a: Complex)
    requires
        exact::<A>(),
        settled::<A>(a),
    ensures
        settled::<A>(zero()),
        settled::<A>(one()),
        a.multiplied::<A>(one()) == a,
        zero().multiplied::<A>(a) == zero(),
{
    reveal(exact);
}

/// `(a + b) + (c + d)` is `(a + c) + (b + d)`.
proof fn lemma_exchange<A: Arithmetic>(a: Complex, b: Complex, c: Complex, d: Complex)
    requires
        exact::<A>(),
        settled::<A>(a),
        settled::<A>(b),
        settled::<A>(c),
        settled::<A>(d),
    ensures
        a.added::<A>(b).added::<A>(c.added::<A>(d)) == a.added::<A>(c).added::<A>(b.added::<A>(d)),
{
    lemma_add::<A>(c, d);
    lemma_add::<A>(b, c);
    lemma_add::<A>(b, d);
    lemma_add::<A>(c, b);
    lemma_add_assoc::<A>(a, b, c.added::<A>(d));
    lemma_add_assoc::<A>(b, c, d);
    lemma_add_assoc::<A>(c, b, d);
    lemma_add_assoc::<A>(a, c, b.added::<A>(d));
}

/// The sum of the first `n` values of a function, in order.
pub open spec fn sum<A: Arithmetic>(f: spec_fn(int) -> Complex, n: nat) -> Complex
    decreases n,
{
    if n == 0 {
        zero()
    } else {
        sum::<A>(f, (n - 1) as nat).added::<A>(f(n - 1))
    }
}

/// The first `n` values of a function are settled.
pub open spec fn all_settled<A: Arithmetic>(f: spec_fn(int) -> Complex, n: nat) -> bool {
    forall|i: int| 0 <= i < n ==> settled::<A>(#[trigger] f(i))
}

/// A sum of settled numbers is settled.
proof fn lemma_sum_settled<A: Arithmetic>(f: spec_fn(int) -> Complex, n: nat)
    requires
        exact::<A>(),
        all_settled::<A>(f, n),
    ensures
        settled::<A>(sum::<A>(f, n)),
    decreases n,
{
    if n == 0 {
        reveal(exact);
    } else {
        lemma_sum_settled::<A>(f, (n - 1) as nat);
        lemma_add::<A>(sum::<A>(f, (n - 1) as nat), f(n - 1));
    }
}

/// Functions with the same first values have the same sum.
proof fn lemma_sum_same<A: Arithmetic>(f: spec_fn(int) -> Complex, g: spec_fn(int) -> Complex, n: nat)
    requires
        forall|i: int| 0 <= i < n ==> #[trigger] f(i) == g(i),
    ensures
        sum::<A>(f, n) == sum::<A>(g, n),
    decreases n,
{
    if n > 0 {
        lemma_sum_same::<A>(f, g, (n - 1) as nat);
    }
}

/// A sum times a number is the sum of the products.
proof fn lemma_sum_scaled<A: Arithmetic>(f: spec_fn(int) -> Complex, n: nat, c: Complex)
    requires
        exact::<A>(),
        all_settled::<A>(f, n),
        settled::<A>(c),
    ensures
        sum::<A>(f, n).multiplied::<A>(c) == sum::<A>(|i: int| f(i).multiplied::<A>(c), n),
    decreases n,
{
    if n == 0 {
        lemma_units::<A>(c);
    } else {
        let prior = (n - 1) as nat;
        lemma_sum_scaled::<A>(f, prior, c);
        lemma_sum_settled::<A>(f, prior);
        lemma_distribute::<A>(sum::<A>(f, prior), f(n - 1), c);
    }
}

/// The sum of sums is the sum, term by term.
proof fn lemma_sum_added<A: Arithmetic>(f: spec_fn(int) -> Complex, g: spec_fn(int) -> Complex, n: nat)
    requires
        exact::<A>(),
        all_settled::<A>(f, n),
        all_settled::<A>(g, n),
    ensures
        sum::<A>(f, n).added::<A>(sum::<A>(g, n)) == sum::<A>(|i: int| f(i).added::<A>(g(i)), n),
    decreases n,
{
    if n == 0 {
        reveal(exact);
    } else {
        let prior = (n - 1) as nat;
        lemma_sum_added::<A>(f, g, prior);
        lemma_sum_settled::<A>(f, prior);
        lemma_sum_settled::<A>(g, prior);
        lemma_exchange::<A>(sum::<A>(f, prior), f(n - 1), sum::<A>(g, prior), g(n - 1));
    }
}

/// A sum of zeros is zero.
proof fn lemma_sum_of_zeros<A: Arithmetic>(f: spec_fn(int) -> Complex, n: nat)
    requires
        exact::<A>(),
        forall|i: int| 0 <= i < n ==> #[trigger] f(i) == zero(),
    ensures
        sum::<A>(f, n) == zero(),
    decreases n,
{
    if n > 0 {
        lemma_sum_of_zeros::<A>(f, (n - 1) as nat);
        reveal(exact);
    }
}

/// A sum with one term that is not zero is that term.
proof fn lemma_sum_of_one<A: Arithmetic>(f: spec_fn(int) -> Complex, n: nat, k: int)
    requires
        exact::<A>(),
        0 <= k < n,
        settled::<A>(f(k)),
        forall|i: int| 0 <= i < n && i != k ==> #[trigger] f(i) == zero(),
    ensures
        sum::<A>(f, n) == f(k),
    decreases n,
{
    let prior = (n - 1) as nat;
    if k == n - 1 {
        lemma_sum_of_zeros::<A>(f, prior);
    } else {
        lemma_sum_of_one::<A>(f, prior, k);
        lemma_units::<A>(f(k));
        lemma_add::<A>(f(k), zero());
    }
}

/// A sum over an even number of terms is that over the even places and that over the odd ones.
proof fn lemma_sum_split<A: Arithmetic>(f: spec_fn(int) -> Complex, h: nat)
    requires
        exact::<A>(),
        all_settled::<A>(f, 2 * h),
    ensures
        sum::<A>(f, 2 * h) == sum::<A>(|j: int| f(2 * j), h).added::<A>(
            sum::<A>(|j: int| f(2 * j + 1), h),
        ),
    decreases h,
{
    let even = |j: int| f(2 * j);
    let odd = |j: int| f(2 * j + 1);
    if h == 0 {
        reveal(exact);
    } else {
        let prior = (h - 1) as nat;
        lemma_sum_split::<A>(f, prior);
        assert forall|i: int| 0 <= i < prior implies settled::<A>(#[trigger] even(i)) by {
            assert(settled::<A>(f(2 * i)));
        }
        assert forall|i: int| 0 <= i < prior implies settled::<A>(#[trigger] odd(i)) by {
            assert(settled::<A>(f(2 * i + 1)));
        }
        lemma_sum_settled::<A>(even, prior);
        lemma_sum_settled::<A>(odd, prior);
        let e = sum::<A>(even, prior);
        let o = sum::<A>(odd, prior);
        let a = f(2 * h - 2);
        let b = f(2 * h - 1);
        assert(settled::<A>(a));
        assert(settled::<A>(b));
        assert(sum::<A>(f, (2 * h - 1) as nat) == sum::<A>(f, 2 * prior).added::<A>(a));
        assert(sum::<A>(f, 2 * h) == sum::<A>(f, (2 * h - 1) as nat).added::<A>(b));
        lemma_add::<A>(e, o);
        lemma_add_assoc::<A>(e.added::<A>(o), a, b);
        lemma_exchange::<A>(e, o, a, b);
        assert(even(h - 1) == a);
        assert(odd(h - 1) == b);
    }
}

/// Sums over two indices can be taken in either order.
proof fn lemma_sums_exchange<A: Arithmetic>(f: spec_fn(int, int) -> Complex, n: nat, m: nat)
    requires
        exact::<A>(),
        forall|i: int, k: int| 0 <= i < n && 0 <= k < m ==> settled::<A>(#[trigger] f(i, k)),
    ensures
        sum::<A>(|i: int| sum::<A>(|k: int| f(i, k), m), n) == sum::<A>(
            |k: int| sum::<A>(|i: int| f(i, k), n),
            m,
        ),
    decreases n,
{
    let turned = |k: int| sum::<A>(|i: int| f(i, k), n);
    if n == 0 {
        lemma_sum_of_zeros::<A>(turned, m);
    } else {
        let prior = (n - 1) as nat;
        lemma_sums_exchange::<A>(f, prior, m);
        let before = |k: int| sum::<A>(|i: int| f(i, k), prior);
        let last = |k: int| f(n - 1, k);
        assert forall|k: int| 0 <= k < m implies settled::<A>(#[trigger] before(k)) by {
            let g = |i: int| f(i, k);
            assert forall|i: int| 0 <= i < prior implies settled::<A>(#[trigger] g(i)) by {}
            lemma_sum_settled::<A>(g, prior);
        }
        assert forall|k: int| 0 <= k < m implies settled::<A>(#[trigger] last(k)) by {}
        lemma_sum_added::<A>(before, last, m);
        let joined = |k: int| before(k).added::<A>(last(k));
        assert forall|k: int| 0 <= k < m implies #[trigger] joined(k) == turned(k) by {
            let g = |i: int| f(i, k);
        }
        lemma_sum_same::<A>(joined, turned, m);
    }
}

/// Powers are settled.
proof fn lemma_power_settled<A: Arithmetic>(root: Complex, k: nat)
    requires
        exact::<A>(),
        settled::<A>(root),
    ensures
        settled::<A>(power_of::<A>(root, k)),
    decreases k,
{
    if k == 0 {
        reveal(exact);
    } else {
        lemma_power_settled::<A>(root, (k - 1) as nat);
        lemma_mul::<A>(power_of::<A>(root, (k - 1) as nat), root);
    }
}

/// Exponents add.
proof fn lemma_power_added<A: Arithmetic>(root: Complex, a: nat, b: nat)
    requires
        exact::<A>(),
        settled::<A>(root),
    ensures
        power_of::<A>(root, a + b) == power_of::<A>(root, a).multiplied::<A>(power_of::<A>(root, b)),
    decreases b,
{
    lemma_power_settled::<A>(root, a);
    if b == 0 {
        lemma_units::<A>(power_of::<A>(root, a));
    } else {
        let prior = (b - 1) as nat;
        lemma_power_added::<A>(root, a, prior);
        lemma_power_settled::<A>(root, prior);
        lemma_mul_assoc::<A>(power_of::<A>(root, a), power_of::<A>(root, prior), root);
    }
}

/// Exponents multiply.
proof fn lemma_power_powered<A: Arithmetic>(root: Complex, a: nat, b: nat)
    requires
        exact::<A>(),
        settled::<A>(root),
    ensures
        power_of::<A>(power_of::<A>(root, a), b) == power_of::<A>(root, a * b),
    decreases b,
{
    if b == 0 {
        assert(a * 0 == 0);
    } else {
        let prior = (b - 1) as nat;
        lemma_power_powered::<A>(root, a, prior);
        lemma_power_added::<A>(root, a * prior, a);
        assert(a * prior + a == a * b) by (nonlinear_arith)
            requires
                prior == b - 1,
        ;
        assert(0 <= a * prior) by (nonlinear_arith)
            requires
                0 <= a,
                0 <= prior,
        ;
    }
}

/// Powers of one are one.
proof fn lemma_one_powered<A: Arithmetic>(k: nat)
    requires
        exact::<A>(),
    ensures
        power_of::<A>(one(), k) == one(),
    decreases k,
{
    if k > 0 {
        lemma_one_powered::<A>((k - 1) as nat);
        reveal(exact);
    }
}

/// The roots that the stages of a halving transform of length `two_to(m)` step by: each is the square
/// of the next, the first is one, and half a turn changes the sign.
pub open spec fn roots_fit<A: Arithmetic>(dir: u64, m: nat) -> bool {
    &&& stage_root::<A>(dir, 1) == one()
    &&& forall|s: nat| s <= m ==> settled::<A>(#[trigger] stage_root::<A>(dir, two_to(s) as int))
    &&& forall|s: nat|
        s < m ==> #[trigger] power_of::<A>(stage_root::<A>(dir, two_to(s + 1) as int), 2)
            == stage_root::<A>(dir, two_to(s) as int)
    &&& forall|s: nat, u: Complex, v: Complex|
        s < m && settled::<A>(u) && settled::<A>(v) ==> #[trigger] u.subtracted::<A>(v) == u.added::<A>(
            v.multiplied::<A>(
                #[trigger] power_of::<A>(stage_root::<A>(dir, two_to(s + 1) as int), two_to(s)),
            ),
        )
}

/// A whole turn of a stage's root is one.
proof fn lemma_whole_turn<A: Arithmetic>(dir: u64, m: nat, s: nat)
    requires
        exact::<A>(),
        roots_fit::<A>(dir, m),
        s <= m,
    ensures
        power_of::<A>(stage_root::<A>(dir, two_to(s) as int), two_to(s)) == one(),
    decreases s,
{
    let root = stage_root::<A>(dir, two_to(s) as int);
    if s == 0 {
        lemma_one_powered::<A>(1);
    } else {
        let prior = (s - 1) as nat;
        lemma_whole_turn::<A>(dir, m, prior);
        assert(power_of::<A>(stage_root::<A>(dir, two_to(prior + 1) as int), 2) == stage_root::<A>(
            dir,
            two_to(prior) as int,
        ));
        lemma_power_powered::<A>(root, 2, two_to(prior));
    }
}

/// Term `j` of bin `k` of the transform of `len` numbers from `offset` on in steps of `stride`.
spec fn term<A: Arithmetic>(
    x: Seq<Complex>,
    offset: int,
    stride: int,
    root: Complex,
    k: nat,
    j: int,
) -> Complex {
    x[offset + j * stride].multiplied::<A>(power_of::<A>(root, (k * j) as nat))
}

/// The numbers that a transform reads are settled.
spec fn read_settled<A: Arithmetic>(x: Seq<Complex>, offset: int, stride: int, len: nat) -> bool {
    forall|j: int| 0 <= j < len ==> settled::<A>(#[trigger] x[offset + j * stride])
}

/// A term is settled.
proof fn lemma_term_settled<A: Arithmetic>(
    x: Seq<Complex>,
    offset: int,
    stride: int,
    len: nat,
    root: Complex,
    k: nat,
    j: int,
)
    requires
        exact::<A>(),
        read_settled::<A>(x, offset, stride, len),
        settled::<A>(root),
        0 <= j < len,
    ensures
        settled::<A>(term::<A>(x, offset, stride, root, k, j)),
{
    lemma_power_settled::<A>(root, (k * j) as nat);
    lemma_mul::<A>(x[offset + j * stride], power_of::<A>(root, (k * j) as nat));
}

/// A term at an even place, and one at an odd place, from the terms of the halves.
proof fn lemma_half_terms<A: Arithmetic>(
    x: Seq<Complex>,
    offset: int,
    stride: int,
    h: nat,
    root: Complex,
    half_root: Complex,
    k: nat,
    lane: nat,
    j: int,
)
    requires
        exact::<A>(),
        read_settled::<A>(x, offset, stride, 2 * h),
        settled::<A>(root),
        settled::<A>(half_root),
        power_of::<A>(root, 2) == half_root,
        power_of::<A>(half_root, h) == one(),
        k == lane || k == lane + h,
        0 <= j < h,
    ensures
        term::<A>(x, offset, stride, root, k, 2 * j) == term::<A>(
            x,
            offset,
            2 * stride,
            half_root,
            lane,
            j,
        ),
        term::<A>(x, offset, stride, root, k, 2 * j + 1) == term::<A>(
            x,
            offset + stride,
            2 * stride,
            half_root,
            lane,
            j,
        ).multiplied::<A>(power_of::<A>(root, k)),
{
    let even = x[offset + (2 * j) * stride];
    let odd = x[offset + (2 * j + 1) * stride];
    assert(settled::<A>(even));
    assert(settled::<A>(odd));
    assert(offset + (2 * j) * stride == offset + j * (2 * stride)) by (nonlinear_arith);
    assert(offset + (2 * j + 1) * stride == offset + stride + j * (2 * stride)) by (nonlinear_arith);
    assert(0 <= k * j && 0 <= lane * j) by (nonlinear_arith)
        requires
            0 <= k,
            0 <= lane,
            0 <= j,
    ;
    let kj = (k * j) as nat;
    let lj = (lane * j) as nat;
    lemma_power_powered::<A>(root, 2, kj);
    assert(k * (2 * j) == 2 * (k * j)) by (nonlinear_arith);
    assert(k * (2 * j + 1) == 2 * (k * j) + k) by (nonlinear_arith);
    assert(power_of::<A>(root, 2 * kj) == power_of::<A>(half_root, kj));
    assert(power_of::<A>(half_root, kj) == power_of::<A>(half_root, lj)) by {
        if k == lane + h {
            assert(k * j == lane * j + h * j) by (nonlinear_arith)
                requires
                    k == lane + h,
            ;
            assert(0 <= h * j) by (nonlinear_arith)
                requires
                    0 <= h,
                    0 <= j,
            ;
            let hj = (h * j) as nat;
            lemma_power_added::<A>(half_root, lj, hj);
            lemma_power_powered::<A>(half_root, h, j as nat);
            lemma_one_powered::<A>(j as nat);
            lemma_power_settled::<A>(half_root, lj);
            lemma_units::<A>(power_of::<A>(half_root, lj));
        }
    }
    lemma_power_added::<A>(root, 2 * kj, k);
    lemma_power_settled::<A>(half_root, lj);
    lemma_power_settled::<A>(root, k);
    lemma_mul_assoc::<A>(odd, power_of::<A>(half_root, lj), power_of::<A>(root, k));
}

/// A bin of the halving transform is the sum of its terms.
proof fn lemma_halved_is_sum<A: Arithmetic>(
    x: Seq<Complex>,
    offset: int,
    stride: int,
    m: nat,
    s: nat,
    dir: u64,
    k: nat,
)
    requires
        exact::<A>(),
        roots_fit::<A>(dir, m),
        s <= m,
        read_settled::<A>(x, offset, stride, two_to(s)),
        k < two_to(s),
    ensures
        halved::<A>(x, offset, stride, two_to(s), dir)[k as int] == sum::<A>(
            |j: int|
                term::<A>(x, offset, stride, stage_root::<A>(dir, two_to(s) as int), k, j),
            two_to(s),
        ),
    decreases s,
{
    let root = stage_root::<A>(dir, two_to(s) as int);
    let f = |j: int| term::<A>(x, offset, stride, root, k, j);
    assert(settled::<A>(root));
    if s == 0 {
        assert(two_to(0) == 1);
        assert(k * 0 == 0);
        assert(0 * stride == 0);
        assert(settled::<A>(x[offset + 0 * stride]));
        lemma_units::<A>(x[offset]);
        assert(f(0) == x[offset]);
        assert(sum::<A>(f, 0) == zero());
        assert(sum::<A>(f, 1) == zero().added::<A>(f(0)));
    } else {
        let prior = (s - 1) as nat;
        let h = two_to(prior);
        lemma_two_to_positive(prior);
        let half_root = stage_root::<A>(dir, h as int);
        assert(settled::<A>(half_root));
        assert(power_of::<A>(stage_root::<A>(dir, two_to(prior + 1) as int), 2) == half_root);
        lemma_whole_turn::<A>(dir, m, prior);
        let lane: nat = if k < h {
            k
        } else {
            (k - h) as nat
        };
        assert forall|j: int| 0 <= j < h implies settled::<A>(#[trigger] x[offset + j * (2 * stride)]) by {
            assert(offset + j * (2 * stride) == offset + (2 * j) * stride) by (nonlinear_arith);
            assert(settled::<A>(x[offset + (2 * j) * stride]));
        }
        assert forall|j: int| 0 <= j < h implies settled::<A>(
            #[trigger] x[offset + stride + j * (2 * stride)],
        ) by {
            assert(offset + stride + j * (2 * stride) == offset + (2 * j + 1) * stride)
                by (nonlinear_arith);
            assert(settled::<A>(x[offset + (2 * j + 1) * stride]));
        }
        lemma_halved_is_sum::<A>(x, offset, 2 * stride, m, prior, dir, lane);
        lemma_halved_is_sum::<A>(x, offset + stride, 2 * stride, m, prior, dir, lane);
        let even_term = |j: int| term::<A>(x, offset, 2 * stride, half_root, lane, j);
        let odd_term = |j: int| term::<A>(x, offset + stride, 2 * stride, half_root, lane, j);
        let even = sum::<A>(even_term, h);
        let odd = sum::<A>(odd_term, h);
        let turn = power_of::<A>(root, k);
        lemma_power_settled::<A>(root, k);
        assert forall|j: int| 0 <= j < h implies settled::<A>(#[trigger] even_term(j)) by {
            lemma_term_settled::<A>(x, offset, 2 * stride, h, half_root, lane, j);
        }
        assert forall|j: int| 0 <= j < h implies settled::<A>(#[trigger] odd_term(j)) by {
            lemma_term_settled::<A>(x, offset + stride, 2 * stride, h, half_root, lane, j);
        }
        lemma_sum_settled::<A>(even_term, h);
        lemma_sum_settled::<A>(odd_term, h);
        assert forall|j: int| 0 <= j < 2 * h implies settled::<A>(#[trigger] f(j)) by {
            lemma_term_settled::<A>(x, offset, stride, 2 * h, root, k, j);
        }
        lemma_sum_split::<A>(f, h);
        let even_place = |j: int| f(2 * j);
        let odd_place = |j: int| f(2 * j + 1);
        let turned_odd = |j: int| odd_term(j).multiplied::<A>(turn);
        assert forall|j: int| 0 <= j < h implies #[trigger] even_place(j) == even_term(j) by {
            lemma_half_terms::<A>(x, offset, stride, h, root, half_root, k, lane, j);
        }
        assert forall|j: int| 0 <= j < h implies #[trigger] odd_place(j) == turned_odd(j) by {
            lemma_half_terms::<A>(x, offset, stride, h, root, half_root, k, lane, j);
        }
        lemma_sum_same::<A>(even_place, even_term, h);
        lemma_sum_same::<A>(odd_place, turned_odd, h);
        lemma_sum_scaled::<A>(odd_term, h, turn);
        assert(sum::<A>(f, 2 * h) == even.added::<A>(odd.multiplied::<A>(turn)));
        assert(two_to(s) / 2 == h);
        if k >= h {
            let lane_turn = power_of::<A>(root, lane);
            let half_turn = power_of::<A>(root, h);
            lemma_power_settled::<A>(root, lane);
            lemma_power_settled::<A>(root, h);
            lemma_mul::<A>(odd, lane_turn);
            lemma_power_added::<A>(root, lane, h);
            lemma_mul_assoc::<A>(odd, lane_turn, half_turn);
            let v = odd.multiplied::<A>(lane_turn);
            assert(root == stage_root::<A>(dir, two_to(prior + 1) as int));
            assert(power_of::<A>(stage_root::<A>(dir, two_to(prior + 1) as int), two_to(prior))
                == half_turn);
            assert(even.subtracted::<A>(v) == even.added::<A>(v.multiplied::<A>(half_turn)));
        }
    }
}

/// The factors of the defining sum are the powers of the line's root.
pub open spec fn factors_fit<A: Arithmetic>(dir: u64, n: nat, root: Complex) -> bool {
    forall|k: int, j: int|
        0 <= k < n && 0 <= j < n ==> #[trigger] factor_of::<A>(dir, n as int, k, j) == power_of::<A>(
            root,
            (k * j) as nat,
        )
}

/// The numbers of a line are settled.
pub open spec fn line_settled<A: Arithmetic>(x: Seq<Complex>) -> bool {
    forall|j: int| 0 <= j < x.len() ==> settled::<A>(#[trigger] x[j])
}

/// The defining sum of a bin, as a sum of products with powers.
proof fn lemma_bin_is_sum<A: Arithmetic>(x: Seq<Complex>, dir: u64, root: Complex, k: int, m: nat)
    requires
        factors_fit::<A>(dir, x.len(), root),
        0 <= k < x.len(),
        m <= x.len(),
    ensures
        bin_sum::<A>(x, dir, k, m) == sum::<A>(
            |j: int| x[j].multiplied::<A>(power_of::<A>(root, (k * j) as nat)),
            m,
        ),
    decreases m,
{
    if m > 0 {
        lemma_bin_is_sum::<A>(x, dir, root, k, (m - 1) as nat);
        assert(factor_of::<A>(dir, x.len() as int, k, m - 1) == power_of::<A>(
            root,
            (k * (m - 1)) as nat,
        ));
    }
}

/// Transforming a line by halving and by its defining sum give one result, in an arithmetic that does
/// not round.
pub proof fn law_halving_is_the_defining_sum<A: Arithmetic>(x: Seq<Complex>, m: nat, dir: u64)
    requires
        exact::<A>(),
        x.len() == two_to(m),
        line_settled::<A>(x),
        roots_fit::<A>(dir, m),
        factors_fit::<A>(dir, x.len(), stage_root::<A>(dir, x.len() as int)),
    ensures
        halved::<A>(x, 0, 1, x.len(), dir) == summed::<A>(x, dir),
{
    let n = x.len();
    let root = stage_root::<A>(dir, n as int);
    lemma_halved_len::<A>(x, 0, 1, m, dir);
    assert forall|j: int| 0 <= j < two_to(m) implies settled::<A>(#[trigger] x[0 + j * 1]) by {}
    assert forall|k: int| 0 <= k < n implies #[trigger] halved::<A>(x, 0, 1, n, dir)[k] == summed::<A>(
        x,
        dir,
    )[k] by {
        lemma_halved_is_sum::<A>(x, 0, 1, m, m, dir, k as nat);
        lemma_bin_is_sum::<A>(x, dir, root, k, n);
        let f = |j: int| term::<A>(x, 0, 1, root, k as nat, j);
        let g = |j: int| x[j].multiplied::<A>(power_of::<A>(root, (k * j) as nat));
        assert forall|j: int| 0 <= j < n implies #[trigger] f(j) == g(j) by {}
        lemma_sum_same::<A>(f, g, n);
    }
}

/// The powers of a root and of its inverse are orthogonal: over a whole turn their products cancel,
/// unless they always are one, and then they add up to `count`.
pub open spec fn orthogonal<A: Arithmetic>(root: Complex, back: Complex, n: nat, count: Complex) -> bool {
    forall|j: int, l: int|
        0 <= j < n && 0 <= l < n ==> #[trigger] cross_sum::<A>(root, back, n, j, l) == (if j == l {
            count
        } else {
            zero()
        })
}

/// The sum over a whole turn of the products of two powers.
pub open spec fn cross_sum<A: Arithmetic>(root: Complex, back: Complex, n: nat, j: int, l: int) -> Complex {
    sum::<A>(
        |k: int|
            power_of::<A>(root, (k * j) as nat).multiplied::<A>(
                power_of::<A>(back, (l * k) as nat),
            ),
        n,
    )
}

/// Transforming a line forward and back gives every number times the number of numbers, in an
/// arithmetic that does not round.
pub proof fn law_inverse_undoes_forward<A: Arithmetic>(
    x: Seq<Complex>,
    dir: u64,
    back_dir: u64,
    root: Complex,
    back: Complex,
    count: Complex,
    l: int,
)
    requires
        exact::<A>(),
        line_settled::<A>(x),
        settled::<A>(root),
        settled::<A>(back),
        settled::<A>(count),
        factors_fit::<A>(dir, x.len(), root),
        factors_fit::<A>(back_dir, x.len(), back),
        orthogonal::<A>(root, back, x.len(), count),
        0 <= l < x.len(),
    ensures
        summed::<A>(summed::<A>(x, dir), back_dir)[l] == x[l].multiplied::<A>(count),
{
    let n = x.len();
    let y = summed::<A>(x, dir);
    let w = |k: int, j: int| power_of::<A>(root, (k * j) as nat);
    let v = |k: int| power_of::<A>(back, (l * k) as nat);
    let f = |k: int, j: int| x[j].multiplied::<A>(w(k, j)).multiplied::<A>(v(k));
    lemma_bin_is_sum::<A>(y, back_dir, back, l, n);
    let outer = |k: int| y[k].multiplied::<A>(v(k));
    let sums = |k: int| sum::<A>(|j: int| f(k, j), n);
    assert forall|k: int, j: int| 0 <= k < n && 0 <= j < n implies settled::<A>(#[trigger] f(k, j)) by {
        lemma_power_settled::<A>(root, (k * j) as nat);
        lemma_power_settled::<A>(back, (l * k) as nat);
        lemma_mul::<A>(x[j], w(k, j));
        lemma_mul::<A>(x[j].multiplied::<A>(w(k, j)), v(k));
    }
    assert forall|k: int| 0 <= k < n implies #[trigger] outer(k) == sums(k) by {
        lemma_bin_is_sum::<A>(x, dir, root, k, n);
        let g = |j: int| x[j].multiplied::<A>(power_of::<A>(root, (k * j) as nat));
        assert forall|j: int| 0 <= j < n implies settled::<A>(#[trigger] g(j)) by {
            lemma_power_settled::<A>(root, (k * j) as nat);
            lemma_mul::<A>(x[j], w(k, j));
        }
        lemma_power_settled::<A>(back, (l * k) as nat);
        lemma_sum_scaled::<A>(g, n, v(k));
        lemma_sum_same::<A>(|j: int| g(j).multiplied::<A>(v(k)), |j: int| f(k, j), n);
    }
    let inner = |k: int| y[k].multiplied::<A>(power_of::<A>(back, (l * k) as nat));
    lemma_sum_same::<A>(inner, outer, n);
    lemma_sum_same::<A>(outer, sums, n);
    lemma_sums_exchange::<A>(f, n, n);
    let turned = |j: int| sum::<A>(|k: int| f(k, j), n);
    let picked = |j: int|
        if j == l {
            x[l].multiplied::<A>(count)
        } else {
            zero()
        };
    assert forall|j: int| 0 <= j < n implies #[trigger] turned(j) == picked(j) by {
        let c = |k: int| w(k, j).multiplied::<A>(v(k));
        assert forall|k: int| 0 <= k < n implies settled::<A>(#[trigger] c(k)) by {
            lemma_power_settled::<A>(root, (k * j) as nat);
            lemma_power_settled::<A>(back, (l * k) as nat);
            lemma_mul::<A>(w(k, j), v(k));
        }
        lemma_sum_scaled::<A>(c, n, x[j]);
        let scaled = |k: int| c(k).multiplied::<A>(x[j]);
        assert forall|k: int| 0 <= k < n implies #[trigger] scaled(k) == f(k, j) by {
            lemma_power_settled::<A>(root, (k * j) as nat);
            lemma_power_settled::<A>(back, (l * k) as nat);
            lemma_mul::<A>(c(k), x[j]);
            lemma_mul_assoc::<A>(x[j], w(k, j), v(k));
        }
        lemma_sum_same::<A>(scaled, |k: int| f(k, j), n);
        assert(cross_sum::<A>(root, back, n, j, l) == (if j == l {
            count
        } else {
            zero()
        }));
        lemma_sum_same::<A>(
            c,
            |k: int|
                power_of::<A>(root, (k * j) as nat).multiplied::<A>(
                    power_of::<A>(back, (l * k) as nat),
                ),
            n,
        );
        lemma_units::<A>(x[j]);
        lemma_mul::<A>(count, x[j]);
    }
    lemma_sum_same::<A>(turned, picked, n);
    lemma_mul::<A>(x[l], count);
    lemma_sum_of_one::<A>(picked, n, l);
}

/// What an axis of length `n` needs of an arithmetic for its transforms to be exact: the factors of
/// both directions are the powers of `root` and `back`, these are orthogonal with `count`, and where
/// the length is a power of two the stages step by matching roots.
pub open spec fn axis_fits<A: Arithmetic>(n: nat, root: Complex, back: Complex, count: Complex) -> bool {
    &&& settled::<A>(root)
    &&& settled::<A>(back)
    &&& settled::<A>(count)
    &&& factors_fit::<A>(FORWARD, n, root)
    &&& factors_fit::<A>(INVERSE, n, back)
    &&& orthogonal::<A>(root, back, n, count)
    &&& forall|m: nat|
        #[trigger] two_to(m) == n ==> {
            &&& roots_fit::<A>(FORWARD, m)
            &&& roots_fit::<A>(INVERSE, m)
            &&& stage_root::<A>(FORWARD, n as int) == root
            &&& stage_root::<A>(INVERSE, n as int) == back
        }
}

/// However a line is transformed, the result is that of the defining sum, in an arithmetic that does
/// not round.
pub proof fn law_line_is_the_defining_sum<A: Arithmetic>(
    x: Seq<Complex>,
    root: Complex,
    back: Complex,
    count: Complex,
)
    requires
        exact::<A>(),
        line_settled::<A>(x),
        axis_fits::<A>(x.len(), root, back, count),
    ensures
        line_of::<A>(x, FORWARD) == summed::<A>(x, FORWARD),
        line_of::<A>(x, INVERSE) == summed::<A>(x, INVERSE),
{
    if is_two_power(x.len() as int) {
        let m = choose|m: nat| two_to(m) == x.len();
        law_halving_is_the_defining_sum::<A>(x, m, FORWARD);
        law_halving_is_the_defining_sum::<A>(x, m, INVERSE);
    }
}

/// The defining sum of a settled line is settled.
proof fn lemma_summed_settled<A: Arithmetic>(x: Seq<Complex>, dir: u64, root: Complex)
    requires
        exact::<A>(),
        line_settled::<A>(x),
        settled::<A>(root),
        factors_fit::<A>(dir, x.len(), root),
    ensures
        line_settled::<A>(summed::<A>(x, dir)),
{
    assert forall|k: int| 0 <= k < x.len() implies settled::<A>(#[trigger] summed::<A>(x, dir)[k]) by {
        lemma_bin_is_sum::<A>(x, dir, root, k, x.len());
        let g = |j: int| x[j].multiplied::<A>(power_of::<A>(root, (k * j) as nat));
        assert forall|j: int| 0 <= j < x.len() implies settled::<A>(#[trigger] g(j)) by {
            lemma_power_settled::<A>(root, (k * j) as nat);
            lemma_mul::<A>(x[j], power_of::<A>(root, (k * j) as nat));
        }
        lemma_sum_settled::<A>(g, x.len());
    }
}

/// Transforming a line forward and back gives every number times `count`, in an arithmetic that does
/// not round.
pub proof fn law_line_round_trip<A: Arithmetic>(
    x: Seq<Complex>,
    root: Complex,
    back: Complex,
    count: Complex,
    l: int,
)
    requires
        exact::<A>(),
        line_settled::<A>(x),
        axis_fits::<A>(x.len(), root, back, count),
        0 <= l < x.len(),
    ensures
        line_of::<A>(line_of::<A>(x, FORWARD), INVERSE)[l] == x[l].multiplied::<A>(count),
{
    law_line_is_the_defining_sum::<A>(x, root, back, count);
    let y = summed::<A>(x, FORWARD);
    lemma_summed_settled::<A>(x, FORWARD, root);
    law_line_is_the_defining_sum::<A>(y, root, back, count);
    law_inverse_undoes_forward::<A>(x, FORWARD, INVERSE, root, back, count, l);
}

/// A wave that turns with `back` has one bin: that of its own frequency, with `count` in it, in an
/// arithmetic that does not round.
pub proof fn law_single_wave_has_one_bin<A: Arithmetic>(
    x: Seq<Complex>,
    root: Complex,
    back: Complex,
    count: Complex,
    frequency: nat,
    k: int,
)
    requires
        exact::<A>(),
        axis_fits::<A>(x.len(), root, back, count),
        forall|j: int| 0 <= j < x.len() ==> #[trigger] x[j] == power_of::<A>(back, (frequency * j) as nat),
        frequency < x.len(),
        0 <= k < x.len(),
    ensures
        line_of::<A>(x, FORWARD)[k] == (if k == frequency {
            count
        } else {
            zero()
        }),
{
    let n = x.len();
    assert forall|j: int| 0 <= j < n implies settled::<A>(#[trigger] x[j]) by {
        lemma_power_settled::<A>(back, (frequency * j) as nat);
    }
    law_line_is_the_defining_sum::<A>(x, root, back, count);
    lemma_bin_is_sum::<A>(x, FORWARD, root, k, n);
    let f = |j: int| x[j].multiplied::<A>(power_of::<A>(root, (k * j) as nat));
    let g = |j: int|
        power_of::<A>(root, (j * k) as nat).multiplied::<A>(
            power_of::<A>(back, (frequency * j) as nat),
        );
    assert forall|j: int| 0 <= j < n implies #[trigger] f(j) == g(j) by {
        assert(j * k == k * j) by (nonlinear_arith);
        lemma_power_settled::<A>(root, (k * j) as nat);
        assert(settled::<A>(x[j]));
        lemma_mul::<A>(x[j], power_of::<A>(root, (k * j) as nat));
    }
    lemma_sum_same::<A>(f, g, n);
    let frequency_at = frequency as int;
    let h = |j: int|
        power_of::<A>(root, (j * k) as nat).multiplied::<A>(
            power_of::<A>(back, (frequency_at * j) as nat),
        );
    lemma_sum_same::<A>(g, h, n);
    assert(cross_sum::<A>(root, back, n, k, frequency_at) == sum::<A>(h, n));
}

/// A constant line has one bin: the first, with the constant times `count` in it, in an arithmetic
/// that does not round.
pub proof fn law_constant_line_has_one_bin<A: Arithmetic>(
    x: Seq<Complex>,
    root: Complex,
    back: Complex,
    count: Complex,
    c: Complex,
    k: int,
)
    requires
        exact::<A>(),
        axis_fits::<A>(x.len(), root, back, count),
        settled::<A>(c),
        forall|j: int| 0 <= j < x.len() ==> #[trigger] x[j] == c,
        0 <= k < x.len(),
    ensures
        summed::<A>(x, FORWARD)[k] == (if k == 0 {
            count.multiplied::<A>(c)
        } else {
            zero()
        }),
{
    let n = x.len();
    lemma_bin_is_sum::<A>(x, FORWARD, root, k, n);
    let f = |j: int| x[j].multiplied::<A>(power_of::<A>(root, (k * j) as nat));
    let w = |j: int|
        power_of::<A>(root, (j * k) as nat).multiplied::<A>(power_of::<A>(back, (0 * j) as nat));
    let g = |j: int| w(j).multiplied::<A>(c);
    assert forall|j: int| 0 <= j < n implies settled::<A>(#[trigger] w(j)) && f(j) == g(j) by {
        assert(j * k == k * j) by (nonlinear_arith);
        assert(0 * j == 0);
        assert(x[j] == c);
        let turn = power_of::<A>(root, (k * j) as nat);
        lemma_power_settled::<A>(root, (k * j) as nat);
        lemma_units::<A>(turn);
        lemma_mul::<A>(turn, c);
        assert(power_of::<A>(back, 0) == one());
    }
    assert forall|j: int| 0 <= j < n implies #[trigger] f(j) == g(j) by {
        assert(settled::<A>(w(j)));
    }
    lemma_sum_same::<A>(f, g, n);
    lemma_sum_scaled::<A>(w, n, c);
    assert(cross_sum::<A>(root, back, n, k, 0) == sum::<A>(w, n));
    lemma_units::<A>(c);
}

/// The rows of a settled plane are settled.
proof fn lemma_row_settled<A: Arithmetic>(data: Seq<Complex>, w: int, h: int, y: int)
    requires
        data.len() == w * h,
        line_settled::<A>(data),
        0 <= w,
        0 <= y < h,
    ensures
        line_settled::<A>(row_of(data, w, y)),
{
    assert forall|x: int| 0 <= x < w implies settled::<A>(#[trigger] row_of(data, w, y)[x]) by {
        lemma_at_bounds(x, y, w, h);
    }
}

/// The columns of a settled plane are settled.
proof fn lemma_column_settled<A: Arithmetic>(data: Seq<Complex>, w: int, h: int, x: int)
    requires
        data.len() == w * h,
        line_settled::<A>(data),
        0 <= h,
        0 <= x < w,
    ensures
        line_settled::<A>(column_of(data, w, h, x)),
{
    assert forall|y: int| 0 <= y < h implies settled::<A>(#[trigger] column_of(data, w, h, x)[y]) by {
        lemma_at_bounds(x, y, w, h);
    }
}

/// A plane with its rows transformed: every number is a sum over its row, and settled.
proof fn lemma_rows<A: Arithmetic>(
    data: Seq<Complex>,
    w: nat,
    h: nat,
    dir: u64,
    root: Complex,
    back: Complex,
    count: Complex,
)
    requires
        exact::<A>(),
        data.len() == w * h,
        line_settled::<A>(data),
        axis_fits::<A>(w, root, back, count),
        dir == FORWARD || dir == INVERSE,
    ensures
        rows_of::<A>(data, w as int, h as int, dir).len() == w * h,
        line_settled::<A>(rows_of::<A>(data, w as int, h as int, dir)),
        forall|x: int, y: int|
            0 <= x < w && 0 <= y < h ==> rows_of::<A>(data, w as int, h as int, dir)[#[trigger] at(
                x,
                y,
                w as int,
            )] == summed::<A>(row_of(data, w as int, y), dir)[x],
        forall|y: int|
            0 <= y < h ==> #[trigger] row_of(rows_of::<A>(data, w as int, h as int, dir), w as int, y)
                == summed::<A>(row_of(data, w as int, y), dir),
{
    let out = rows_of::<A>(data, w as int, h as int, dir);
    let step = if dir == FORWARD {
        root
    } else {
        back
    };
    assert forall|x: int, y: int| 0 <= x < w && 0 <= y < h implies out[#[trigger] at(x, y, w as int)]
        == summed::<A>(row_of(data, w as int, y), dir)[x] by {
        lemma_at_inverse(x, y, w as int);
        lemma_at_bounds(x, y, w as int, h as int);
        lemma_row_settled::<A>(data, w as int, h as int, y);
        law_line_is_the_defining_sum::<A>(row_of(data, w as int, y), root, back, count);
    }
    assert forall|i: int| 0 <= i < out.len() implies settled::<A>(#[trigger] out[i]) by {
        lemma_at_of(i, w as int, h as int);
        let y = i / (w as int);
        lemma_row_settled::<A>(data, w as int, h as int, y);
        lemma_summed_settled::<A>(row_of(data, w as int, y), dir, step);
        assert(out[at(i % (w as int), y, w as int)] == summed::<A>(row_of(data, w as int, y), dir)[i % (
        w as int)]);
    }
    assert forall|y: int| 0 <= y < h implies #[trigger] row_of(out, w as int, y) == summed::<A>(
        row_of(data, w as int, y),
        dir,
    ) by {
        assert forall|x: int| 0 <= x < w implies #[trigger] row_of(out, w as int, y)[x] == summed::<A>(
            row_of(data, w as int, y),
            dir,
        )[x] by {}
    }
}

/// A plane with its columns transformed: every number is a sum over its column, and settled.
proof fn lemma_columns<A: Arithmetic>(
    data: Seq<Complex>,
    w: nat,
    h: nat,
    dir: u64,
    root: Complex,
    back: Complex,
    count: Complex,
)
    requires
        exact::<A>(),
        data.len() == w * h,
        line_settled::<A>(data),
        axis_fits::<A>(h, root, back, count),
        dir == FORWARD || dir == INVERSE,
    ensures
        columns_of::<A>(data, w as int, h as int, dir).len() == w * h,
        line_settled::<A>(columns_of::<A>(data, w as int, h as int, dir)),
        forall|x: int, y: int|
            0 <= x < w && 0 <= y < h ==> columns_of::<A>(data, w as int, h as int, dir)[#[trigger] at(
                x,
                y,
                w as int,
            )] == summed::<A>(column_of(data, w as int, h as int, x), dir)[y],
        forall|x: int|
            0 <= x < w ==> #[trigger] column_of(
                columns_of::<A>(data, w as int, h as int, dir),
                w as int,
                h as int,
                x,
            ) == summed::<A>(column_of(data, w as int, h as int, x), dir),
{
    let out = columns_of::<A>(data, w as int, h as int, dir);
    let step = if dir == FORWARD {
        root
    } else {
        back
    };
    assert forall|x: int, y: int| 0 <= x < w && 0 <= y < h implies out[#[trigger] at(x, y, w as int)]
        == summed::<A>(column_of(data, w as int, h as int, x), dir)[y] by {
        lemma_at_inverse(x, y, w as int);
        lemma_at_bounds(x, y, w as int, h as int);
        lemma_column_settled::<A>(data, w as int, h as int, x);
        law_line_is_the_defining_sum::<A>(column_of(data, w as int, h as int, x), root, back, count);
    }
    assert forall|i: int| 0 <= i < out.len() implies settled::<A>(#[trigger] out[i]) by {
        lemma_at_of(i, w as int, h as int);
        let x = i % (w as int);
        lemma_column_settled::<A>(data, w as int, h as int, x);
        lemma_summed_settled::<A>(column_of(data, w as int, h as int, x), dir, step);
        assert(out[at(x, i / (w as int), w as int)] == summed::<A>(
            column_of(data, w as int, h as int, x),
            dir,
        )[i / (w as int)]);
    }
    assert forall|x: int| 0 <= x < w implies #[trigger] column_of(out, w as int, h as int, x)
        == summed::<A>(column_of(data, w as int, h as int, x), dir) by {
        assert forall|y: int| 0 <= y < h implies #[trigger] column_of(out, w as int, h as int, x)[y]
            == summed::<A>(column_of(data, w as int, h as int, x), dir)[y] by {
            assert(out[at(x, y, w as int)] == summed::<A>(
                column_of(data, w as int, h as int, x),
                dir,
            )[y]);
        }
        assert(column_of(out, w as int, h as int, x) =~= summed::<A>(
            column_of(data, w as int, h as int, x),
            dir,
        ));
    }
}

/// Rows can be transformed back before or after the columns are transformed.
proof fn lemma_rows_and_columns_exchange<A: Arithmetic>(
    data: Seq<Complex>,
    w: nat,
    h: nat,
    row_root: Complex,
    row_back: Complex,
    row_count: Complex,
    root: Complex,
    back: Complex,
    count: Complex,
)
    requires
        exact::<A>(),
        data.len() == w * h,
        line_settled::<A>(data),
        axis_fits::<A>(w, row_root, row_back, row_count),
        axis_fits::<A>(h, root, back, count),
    ensures
        rows_of::<A>(
            columns_of::<A>(data, w as int, h as int, FORWARD),
            w as int,
            h as int,
            INVERSE,
        ) == columns_of::<A>(
            rows_of::<A>(data, w as int, h as int, INVERSE),
            w as int,
            h as int,
            FORWARD,
        ),
{
    let wi = w as int;
    let hi = h as int;
    let columns = columns_of::<A>(data, wi, hi, FORWARD);
    let rows = rows_of::<A>(data, wi, hi, INVERSE);
    lemma_columns::<A>(data, w, h, FORWARD, root, back, count);
    lemma_rows::<A>(data, w, h, INVERSE, row_root, row_back, row_count);
    lemma_rows::<A>(columns, w, h, INVERSE, row_root, row_back, row_count);
    lemma_columns::<A>(rows, w, h, FORWARD, root, back, count);
    let left = rows_of::<A>(columns, wi, hi, INVERSE);
    let right = columns_of::<A>(rows, wi, hi, FORWARD);
    assert forall|i: int| 0 <= i < w * h implies #[trigger] left[i] == right[i] by {
        lemma_at_of(i, wi, hi);
        let x = i % wi;
        let y = i / wi;
        let v = |j: int| power_of::<A>(row_back, (x * j) as nat);
        let u = |k: int| power_of::<A>(root, (y * k) as nat);
        let d = |j: int, k: int| data[at(j, k, wi)];
        let f = |j: int, k: int| d(j, k).multiplied::<A>(u(k)).multiplied::<A>(v(j));
        assert forall|j: int, k: int| 0 <= j < w && 0 <= k < h implies {
            &&& settled::<A>(#[trigger] f(j, k))
            &&& settled::<A>(d(j, k))
            &&& settled::<A>(u(k))
            &&& settled::<A>(v(j))
            &&& f(j, k) == d(j, k).multiplied::<A>(v(j)).multiplied::<A>(u(k))
        } by {
            lemma_at_bounds(j, k, wi, hi);
            assert(settled::<A>(data[at(j, k, wi)]));
            lemma_power_settled::<A>(root, (y * k) as nat);
            lemma_power_settled::<A>(row_back, (x * j) as nat);
            lemma_mul::<A>(d(j, k), u(k));
            lemma_mul::<A>(d(j, k).multiplied::<A>(u(k)), v(j));
            lemma_mul_assoc::<A>(d(j, k), u(k), v(j));
            lemma_mul_assoc::<A>(d(j, k), v(j), u(k));
            lemma_mul::<A>(u(k), v(j));
        }
        // The left side, as a sum over the row of sums over the columns.
        let row = row_of(columns, wi, y);
        lemma_bin_is_sum::<A>(row, INVERSE, row_back, x, w);
        let row_term = |j: int| row[j].multiplied::<A>(power_of::<A>(row_back, (x * j) as nat));
        let by_columns = |j: int| sum::<A>(|k: int| f(j, k), h);
        assert forall|j: int| 0 <= j < w implies #[trigger] row_term(j) == by_columns(j) by {
            let column = column_of(data, wi, hi, j);
            assert(columns[at(j, y, wi)] == summed::<A>(column, FORWARD)[y]);
            lemma_bin_is_sum::<A>(column, FORWARD, root, y, h);
            let g = |k: int| column[k].multiplied::<A>(power_of::<A>(root, (y * k) as nat));
            assert forall|k: int| 0 <= k < h implies settled::<A>(#[trigger] g(k)) by {
                assert(settled::<A>(f(j, k)));
                lemma_mul::<A>(d(j, k), u(k));
            }
            lemma_power_settled::<A>(row_back, (x * j) as nat);
            lemma_sum_scaled::<A>(g, h, v(j));
            lemma_sum_same::<A>(|k: int| g(k).multiplied::<A>(v(j)), |k: int| f(j, k), h);
        }
        lemma_sum_same::<A>(row_term, by_columns, w);
        // The right side, as a sum over the column of sums over the rows.
        let column = column_of(rows, wi, hi, x);
        lemma_bin_is_sum::<A>(column, FORWARD, root, y, h);
        let column_term = |k: int| column[k].multiplied::<A>(power_of::<A>(root, (y * k) as nat));
        let by_rows = |k: int| sum::<A>(|j: int| f(j, k), w);
        assert forall|k: int| 0 <= k < h implies #[trigger] column_term(k) == by_rows(k) by {
            let row = row_of(data, wi, k);
            assert(rows[at(x, k, wi)] == summed::<A>(row, INVERSE)[x]);
            lemma_bin_is_sum::<A>(row, INVERSE, row_back, x, w);
            let g = |j: int| row[j].multiplied::<A>(power_of::<A>(row_back, (x * j) as nat));
            assert forall|j: int| 0 <= j < w implies settled::<A>(#[trigger] g(j)) by {
                assert(settled::<A>(f(j, k)));
                lemma_mul::<A>(d(j, k), v(j));
            }
            lemma_power_settled::<A>(root, (y * k) as nat);
            lemma_sum_scaled::<A>(g, w, u(k));
            let scaled = |j: int| g(j).multiplied::<A>(u(k));
            assert forall|j: int| 0 <= j < w implies #[trigger] scaled(j) == f(j, k) by {
                assert(settled::<A>(f(j, k)));
            }
            lemma_sum_same::<A>(scaled, |j: int| f(j, k), w);
        }
        lemma_sum_same::<A>(column_term, by_rows, h);
        lemma_sums_exchange::<A>(f, w, h);
        assert(left[at(x, y, wi)] == summed::<A>(row, INVERSE)[x]);
        assert(right[at(x, y, wi)] == summed::<A>(column, FORWARD)[y]);
    }
    assert(left =~= right);
}

/// Transforming a plane forward and back gives every number times the number of columns and times the
/// number of rows, in an arithmetic that does not round.
pub proof fn law_plane_round_trip<A: Arithmetic>(
    data: Seq<Complex>,
    w: nat,
    h: nat,
    row_root: Complex,
    row_back: Complex,
    row_count: Complex,
    root: Complex,
    back: Complex,
    count: Complex,
    i: int,
)
    requires
        exact::<A>(),
        data.len() == w * h,
        line_settled::<A>(data),
        axis_fits::<A>(w, row_root, row_back, row_count),
        axis_fits::<A>(h, root, back, count),
        0 <= i < w * h,
    ensures
        plane_of::<A>(
            plane_of::<A>(data, w as int, h as int, FORWARD),
            w as int,
            h as int,
            INVERSE,
        )[i] == data[i].multiplied::<A>(row_count).multiplied::<A>(count),
{
    let wi = w as int;
    let hi = h as int;
    lemma_at_of(i, wi, hi);
    let x = i % wi;
    let y = i / wi;
    let rows = rows_of::<A>(data, wi, hi, FORWARD);
    lemma_rows::<A>(data, w, h, FORWARD, row_root, row_back, row_count);
    lemma_rows_and_columns_exchange::<A>(
        rows,
        w,
        h,
        row_root,
        row_back,
        row_count,
        root,
        back,
        count,
    );
    let rows_back = rows_of::<A>(rows, wi, hi, INVERSE);
    lemma_rows::<A>(rows, w, h, INVERSE, row_root, row_back, row_count);
    let columns = columns_of::<A>(rows_back, wi, hi, FORWARD);
    lemma_columns::<A>(rows_back, w, h, FORWARD, root, back, count);
    lemma_columns::<A>(columns, w, h, INVERSE, root, back, count);
    let column = column_of(rows_back, wi, hi, x);
    lemma_column_settled::<A>(rows_back, wi, hi, x);
    law_inverse_undoes_forward::<A>(column, FORWARD, INVERSE, root, back, count, y);
    assert(columns_of::<A>(columns, wi, hi, INVERSE)[at(x, y, wi)] == summed::<A>(
        column_of(columns, wi, hi, x),
        INVERSE,
    )[y]);
    let row = row_of(data, wi, y);
    lemma_row_settled::<A>(data, wi, hi, y);
    law_inverse_undoes_forward::<A>(row, FORWARD, INVERSE, row_root, row_back, row_count, x);
}

/// The parts of a number come back from being stored as samples.
pub open spec fn storable<A: Arithmetic>(z: Complex) -> bool {
    widen_of::<A>(narrow_of::<A>(z.re)) == z.re && widen_of::<A>(narrow_of::<A>(z.im)) == z.im
}

/// Multiplying a sample by the number of columns and of rows, and by one over the number of pixels,
/// gives the sample.
pub open spec fn scaled_back<A: Arithmetic>(sample: u32, row_count: Complex, count: Complex, pixels: int) -> bool {
    let z = Complex::new(widen_of::<A>(sample), zero().im);
    narrow_of::<A>(
        times_of::<A>(
            z.multiplied::<A>(row_count).multiplied::<A>(count).re,
            scale_of::<A>(pixels),
        ),
    ) == sample
}

/// Turning the spectrum of a buffer back gives the buffer, in an arithmetic that does not round and
/// stores the spectrum without loss.
pub proof fn law_spectrum_turns_back<A: Arithmetic>(
    samples: Seq<u32>,
    w: nat,
    h: nat,
    channels: nat,
    row_root: Complex,
    row_back: Complex,
    row_count: Complex,
    root: Complex,
    back: Complex,
    count: Complex,
    i: int,
)
    requires
        exact::<A>(),
        samples.len() == w * h * channels,
        axis_fits::<A>(w, row_root, row_back, row_count),
        axis_fits::<A>(h, root, back, count),
        forall|c: int|
            0 <= c < channels ==> line_settled::<A>(
                #[trigger] real_plane::<A>(samples, (w * h) as int, channels as int, c),
            ),
        forall|c: int, p: int|
            0 <= c < channels && 0 <= p < w * h ==> storable::<A>(
                #[trigger] plane_of::<A>(
                    real_plane::<A>(samples, (w * h) as int, channels as int, c),
                    w as int,
                    h as int,
                    FORWARD,
                )[p],
            ),
        0 <= i < samples.len(),
        scaled_back::<A>(samples[i], row_count, count, (w * h) as int),
    ensures
        inverse_real_of::<A>(
            forward_of::<A>(samples, w as int, h as int, channels as int),
            w as int,
            h as int,
            channels as int,
        )[i] == samples[i],
{
    let pixels = (w * h) as int;
    let ch = channels as int;
    assert(0 <= w * h) by (nonlinear_arith)
        requires
            0 <= w,
            0 <= h,
    ;
    assert(pixels * ch == ch * pixels) by (nonlinear_arith);
    lemma_at_of(i, ch, pixels);
    let c = i % ch;
    let p = i / ch;
    let spectrum = forward_of::<A>(samples, w as int, h as int, ch);
    let base = real_plane::<A>(samples, pixels, ch, c);
    let there = plane_of::<A>(base, w as int, h as int, FORWARD);
    let stored = complex_plane::<A>(spectrum, pixels, ch, c);
    assert forall|q: int| 0 <= q < pixels implies #[trigger] stored[q] == there[q] by {
        let place = 2 * at(c, q, ch);
        lemma_at_bounds(c, q, ch, pixels);
        lemma_at_inverse(c, q, ch);
        assert(place / 2 == at(c, q, ch) && place % 2 == 0);
        assert((place + 1) / 2 == at(c, q, ch) && (place + 1) % 2 == 1);
        assert(storable::<A>(there[q]));
    }
    assert(stored =~= there);
    assert(line_settled::<A>(base));
    law_plane_round_trip::<A>(
        base,
        w,
        h,
        row_root,
        row_back,
        row_count,
        root,
        back,
        count,
        p,
    );
    assert((2 * i) / 2 == i && (2 * i) % 2 == 0);
}

/// A constant plane has one bin: the first, with the constant times both counts in it, in an
/// arithmetic that does not round.
pub proof fn law_constant_plane_has_one_bin<A: Arithmetic>(
    data: Seq<Complex>,
    w: nat,
    h: nat,
    row_root: Complex,
    row_back: Complex,
    row_count: Complex,
    root: Complex,
    back: Complex,
    count: Complex,
    c: Complex,
    x: int,
    y: int,
)
    requires
        exact::<A>(),
        data.len() == w * h,
        axis_fits::<A>(w, row_root, row_back, row_count),
        axis_fits::<A>(h, root, back, count),
        settled::<A>(c),
        forall|i: int| 0 <= i < data.len() ==> #[trigger] data[i] == c,
        0 <= x < w,
        0 <= y < h,
    ensures
        plane_of::<A>(data, w as int, h as int, FORWARD)[at(x, y, w as int)] == (if x == 0 && y == 0 {
            count.multiplied::<A>(row_count.multiplied::<A>(c))
        } else {
            zero()
        }),
{
    let wi = w as int;
    let hi = h as int;
    let rows = rows_of::<A>(data, wi, hi, FORWARD);
    lemma_rows::<A>(data, w, h, FORWARD, row_root, row_back, row_count);
    lemma_columns::<A>(rows, w, h, FORWARD, root, back, count);
    let column = column_of(rows, wi, hi, x);
    let first = row_count.multiplied::<A>(c);
    lemma_mul::<A>(row_count, c);
    lemma_units::<A>(count);
    let kept = if x == 0 {
        first
    } else {
        zero()
    };
    assert forall|j: int| 0 <= j < h implies #[trigger] column[j] == kept by {
        lemma_at_bounds(x, j, wi, hi);
        let row = row_of(data, wi, j);
        assert forall|i: int| 0 <= i < w implies #[trigger] row[i] == c by {
            lemma_at_bounds(i, j, wi, hi);
        }
        law_constant_line_has_one_bin::<A>(row, row_root, row_back, row_count, c, x);
    }
    law_constant_line_has_one_bin::<A>(column, root, back, count, kept, y);
    lemma_mul::<A>(count, zero());
}

} // verus!
