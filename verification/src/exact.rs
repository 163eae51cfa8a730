//! Arithmetic that does not round, and sums in it.
//!
//! A number is plain when adding it to zero changes nothing: of the two patterns of zero one is. In an
//! arithmetic that does not round, plain numbers obey the rules of a field.
use crate::arithmetic::{fused_of, minus_of, over_of, plus_of, times_of, Arithmetic};
use crate::binary::{negated, rank, ONE, ZERO};
use vstd::prelude::*;

verus! {

/// Adding the number to zero changes nothing.
pub open spec fn plain<A: Arithmetic>(a: u64) -> bool {
    plus_of::<A>(ZERO, a) == a
}

/// What plain numbers are combined to is plain, and the only plain zero is zero.
#[verifier::opaque]
pub open spec fn combined<A: Arithmetic>() -> bool {
    &&& plain::<A>(ZERO)
    &&& plain::<A>(ONE)
    &&& forall|a: u64| #[trigger] plain::<A>(a) && rank(a) == 0 ==> a == ZERO
    &&& forall|a: u64, b: u64|
        plain::<A>(a) && plain::<A>(b) ==> plain::<A>(#[trigger] plus_of::<A>(a, b))
    &&& forall|a: u64, b: u64|
        plain::<A>(a) && plain::<A>(b) ==> plain::<A>(#[trigger] minus_of::<A>(a, b))
    &&& forall|a: u64, b: u64|
        plain::<A>(a) && plain::<A>(b) ==> plain::<A>(#[trigger] times_of::<A>(a, b))
    &&& forall|a: u64, b: u64|
        plain::<A>(a) && plain::<A>(b) && rank(b) != 0 ==> plain::<A>(#[trigger] over_of::<A>(a, b))
}

/// Sums do not depend on the order.
#[verifier::opaque]
pub open spec fn sums_turn<A: Arithmetic>() -> bool {
    &&& forall|a: u64, b: u64|
        plain::<A>(a) && plain::<A>(b) ==> #[trigger] plus_of::<A>(a, b) == plus_of::<A>(b, a)
}

/// Sums can be bracketed either way.
#[verifier::opaque]
pub open spec fn sums_bracket<A: Arithmetic>() -> bool {
    &&& forall|a: u64, b: u64, c: u64|
        plain::<A>(a) && plain::<A>(b) && plain::<A>(c) ==>
            #[trigger] plus_of::<A>(plus_of::<A>(a, b), c) == plus_of::<A>(a, plus_of::<A>(b, c))
}

/// Differences undo sums, and sums differences.
#[verifier::opaque]
pub open spec fn differences_undo<A: Arithmetic>() -> bool {
    &&& forall|a: u64, b: u64|
        plain::<A>(a) && plain::<A>(b) ==> #[trigger] minus_of::<A>(plus_of::<A>(a, b), b) == a
    &&& forall|a: u64, b: u64|
        plain::<A>(a) && plain::<A>(b) ==> plus_of::<A>(#[trigger] minus_of::<A>(a, b), b) == a
}

/// Products do not depend on the order, and one and zero do what they should.
#[verifier::opaque]
pub open spec fn products_turn<A: Arithmetic>() -> bool {
    &&& forall|a: u64, b: u64|
        plain::<A>(a) && plain::<A>(b) ==> #[trigger] times_of::<A>(a, b) == times_of::<A>(b, a)
    &&& forall|a: u64| plain::<A>(a) ==> #[trigger] times_of::<A>(a, ONE) == a
    &&& forall|a: u64| plain::<A>(a) ==> #[trigger] times_of::<A>(ZERO, a) == ZERO
}

/// Products can be bracketed either way.
#[verifier::opaque]
pub open spec fn products_bracket<A: Arithmetic>() -> bool {
    &&& forall|a: u64, b: u64, c: u64|
        plain::<A>(a) && plain::<A>(b) && plain::<A>(c) ==>
            #[trigger] times_of::<A>(times_of::<A>(a, b), c)
                == times_of::<A>(a, times_of::<A>(b, c))
}

/// A product with a sum is the sum of the products.
#[verifier::opaque]
pub open spec fn products_distribute<A: Arithmetic>() -> bool {
    &&& forall|a: u64, b: u64, c: u64|
        plain::<A>(a) && plain::<A>(b) && plain::<A>(c) ==>
            #[trigger] times_of::<A>(plus_of::<A>(a, b), c)
                == plus_of::<A>(times_of::<A>(a, c), times_of::<A>(b, c))
}

/// Quotients undo products, and products quotients.
#[verifier::opaque]
pub open spec fn quotients_undo<A: Arithmetic>() -> bool {
    &&& forall|a: u64, b: u64|
        plain::<A>(a) && plain::<A>(b) && rank(b) != 0 ==>
            #[trigger] over_of::<A>(times_of::<A>(a, b), b) == a
    &&& forall|a: u64, b: u64|
        plain::<A>(a) && plain::<A>(b) && rank(b) != 0 ==>
            times_of::<A>(#[trigger] over_of::<A>(a, b), b) == a
}

/// A fused step is a product and a sum; with a negated factor or summand it is a difference.
#[verifier::opaque]
pub open spec fn steps_fuse<A: Arithmetic>() -> bool {
    &&& forall|a: u64, b: u64, c: u64|
        plain::<A>(a) && plain::<A>(b) && plain::<A>(c) ==>
            #[trigger] fused_of::<A>(a, b, c) == plus_of::<A>(times_of::<A>(a, b), c)
    &&& forall|a: u64, b: u64, c: u64|
        plain::<A>(a) && plain::<A>(b) && plain::<A>(c) ==>
            #[trigger] fused_of::<A>(a, negated(b), c) == minus_of::<A>(c, times_of::<A>(a, b))
    &&& forall|a: u64, b: u64, c: u64|
        plain::<A>(a) && plain::<A>(b) && plain::<A>(c) ==>
            #[trigger] fused_of::<A>(a, b, negated(c)) == minus_of::<A>(times_of::<A>(a, b), c)
}

/// Plain numbers obey the rules of a field, and a fused step is a product and a sum.
pub open spec fn unrounded<A: Arithmetic>() -> bool {
    &&& combined::<A>()
    &&& sums_turn::<A>()
    &&& sums_bracket::<A>()
    &&& differences_undo::<A>()
    &&& products_turn::<A>()
    &&& products_bracket::<A>()
    &&& products_distribute::<A>()
    &&& quotients_undo::<A>()
    &&& steps_fuse::<A>()
}

/// Sums are plain, and do not depend on the order.
pub proof fn lemma_plus<A: Arithmetic>(a: u64, b: u64)
    requires
        unrounded::<A>(),
        plain::<A>(a),
        plain::<A>(b),
    ensures
        plain::<A>(plus_of::<A>(a, b)),
        plus_of::<A>(a, b) == plus_of::<A>(b, a),
        minus_of::<A>(plus_of::<A>(a, b), b) == a,
        minus_of::<A>(plus_of::<A>(a, b), a) == b,
{
    reveal(combined);
    reveal(sums_turn);
    reveal(differences_undo);
}

/// Sums can be bracketed either way.
pub proof fn lemma_plus_assoc<A: Arithmetic>(a: u64, b: u64, c: u64)
    requires
        unrounded::<A>(),
        plain::<A>(a),
        plain::<A>(b),
        plain::<A>(c),
    ensures
        plus_of::<A>(plus_of::<A>(a, b), c) == plus_of::<A>(a, plus_of::<A>(b, c)),
{
    reveal(sums_bracket);
}

/// Differences are plain, and undone by adding back.
pub proof fn lemma_minus<A: Arithmetic>(a: u64, b: u64)
    requires
        unrounded::<A>(),
        plain::<A>(a),
        plain::<A>(b),
    ensures
        plain::<A>(minus_of::<A>(a, b)),
        plus_of::<A>(minus_of::<A>(a, b), b) == a,
{
    reveal(combined);
    reveal(differences_undo);
}

/// Products are plain, and do not depend on the order.
pub proof fn lemma_times<A: Arithmetic>(a: u64, b: u64)
    requires
        unrounded::<A>(),
        plain::<A>(a),
        plain::<A>(b),
    ensures
        plain::<A>(times_of::<A>(a, b)),
        times_of::<A>(a, b) == times_of::<A>(b, a),
{
    reveal(combined);
    reveal(products_turn);
}

/// Products can be bracketed either way.
pub proof fn lemma_times_assoc<A: Arithmetic>(a: u64, b: u64, c: u64)
    requires
        unrounded::<A>(),
        plain::<A>(a),
        plain::<A>(b),
        plain::<A>(c),
    ensures
        times_of::<A>(times_of::<A>(a, b), c) == times_of::<A>(a, times_of::<A>(b, c)),
{
    reveal(products_bracket);
}

/// A product with a sum is the sum of the products.
pub proof fn lemma_distribute<A: Arithmetic>(a: u64, b: u64, c: u64)
    requires
        unrounded::<A>(),
        plain::<A>(a),
        plain::<A>(b),
        plain::<A>(c),
    ensures
        times_of::<A>(plus_of::<A>(a, b), c) == plus_of::<A>(times_of::<A>(a, c), times_of::<A>(b, c)),
{
    reveal(products_distribute);
}

/// Zero and one do what they should, and the only plain zero is zero.
pub proof fn lemma_units<A: Arithmetic>(a: u64)
    requires
        unrounded::<A>(),
        plain::<A>(a),
    ensures
        plain::<A>(ZERO),
        plain::<A>(ONE),
        times_of::<A>(a, ONE) == a,
        times_of::<A>(ZERO, a) == ZERO,
        times_of::<A>(a, ZERO) == ZERO,
        plus_of::<A>(a, ZERO) == a,
        minus_of::<A>(a, ZERO) == a,
        minus_of::<A>(a, a) == ZERO,
        rank(a) == 0 ==> a == ZERO,
{
    reveal(combined);
    lemma_plus::<A>(ZERO, a);
    lemma_plus::<A>(a, ZERO);
    lemma_times::<A>(ZERO, a);
    assert(times_of::<A>(a, ONE) == a && times_of::<A>(ZERO, a) == ZERO) by {
        reveal(products_turn);
    }
}

/// Quotients are plain, and undo products.
pub proof fn lemma_over<A: Arithmetic>(a: u64, b: u64)
    requires
        unrounded::<A>(),
        plain::<A>(a),
        plain::<A>(b),
        rank(b) != 0,
    ensures
        plain::<A>(over_of::<A>(a, b)),
        times_of::<A>(over_of::<A>(a, b), b) == a,
        over_of::<A>(times_of::<A>(a, b), b) == a,
        over_of::<A>(ZERO, b) == ZERO,
{
    lemma_units::<A>(b);
    reveal(combined);
    reveal(quotients_undo);
}

/// A fused step is a product and a sum; with a negated factor or summand it is a difference.
pub proof fn lemma_fused<A: Arithmetic>(a: u64, b: u64, c: u64)
    requires
        unrounded::<A>(),
        plain::<A>(a),
        plain::<A>(b),
        plain::<A>(c),
    ensures
        fused_of::<A>(a, b, c) == plus_of::<A>(times_of::<A>(a, b), c),
        fused_of::<A>(a, negated(b), c) == minus_of::<A>(c, times_of::<A>(a, b)),
        fused_of::<A>(a, b, negated(c)) == minus_of::<A>(times_of::<A>(a, b), c),
{
    reveal(steps_fuse);
}

/// Dividing a product is multiplying a quotient.
pub proof fn lemma_over_times<A: Arithmetic>(a: u64, c: u64, b: u64)
    requires
        unrounded::<A>(),
        plain::<A>(a),
        plain::<A>(b),
        plain::<A>(c),
        rank(b) != 0,
    ensures
        over_of::<A>(times_of::<A>(a, c), b) == times_of::<A>(over_of::<A>(a, b), c),
{
    lemma_over::<A>(a, b);
    let q = over_of::<A>(a, b);
    lemma_times::<A>(q, c);
    lemma_times::<A>(c, b);
    lemma_times_assoc::<A>(q, c, b);
    lemma_times_assoc::<A>(q, b, c);
    lemma_over::<A>(times_of::<A>(q, c), b);
}

/// What is to be added to a number to give zero.
pub open spec fn opposite<A: Arithmetic>(a: u64) -> u64 {
    minus_of::<A>(ZERO, a)
}

/// Subtracting is adding the opposite.
pub proof fn lemma_opposite<A: Arithmetic>(a: u64, b: u64)
    requires
        unrounded::<A>(),
        plain::<A>(a),
        plain::<A>(b),
    ensures
        plain::<A>(opposite::<A>(b)),
        plus_of::<A>(b, opposite::<A>(b)) == ZERO,
        minus_of::<A>(a, b) == plus_of::<A>(a, opposite::<A>(b)),
{
    let o = opposite::<A>(b);
    lemma_units::<A>(a);
    lemma_minus::<A>(ZERO, b);
    lemma_plus::<A>(o, b);
    lemma_plus_assoc::<A>(a, o, b);
    lemma_plus::<A>(a, o);
    lemma_plus::<A>(plus_of::<A>(a, o), b);
}

/// The opposite of a product is the product with the opposite.
pub proof fn lemma_opposite_product<A: Arithmetic>(a: u64, b: u64)
    requires
        unrounded::<A>(),
        plain::<A>(a),
        plain::<A>(b),
    ensures
        opposite::<A>(times_of::<A>(a, b)) == times_of::<A>(opposite::<A>(a), b),
        opposite::<A>(times_of::<A>(a, b)) == times_of::<A>(a, opposite::<A>(b)),
{
    lemma_opposite_left::<A>(a, b);
    lemma_opposite_left::<A>(b, a);
    lemma_opposite::<A>(a, b);
    lemma_times::<A>(a, b);
    lemma_times::<A>(a, opposite::<A>(b));
}

proof fn lemma_opposite_left<A: Arithmetic>(a: u64, b: u64)
    requires
        unrounded::<A>(),
        plain::<A>(a),
        plain::<A>(b),
    ensures
        opposite::<A>(times_of::<A>(a, b)) == times_of::<A>(opposite::<A>(a), b),
{
    let o = opposite::<A>(a);
    let p = times_of::<A>(a, b);
    lemma_units::<A>(b);
    lemma_opposite::<A>(b, a);
    lemma_times::<A>(a, b);
    lemma_times::<A>(o, b);
    lemma_plus::<A>(a, o);
    lemma_plus::<A>(o, a);
    lemma_distribute::<A>(o, a, b);
    lemma_plus::<A>(times_of::<A>(o, b), p);
    lemma_minus::<A>(ZERO, p);
    lemma_plus::<A>(opposite::<A>(p), p);
}

/// The opposite of a sum is the sum of the opposites.
pub proof fn lemma_opposite_sum<A: Arithmetic>(a: u64, b: u64)
    requires
        unrounded::<A>(),
        plain::<A>(a),
        plain::<A>(b),
    ensures
        opposite::<A>(plus_of::<A>(a, b)) == plus_of::<A>(opposite::<A>(a), opposite::<A>(b)),
        opposite::<A>(opposite::<A>(a)) == a,
{
    let x = opposite::<A>(a);
    let y = opposite::<A>(b);
    lemma_opposite::<A>(a, a);
    lemma_opposite::<A>(b, b);
    lemma_plus::<A>(a, b);
    lemma_plus::<A>(x, y);
    lemma_exchange::<A>(x, y, a, b);
    lemma_plus::<A>(x, a);
    lemma_plus::<A>(y, b);
    lemma_units::<A>(ZERO);
    lemma_plus::<A>(plus_of::<A>(x, y), plus_of::<A>(a, b));
    lemma_plus::<A>(a, x);
    lemma_minus::<A>(ZERO, plus_of::<A>(a, b));
    lemma_plus::<A>(opposite::<A>(plus_of::<A>(a, b)), plus_of::<A>(a, b));
}

/// `(a + b) + (c + d)` is `(a + c) + (b + d)`.
pub proof fn lemma_exchange<A: Arithmetic>(a: u64, b: u64, c: u64, d: u64)
    requires
        unrounded::<A>(),
        plain::<A>(a),
        plain::<A>(b),
        plain::<A>(c),
        plain::<A>(d),
    ensures
        plus_of::<A>(plus_of::<A>(a, b), plus_of::<A>(c, d)) == plus_of::<A>(
            plus_of::<A>(a, c),
            plus_of::<A>(b, d),
        ),
{
    lemma_plus::<A>(c, d);
    lemma_plus::<A>(b, c);
    lemma_plus::<A>(b, d);
    lemma_plus_assoc::<A>(a, b, plus_of::<A>(c, d));
    lemma_plus_assoc::<A>(b, c, d);
    lemma_plus_assoc::<A>(c, b, d);
    lemma_plus_assoc::<A>(a, c, plus_of::<A>(b, d));
}

/// The sum of the first `n` values of a function, in order.
pub open spec fn total<A: Arithmetic>(f: spec_fn(int) -> u64, n: nat) -> u64
    decreases n,
{
    if n == 0 {
        ZERO
    } else {
        plus_of::<A>(total::<A>(f, (n - 1) as nat), f(n - 1))
    }
}

/// The first `n` values of a function are plain.
pub open spec fn all_plain<A: Arithmetic>(f: spec_fn(int) -> u64, n: nat) -> bool {
    forall|i: int| 0 <= i < n ==> plain::<A>(#[trigger] f(i))
}

/// A sum of plain numbers is plain.
pub proof fn lemma_total_plain<A: Arithmetic>(f: spec_fn(int) -> u64, n: nat)
    requires
        unrounded::<A>(),
        all_plain::<A>(f, n),
    ensures
        plain::<A>(total::<A>(f, n)),
    decreases n,
{
    if n == 0 {
        reveal(combined);
    } else {
        lemma_total_plain::<A>(f, (n - 1) as nat);
        lemma_plus::<A>(total::<A>(f, (n - 1) as nat), f(n - 1));
    }
}

/// Functions with the same first values have the same sum.
pub proof fn lemma_total_same<A: Arithmetic>(f: spec_fn(int) -> u64, g: spec_fn(int) -> u64, n: nat)
    requires
        forall|i: int| 0 <= i < n ==> #[trigger] f(i) == g(i),
    ensures
        total::<A>(f, n) == total::<A>(g, n),
    decreases n,
{
    if n > 0 {
        lemma_total_same::<A>(f, g, (n - 1) as nat);
    }
}

/// A sum times a number is the sum of the products.
pub proof fn lemma_total_scaled<A: Arithmetic>(f: spec_fn(int) -> u64, n: nat, c: u64)
    requires
        unrounded::<A>(),
        all_plain::<A>(f, n),
        plain::<A>(c),
    ensures
        times_of::<A>(total::<A>(f, n), c) == total::<A>(|i: int| times_of::<A>(f(i), c), n),
    decreases n,
{
    if n == 0 {
        lemma_units::<A>(c);
    } else {
        let prior = (n - 1) as nat;
        lemma_total_scaled::<A>(f, prior, c);
        lemma_total_plain::<A>(f, prior);
        lemma_distribute::<A>(total::<A>(f, prior), f(n - 1), c);
    }
}

/// The sum of sums is the sum, term by term.
pub proof fn lemma_total_added<A: Arithmetic>(f: spec_fn(int) -> u64, g: spec_fn(int) -> u64, n: nat)
    requires
        unrounded::<A>(),
        all_plain::<A>(f, n),
        all_plain::<A>(g, n),
    ensures
        plus_of::<A>(total::<A>(f, n), total::<A>(g, n)) == total::<A>(
            |i: int| plus_of::<A>(f(i), g(i)),
            n,
        ),
    decreases n,
{
    if n == 0 {
        reveal(combined);
        lemma_units::<A>(ZERO);
    } else {
        let prior = (n - 1) as nat;
        lemma_total_added::<A>(f, g, prior);
        lemma_total_plain::<A>(f, prior);
        lemma_total_plain::<A>(g, prior);
        lemma_exchange::<A>(total::<A>(f, prior), f(n - 1), total::<A>(g, prior), g(n - 1));
    }
}

/// A sum can be cut in two.
pub proof fn lemma_total_cut<A: Arithmetic>(f: spec_fn(int) -> u64, n: nat, m: nat)
    requires
        unrounded::<A>(),
        all_plain::<A>(f, n + m),
    ensures
        total::<A>(f, n + m) == plus_of::<A>(
            total::<A>(f, n),
            total::<A>(|i: int| f(n + i), m),
        ),
    decreases m,
{
    let rest = |i: int| f(n + i);
    lemma_total_plain::<A>(f, n);
    if m == 0 {
        lemma_units::<A>(total::<A>(f, n));
    } else {
        let prior = (m - 1) as nat;
        lemma_total_cut::<A>(f, n, prior);
        assert forall|i: int| 0 <= i < prior implies plain::<A>(#[trigger] rest(i)) by {}
        lemma_total_plain::<A>(rest, prior);
        lemma_plus_assoc::<A>(total::<A>(f, n), total::<A>(rest, prior), f((n + prior) as int));
    }
}

/// A sum can be taken from the last term to the first.
pub proof fn lemma_total_reversed<A: Arithmetic>(f: spec_fn(int) -> u64, n: nat)
    requires
        unrounded::<A>(),
        all_plain::<A>(f, n),
    ensures
        total::<A>(f, n) == total::<A>(|i: int| f(n - 1 - i), n),
    decreases n,
{
    if n > 0 {
        let prior = (n - 1) as nat;
        let g = |i: int| f(n - 1 - i);
        assert forall|i: int| 0 <= i < n implies plain::<A>(#[trigger] g(i)) by {
            assert(plain::<A>(f(n - 1 - i)));
        }
        lemma_total_cut::<A>(g, 1, prior);
        assert(1 + prior == n);
        assert(plain::<A>(f(n - 1)));
        assert(total::<A>(g, 0) == ZERO);
        assert(total::<A>(g, 1) == plus_of::<A>(ZERO, g(0)));
        assert(g(0) == f(n - 1));
        lemma_total_reversed::<A>(f, prior);
        lemma_total_same::<A>(|i: int| g(1 + i), |i: int| f(prior - 1 - i), prior);
        lemma_total_plain::<A>(f, prior);
        lemma_plus::<A>(total::<A>(f, prior), f(n - 1));
    }
}

/// The sum of sums can be taken in either order.
pub proof fn lemma_totals_exchange<A: Arithmetic>(f: spec_fn(int, int) -> u64, n: nat, m: nat)
    requires
        unrounded::<A>(),
        forall|i: int, j: int| 0 <= i < n && 0 <= j < m ==> plain::<A>(#[trigger] f(i, j)),
    ensures
        total::<A>(|i: int| total::<A>(|j: int| f(i, j), m), n) == total::<A>(
            |j: int| total::<A>(|i: int| f(i, j), n),
            m,
        ),
        all_plain::<A>(|i: int| total::<A>(|j: int| f(i, j), m), n),
        all_plain::<A>(|j: int| total::<A>(|i: int| f(i, j), n), m),
    decreases n,
{
    let rows = |i: int| total::<A>(|j: int| f(i, j), m);
    let columns = |j: int| total::<A>(|i: int| f(i, j), n);
    assert forall|i: int| 0 <= i < n implies plain::<A>(#[trigger] rows(i)) by {
        lemma_total_plain::<A>(|j: int| f(i, j), m);
    }
    assert forall|j: int| 0 <= j < m implies plain::<A>(#[trigger] columns(j)) by {
        lemma_total_plain::<A>(|i: int| f(i, j), n);
    }
    if n == 0 {
        lemma_zero_total::<A>(columns, m);
    } else {
        let prior = (n - 1) as nat;
        lemma_totals_exchange::<A>(f, prior, m);
        let before = |j: int| total::<A>(|i: int| f(i, j), prior);
        let last = |j: int| f(n - 1, j);
        assert forall|j: int| 0 <= j < m implies plain::<A>(#[trigger] last(j)) by {}
        lemma_total_added::<A>(before, last, m);
        lemma_total_same::<A>(columns, |j: int| plus_of::<A>(before(j), last(j)), m);
        let earlier = |i: int| total::<A>(|j: int| f(i, j), m);
        lemma_total_same::<A>(rows, earlier, prior);
        lemma_total_same::<A>(|j: int| f(n - 1, j), last, m);
    }
}

/// Zeros add up to zero.
proof fn lemma_zero_total<A: Arithmetic>(f: spec_fn(int) -> u64, n: nat)
    requires
        unrounded::<A>(),
        forall|i: int| 0 <= i < n ==> #[trigger] f(i) == ZERO,
    ensures
        total::<A>(f, n) == ZERO,
    decreases n,
{
    if n > 0 {
        lemma_zero_total::<A>(f, (n - 1) as nat);
        reveal(combined);
    }
}

/// A sum over a grid is the sum of the sums over its rows.
pub proof fn lemma_total_rows<A: Arithmetic>(f: spec_fn(int) -> u64, n: nat, m: nat)
    requires
        unrounded::<A>(),
        all_plain::<A>(f, n * m),
    ensures
        total::<A>(f, n * m) == total::<A>(|j: int| total::<A>(|i: int| f(j * n + i), n), m),
    decreases m,
{
    if m == 0 {
        assert(n * 0 == 0);
    } else {
        let prior = (m - 1) as nat;
        assert(n * m == n * prior + n) by (nonlinear_arith)
            requires
                prior == m - 1,
        ;
        assert(0 <= n * prior) by (nonlinear_arith)
            requires
                0 <= n,
                0 <= prior,
        ;
        lemma_total_rows::<A>(f, n, prior);
        lemma_total_cut::<A>(f, n * prior, n);
        assert(prior * n == n * prior) by (nonlinear_arith);
        lemma_total_same::<A>(|i: int| f((n * prior) + i), |i: int| f((m - 1) * n + i), n);
    }
}

/// `n` as a sum of ones.
pub open spec fn ones<A: Arithmetic>(n: nat) -> u64 {
    total::<A>(|i: int| ONE, n)
}

/// A sum of equal terms is the term times their number.
pub proof fn lemma_total_constant<A: Arithmetic>(f: spec_fn(int) -> u64, n: nat, c: u64)
    requires
        unrounded::<A>(),
        plain::<A>(c),
        forall|i: int| 0 <= i < n ==> #[trigger] f(i) == c,
    ensures
        total::<A>(f, n) == times_of::<A>(ones::<A>(n), c),
        plain::<A>(ones::<A>(n)),
{
    let one = |i: int| ONE;
    lemma_units::<A>(c);
    lemma_total_plain::<A>(one, n);
    lemma_total_scaled::<A>(one, n, c);
    let scaled = |i: int| times_of::<A>(one(i), c);
    assert forall|i: int| 0 <= i < n implies #[trigger] scaled(i) == f(i) by {
        lemma_times::<A>(ONE, c);
    }
    lemma_total_same::<A>(scaled, f, n);
}

/// As many ones as `n` times `m` add up to the product of their sums.
pub proof fn lemma_ones_product<A: Arithmetic>(n: nat, m: nat)
    requires
        unrounded::<A>(),
    ensures
        ones::<A>(n * m) == times_of::<A>(ones::<A>(n), ones::<A>(m)),
        plain::<A>(ones::<A>(n)),
    decreases m,
{
    let one = |i: int| ONE;
    reveal(combined);
    lemma_total_plain::<A>(one, n);
    lemma_units::<A>(ones::<A>(n));
    if m == 0 {
        assert(n * 0 == 0);
    } else {
        let prior = (m - 1) as nat;
        lemma_ones_product::<A>(n, prior);
        assert(n * m == n * prior + n) by (nonlinear_arith)
            requires
                prior == m - 1,
        ;
        assert(0 <= n * prior) by (nonlinear_arith)
            requires
                0 <= n,
                0 <= prior,
        ;
        lemma_total_cut::<A>(one, n * prior, n);
        let rest = |i: int| one(n * prior + i);
        lemma_total_same::<A>(rest, one, n);
        lemma_total_plain::<A>(one, prior);
        lemma_distribute::<A>(ones::<A>(prior), ONE, ones::<A>(n));
        lemma_times::<A>(ones::<A>(prior), ones::<A>(n));
        lemma_times::<A>(ONE, ones::<A>(n));
        lemma_plus::<A>(ones::<A>(prior), ONE);
        lemma_times::<A>(plus_of::<A>(ones::<A>(prior), ONE), ones::<A>(n));
    }
}

} // verus!
