//! What the samples of a distance transform are, up to rounding: whole squared distances, and their roots.
use crate::arithmetic::{sample_root_of, tally_of, Arithmetic};
use crate::binary::sample_finite;
use crate::edt::{rooted, squared_sample};
use crate::rounding::{
    counts_read, lemma_count_reads, lemma_narrow_rounds, obeys, product, size, Reading,
};
use vstd::prelude::*;

verus! {

/// A squared distance is stored as the whole number that it is, up to a storing step.
pub proof fn law_squared_distance_is_stored<A: Arithmetic>(r: Reading, v: u128, most: int)
    requires
        obeys::<A>(r),
        counts_read::<A>(r, most),
        v <= most,
        v <= u64::MAX,
        v as real <= r.top,
    ensures
        sample_finite(squared_sample::<A>(Some(v))),
        size((r.small)(squared_sample::<A>(Some(v))) - v as real) <= r.store,
{
    lemma_count_reads::<A>(r, most, v as int);
    lemma_narrow_rounds::<A>(r, tally_of::<A>(v as u64));
}

/// Square roots of samples are rounded as the reading says: the root is not negative, a storing step more is
/// enough for the number, and one less is not too much.
#[verifier::opaque]
pub open spec fn sample_roots_round<A: Arithmetic>(r: Reading) -> bool {
    forall|a: u32|
        sample_finite(a) && 0real <= (r.small)(a) <= r.top ==> {
            let s = (r.small)(#[trigger] sample_root_of::<A>(a));
            &&& sample_finite(sample_root_of::<A>(a))
            &&& 0real <= s
            &&& (r.small)(a) <= product(s + r.store, s + r.store)
            &&& r.store <= s ==> product(s - r.store, s - r.store) <= (r.small)(a)
        }
}

/// A distance, squared, is the squared distance that it was taken of, up to a storing step of the distance.
pub proof fn law_distance_squared_is_near<A: Arithmetic>(r: Reading, squared: Seq<u32>, i: int)
    requires
        sample_roots_round::<A>(r),
        0 <= i < squared.len(),
        sample_finite(squared[i]),
        0real <= (r.small)(squared[i]) <= r.top,
    ensures
        ({
            let out = rooted::<A>(squared);
            let d = (r.small)(out[i]);
            &&& out.len() == squared.len()
            &&& sample_finite(out[i])
            &&& 0real <= d
            &&& (r.small)(squared[i]) <= product(d + r.store, d + r.store)
            &&& r.store <= d ==> product(d - r.store, d - r.store) <= (r.small)(squared[i])
        }),
{
    reveal(sample_roots_round);
    assert(sample_finite(sample_root_of::<A>(squared[i])));
}

} // verus!
