//! What a comparison in linear light and one of stored samples make of the images' encodings.
use crate::arithmetic::Arithmetic;
use crate::diff::{differenced, distances, srgb_light, ComparisonSpace};
use crate::ir::{ColorEncoding, ImageDescriptor, ResourceDescriptor};
use crate::report::Digest;
use crate::value::ValueView;
use vstd::prelude::*;

verus! {

/// The image that an image of another colour encoding with other samples is.
pub open spec fn recoded(image: ValueView, d: ImageDescriptor, color: ColorEncoding, samples: Seq<u32>) -> ValueView {
    ValueView {
        descriptor: ResourceDescriptor::Image(ImageDescriptor { color, ..d }),
        channels: image.channels,
        samples,
    }
}

/// The samples of an sRGB image in linear light.
pub open spec fn lit<A: Arithmetic>(samples: Seq<u32>) -> Seq<u32> {
    Seq::new(samples.len(), |i: int| srgb_light::<A>(samples[i]))
}

/// In linear light an sRGB image is compared as the image of its decoded samples is, on either side.
pub proof fn law_linear_light_decodes_srgb<A: Arithmetic, H: Digest>(
    before: ValueView,
    b: ImageDescriptor,
    after: ValueView,
    a: ImageDescriptor,
    linear: ColorEncoding,
    threshold: u64,
)
    requires
        before.descriptor == ResourceDescriptor::Image(b),
        after.descriptor == ResourceDescriptor::Image(a),
        linear != ColorEncoding::Srgb,
    ensures
        b.color == ColorEncoding::Srgb ==> differenced::<A, H>(
            before,
            after,
            ComparisonSpace::DecodedLinear,
            threshold,
        ) == differenced::<A, H>(
            recoded(before, b, linear, lit::<A>(before.samples)),
            after,
            ComparisonSpace::DecodedLinear,
            threshold,
        ),
        a.color == ColorEncoding::Srgb ==> differenced::<A, H>(
            before,
            after,
            ComparisonSpace::DecodedLinear,
            threshold,
        ) == differenced::<A, H>(
            before,
            recoded(after, a, linear, lit::<A>(after.samples)),
            ComparisonSpace::DecodedLinear,
            threshold,
        ),
{
    let p = before.samples;
    let q = after.samples;
    let db = b.color == ColorEncoding::Srgb;
    let da = a.color == ColorEncoding::Srgb;
    if db {
        assert(distances::<A>(p, q, true, da) =~= distances::<A>(lit::<A>(p), q, false, da));
    }
    if da {
        assert(distances::<A>(p, q, db, true) =~= distances::<A>(p, lit::<A>(q), db, false));
    }
}

/// Where stored samples are compared, or no image is sRGB-encoded, the encodings make no difference.
pub proof fn law_stored_samples_are_compared<A: Arithmetic, H: Digest>(
    before: ValueView,
    b: ImageDescriptor,
    after: ValueView,
    a: ImageDescriptor,
    one: ColorEncoding,
    other: ColorEncoding,
    space: ComparisonSpace,
    threshold: u64,
)
    requires
        before.descriptor == ResourceDescriptor::Image(b),
        after.descriptor == ResourceDescriptor::Image(a),
        space == ComparisonSpace::Encoded || (b.color != ColorEncoding::Srgb && a.color != ColorEncoding::Srgb
            && one != ColorEncoding::Srgb && other != ColorEncoding::Srgb),
    ensures
        differenced::<A, H>(before, after, space, threshold) == differenced::<A, H>(
            recoded(before, b, one, before.samples),
            recoded(after, a, other, after.samples),
            space,
            threshold,
        ),
{
}

} // verus!
