//! What an operation is said to make and what it makes agree: where a result is inferred and made, the result
//! has the descriptor that was inferred.
use crate::arithmetic::Arithmetic;
use crate::convolve;
use crate::crop;
use crate::diff;
use crate::domain_warp;
use crate::ellipse;
use crate::fft;
use crate::fill;
use crate::flip;
use crate::gaussian_blur;
use crate::gaussian_pyramid;
use crate::gradient;
use crate::guided;
use crate::ir::{Rect, ResourceDescriptor};
use crate::json::Json;
use crate::ports::{port_view, whole_input, with_whole};
use crate::report::Digest;
use crate::value::{ResourceValue, ValueView};
use vstd::prelude::*;

verus! {

/// The descriptors are those of the inputs.
pub open spec fn describes(
    kinds: Map<Seq<char>, ResourceDescriptor>,
    inputs: Map<Seq<char>, ResourceValue>,
) -> bool {
    &&& kinds.dom() == inputs.dom()
    &&& forall|name: Seq<char>| #[trigger] inputs.dom().contains(name) ==> kinds[name] == inputs[name]@.descriptor
}

/// What is inferred is what is made, where both are there.
pub open spec fn agrees<E>(inferred: Result<ResourceDescriptor, E>, made: Result<ValueView, E>) -> bool {
    inferred matches Ok(d) ==> (made matches Ok(v) ==> v.descriptor == d)
}

/// A crop and a mirror image are made exactly where they are inferred, of the kind that is inferred.
pub proof fn law_moved_pixels_are_inferred(
    kinds: Map<Seq<char>, ResourceDescriptor>,
    inputs: Map<Seq<char>, ResourceValue>,
    params: Json,
)
    requires
        describes(kinds, inputs),
    ensures
        agrees(crop::inferred(kinds, params), crop::cropped_value(inputs, params)),
        agrees(flip::inferred(kinds, params), flip::flipped_value(inputs, params)),
        crop::inferred(kinds, params) is Ok <==> crop::cropped_value(inputs, params) is Ok,
        flip::inferred(kinds, params) is Ok <==> flip::flipped_value(inputs, params) is Ok,
{
}

/// Filtered planes are of the kind that is inferred: a blur and a guided filter keep their input's kind, and a
/// convolution its size as well but for the mode that gives up what would overhang.
pub proof fn law_filtered_planes_are_inferred<A: Arithmetic>(
    kinds: Map<Seq<char>, ResourceDescriptor>,
    inputs: Map<Seq<char>, ResourceValue>,
    params: Json,
)
    requires
        describes(kinds, inputs),
        port_view(inputs, "input"@) matches Some(input) ==> convolve::channels_of(input.descriptor) == input.channels,
    ensures
        agrees(convolve::inferred(kinds, params), convolve::convolved::<A>(inputs, params)),
        agrees(gaussian_blur::inferred::<A>(kinds, params), gaussian_blur::blurred::<A>(inputs, params)),
        agrees(guided::inferred(kinds, params), guided::guided_value::<A>(inputs, params)),
        convolve::inferred(kinds, params) is Ok <==> convolve::convolved::<A>(inputs, params) is Ok,
        gaussian_blur::inferred::<A>(kinds, params) is Ok <==> gaussian_blur::blurred::<A>(inputs, params) is Ok,
        guided::inferred(kinds, params) is Ok <==> guided::guided_value::<A>(inputs, params) is Ok,
        gaussian_blur::blurred::<A>(inputs, params) matches Ok(v) ==> port_view(inputs, "input"@) is Some
            && v.descriptor == port_view(inputs, "input"@)->Some_0.descriptor,
{
}

/// Warped, filled, drawn and transformed resources are of the kind that is inferred.
pub proof fn law_other_results_are_inferred<A: Arithmetic>(
    kinds: Map<Seq<char>, ResourceDescriptor>,
    inputs: Map<Seq<char>, ResourceValue>,
    params: Json,
    shape: gradient::Shape,
)
    requires
        describes(kinds, inputs),
        port_view(inputs, "input"@) matches Some(input) ==> convolve::channels_of(input.descriptor) == input.channels,
    ensures
        agrees(domain_warp::inferred(kinds, params), domain_warp::warped_value::<A>(inputs, params)),
        agrees(fill::inferred(kinds, params), fill::filled::<A>(inputs, params)),
        agrees(ellipse::inferred(kinds, params), ellipse::drawn::<A>(inputs, params)),
        agrees(gradient::inferred::<A>(shape, kinds, params), gradient::drawn::<A>(shape, inputs, params)),
        agrees(fft::forward_inferred(kinds), fft::forward_value::<A>(inputs)),
        agrees(fft::inverse_inferred(kinds), fft::inverse_value::<A>(inputs)),
        agrees(gaussian_pyramid::inferred(kinds, params), gaussian_pyramid::pyramid_value::<A>(inputs, params)),
        domain_warp::inferred(kinds, params) is Ok ==> domain_warp::warped_value::<A>(inputs, params) is Ok,
        ellipse::inferred(kinds, params) is Ok <==> ellipse::drawn::<A>(inputs, params) is Ok,
        gradient::inferred::<A>(shape, kinds, params) is Ok <==> gradient::drawn::<A>(shape, inputs, params) is Ok,
        fft::forward_inferred(kinds) is Ok ==> fft::forward_value::<A>(inputs) is Ok,
        fft::inverse_inferred(kinds) is Ok <==> fft::inverse_value::<A>(inputs) is Ok,
{
}

/// The differences of two images are of the kind that is inferred for them.
pub proof fn law_differences_are_inferred<A: Arithmetic, H: Digest>(
    kinds: Map<Seq<char>, ResourceDescriptor>,
    inputs: Map<Seq<char>, ResourceValue>,
    params: Json,
)
    requires
        describes(kinds, inputs),
    ensures
        diff::inferred(kinds, params) matches Ok(outputs) ==> (diff::difference_of::<A, H>(inputs, params) matches Ok(
            difference,
        ) ==> outputs["diff"@] == difference.value.descriptor),
{
    lemma_names_differ();
}

/// The names of a difference's outputs differ.
proof fn lemma_names_differ()
    ensures
        "diff"@ != "report"@,
{
    reveal_strlit("diff");
    reveal_strlit("report");
    assert("diff"@.len() == 4);
    assert("report"@.len() == 6);
}

/// A warp asks for every pixel of its source, since a displacement may lead anywhere, and for the displacement
/// of every pixel that is wanted.
pub proof fn law_warp_asks_for_enough(
    requested: Map<Seq<char>, Rect>,
    kinds: Map<Seq<char>, ResourceDescriptor>,
    x: int,
    y: int,
)
    requires
        kinds.dom().contains("source"@),
        0 <= x < kinds["source"@].extent().width,
        0 <= y < kinds["source"@].extent().height,
        requested.dom().contains("warped"@) ==> requested["warped"@].covers(x, y),
    ensures
        domain_warp::needed(requested, kinds)["source"@].covers(x, y),
        domain_warp::needed(requested, kinds)["displacement"@].covers(x, y),
        domain_warp::needed(requested, kinds).dom() == Set::empty().insert("source"@).insert("displacement"@),
{
    reveal_strlit("source");
    reveal_strlit("displacement");
    assert("source"@.len() == 6);
    assert("displacement"@.len() == 12);
}

/// An operation that asks for the whole of an input asks for every pixel of it, and for as much of the others
/// as before.
pub proof fn law_whole_input_is_every_pixel(
    regions: Map<Seq<char>, Rect>,
    kinds: Map<Seq<char>, ResourceDescriptor>,
    name: Seq<char>,
    other: Seq<char>,
    x: int,
    y: int,
)
    requires
        kinds.dom().contains(name),
        0 <= x < kinds[name].extent().width,
        0 <= y < kinds[name].extent().height,
        regions.dom().contains(other),
        other != name,
    ensures
        with_whole(regions, kinds, name)[name].covers(x, y),
        with_whole(regions, kinds, name)[other] == regions[other],
        whole_input(kinds, name)[name].covers(x, y),
{
}

} // verus!
