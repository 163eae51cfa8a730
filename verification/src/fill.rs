//! A constant colour painted into an image through a coverage mask.
//!
//! Per channel the result is `base + m * (value - base)`. Where the mask is zero the base is kept bit
//! for bit; where it is one the value is taken bit for bit.
use crate::arithmetic::{
    lawful, narrow_of, sample_fused, sample_fused_of, sample_minus, sample_minus_of, Arithmetic,
};
use crate::binary::{is_sample_zero, sample_rank, SAMPLE_ONE};
use crate::ir::{
    smaller, AssertionResult, Detail, Error, ErrorClass, Extent, ImageDescriptor,
    MaskDescriptor, Rect, ResourceDescriptor, ResourceKind,
};
use crate::json::{json_array, json_get, json_of, json_seq, Json};
use crate::lattice::{at, lemma_at_bounds, lemma_at_inverse, position};
use crate::params::{
    components, components_of, lemma_components, narrow_all, narrowed, seq_result, ComponentErrors,
};
use crate::ports::{gives_port, gives_value, image_of, image_port, one_port, port, port_view, Ports};
use crate::value::{sample_count, ResourceValue, ValueView};
use vstd::prelude::*;

verus! {

/// The operation's identifier.
pub const FILL_OP_ID: &'static str = "paint.fill@1";

/// An input was absent or of another kind.
pub const E_FILL_INPUT: &'static str = "E_FILL_INPUT";

/// The value had the wrong length, was not finite, or broke the image's range policy.
pub const E_FILL_VALUE: &'static str = "E_FILL_VALUE";

/// The mask's size is not the image's.
pub const E_FILL_SHAPE: &'static str = "E_FILL_SHAPE";

pub const VALUE_REQUIRED: &'static str = "paint.fill requires a per-channel `value` array";

pub const VALUE_NOT_ARRAY: &'static str = "paint.fill `value` must be an array of per-channel components";

pub const VALUE_COUNT: &'static str = "paint.fill `value` must have one component per layout channel";

pub const VALUE_NOT_NUMBER: &'static str = "paint.fill `value` component must be a number";

pub const VALUE_NOT_FINITE: &'static str = "paint.fill `value` component must be finite";

pub const ALPHA_RANGE: &'static str = "paint.fill `value` component is out of the alpha coverage range [0, 1]; clamping is never implicit";

pub const COLOR_RANGE: &'static str = "paint.fill `value` component is out of the display-referred color range [0, 1]; clamping is never implicit";

pub const IMAGE_REQUIRED: &'static str = "paint.fill requires an `image` input";

pub const IMAGE_VALUE_REQUIRED: &'static str = "paint.fill requires an `image` input value";

pub const IMAGE_WRONG: &'static str = "paint.fill `image` input must be an image resource";

pub const MASK_REQUIRED: &'static str = "paint.fill requires a `mask` input";

pub const MASK_VALUE_REQUIRED: &'static str = "paint.fill requires a `mask` input value";

pub const MASK_WRONG: &'static str = "paint.fill `mask` input must be a mask resource";

pub const MASK_EXTENT: &'static str = "paint.fill: the `mask` must share the `image` extent";

pub const BUFFER_LENGTH: &'static str = "paint.fill produced a sample buffer of unexpected length";

/// A refusal for the value.
#[verifier::allow_in_spec]
pub fn value_error(class: ErrorClass, message: &'static str) -> Error
    returns
        (Error::new(class, E_FILL_VALUE, message)),
{
    Error::new(class, E_FILL_VALUE, message)
}

/// A refusal for an input.
#[verifier::allow_in_spec]
pub fn input_error(class: ErrorClass, message: &'static str) -> Error
    returns
        (Error::new(class, E_FILL_INPUT, message)),
{
    Error::new(class, E_FILL_INPUT, message)
}

/// A refusal for a size.
#[verifier::allow_in_spec]
pub fn shape_error(class: ErrorClass, message: &'static str) -> Error
    returns
        (Error::new(class, E_FILL_SHAPE, message)),
{
    Error::new(class, E_FILL_SHAPE, message)
}

/// The refusal of a mask of another size than the image.
#[verifier::allow_in_spec]
pub fn extent_error(mask: Extent, image: Extent) -> Error
    returns
        (shape_error(ErrorClass::Semantic, MASK_EXTENT).about(
            Detail::Extents { first: mask, second: image },
        )),
{
    shape_error(ErrorClass::Semantic, MASK_EXTENT).about(Detail::Extents { first: mask, second: image })
}

/// How the components of the value are refused.
#[verifier::allow_in_spec]
pub fn component_errors() -> ComponentErrors
    returns
        (ComponentErrors {
            not_number: value_error(ErrorClass::Schema, VALUE_NOT_NUMBER),
            not_finite: value_error(ErrorClass::Schema, VALUE_NOT_FINITE),
            alpha_range: value_error(ErrorClass::Policy, ALPHA_RANGE),
            color_range: value_error(ErrorClass::Policy, COLOR_RANGE),
        }),
{
    ComponentErrors {
        not_number: value_error(ErrorClass::Schema, VALUE_NOT_NUMBER),
        not_finite: value_error(ErrorClass::Schema, VALUE_NOT_FINITE),
        alpha_range: value_error(ErrorClass::Policy, ALPHA_RANGE),
        color_range: value_error(ErrorClass::Policy, COLOR_RANGE),
    }
}

/// The value that the parameters give for an image like this: one finite number per channel, in
/// `[0, 1]` for alpha and for every channel of a display-referred image.
pub open spec fn fill_of(params: Json, d: ImageDescriptor) -> Result<Seq<u64>, Error> {
    match params.get("value"@) {
        None => Err(value_error(ErrorClass::Schema, VALUE_REQUIRED)),
        Some(v) => match v.as_array() {
            None => Err(value_error(ErrorClass::Schema, VALUE_NOT_ARRAY).about(Detail::Given)),
            Some(items) => if items.len() != d.layout.channel_count() {
                Err(
                    value_error(ErrorClass::Schema, VALUE_COUNT).about(
                        Detail::Components { found: items.len() as usize, layout: d.layout },
                    ),
                )
            } else {
                components_of(items, d, component_errors())
            },
        },
    }
}

/// Read the `value` parameter for an image like this.
pub fn parse_value(params: &serde_json::Value, d: ImageDescriptor) -> (r: Result<Vec<u64>, Error>)
    ensures
        seq_result(r) == fill_of(json_of(*params), d),
        r matches Ok(v) ==> v@.len() == d.layout.channel_count(),
{
    let value: &serde_json::Value = match json_get(params, "value") {
        None => {
            return Err(value_error(ErrorClass::Schema, VALUE_REQUIRED));
        },
        Some(value) => value,
    };
    let items: &Vec<serde_json::Value> = match json_array(value) {
        None => {
            return Err(value_error(ErrorClass::Schema, VALUE_NOT_ARRAY).about(Detail::Given));
        },
        Some(items) => items,
    };
    if items.len() != d.layout.channel_count() as usize {
        return Err(
            value_error(ErrorClass::Schema, VALUE_COUNT).about(
                Detail::Components { found: items.len(), layout: d.layout },
            ),
        );
    }
    proof {
        lemma_components(json_seq(items@), d, component_errors());
    }
    components(items, d, component_errors())
}

/// One blended sample: the base where the coverage is zero, the fill where it is one, and
/// `base + coverage * (fill - base)` elsewhere.
pub open spec fn blended<A: Arithmetic>(base: u32, coverage: u32, fill: u32) -> u32 {
    if sample_rank(coverage) == 0 {
        base
    } else if coverage == SAMPLE_ONE {
        fill
    } else {
        sample_fused_of::<A>(coverage, sample_minus_of::<A>(fill, base), base)
    }
}

/// Blend one sample.
fn blend<A: Arithmetic>(base: u32, coverage: u32, fill: u32) -> (r: u32)
    requires
        lawful::<A>(),
    ensures
        r == blended::<A>(base, coverage, fill),
{
    if is_sample_zero(coverage) {
        base
    } else if coverage == SAMPLE_ONE {
        fill
    } else {
        sample_fused::<A>(coverage, sample_minus::<A>(fill, base), base)
    }
}

/// How many pixels are painted: those that have samples and a coverage.
pub open spec fn painted_pixels(base: Seq<u32>, mask: Seq<u32>, channels: int) -> int {
    smaller(base.len() as int / channels, mask.len() as int)
}

/// How many samples of a pixel are painted: those that have a fill.
pub open spec fn painted_channels(fill: Seq<u32>, channels: int) -> int {
    smaller(channels, fill.len() as int)
}

/// The painted buffer: every channel of every pixel blended with its fill by the pixel's coverage.
pub open spec fn painted<A: Arithmetic>(base: Seq<u32>, mask: Seq<u32>, fill: Seq<u32>, channels: int) -> Seq<
    u32,
> {
    if channels == 0 {
        base
    } else {
        let per = painted_channels(fill, channels);
        Seq::new(
            (painted_pixels(base, mask, channels) * per) as nat,
            |i: int|
                blended::<A>(base[at(i % per, i / per, channels)], mask[i / per], fill[i % per]),
        )
    }
}

/// Paint a constant into a channel-interleaved buffer through a mask of one coverage per pixel.
pub fn paint<A: Arithmetic>(base: &Vec<u32>, mask: &Vec<u32>, fill: &Vec<u32>, channels: u32) -> (out: Vec<
    u32,
>)
    requires
        lawful::<A>(),
    ensures
        out@ == painted::<A>(base@, mask@, fill@, channels as int),
{
    let stride: usize = channels as usize;
    if stride == 0 {
        let kept: Vec<u32> = base.clone();
        assert(kept@ =~= base@);
        return kept;
    }
    let held: usize = base.len() / stride;
    let pixels: usize = if held <= mask.len() {
        held
    } else {
        mask.len()
    };
    let per: usize = if stride <= fill.len() {
        stride
    } else {
        fill.len()
    };
    let ghost whole = painted::<A>(base@, mask@, fill@, channels as int);
    let mut out: Vec<u32> = Vec::new();
    let mut p: usize = 0;
    proof {
        assert(pixels == painted_pixels(base@, mask@, channels as int));
        assert(per == painted_channels(fill@, channels as int));
        assert(0 * per == 0);
        assert(whole.len() == pixels * per) by (nonlinear_arith)
            requires
                whole.len() == (pixels * per) as nat,
                pixels >= 0,
                per >= 0,
        ;
    }
    while p < pixels
        invariant
            lawful::<A>(),
            stride == channels,
            stride > 0,
            held == base@.len() / stride as nat,
            pixels == painted_pixels(base@, mask@, channels as int),
            per == painted_channels(fill@, channels as int),
            pixels <= held,
            p <= pixels <= mask@.len(),
            per <= stride,
            per <= fill@.len(),
            whole == painted::<A>(base@, mask@, fill@, channels as int),
            whole.len() == pixels * per,
            out@.len() == p * per,
            forall|i: int| 0 <= i < p * per ==> #[trigger] out@[i] == whole[i],
        decreases pixels - p,
    {
        let mut c: usize = 0;
        while c < per
            invariant
                lawful::<A>(),
                stride == channels,
                stride > 0,
                held == base@.len() / stride as nat,
                pixels == painted_pixels(base@, mask@, channels as int),
                per == painted_channels(fill@, channels as int),
                pixels <= held,
                p < pixels <= mask@.len(),
                c <= per <= stride,
                per <= fill@.len(),
                whole == painted::<A>(base@, mask@, fill@, channels as int),
                whole.len() == pixels * per,
                out@.len() == p * per + c,
                forall|i: int| 0 <= i < p * per + c ==> #[trigger] out@[i] == whole[i],
            decreases per - c,
        {
            let size: usize = base.len();
            proof {
                lemma_at_bounds(c as int, p as int, stride as int, held as int);
                vstd::arithmetic::div_mod::lemma_fundamental_div_mod(size as int, stride as int);
                lemma_at_bounds(c as int, p as int, per as int, pixels as int);
                lemma_at_inverse(c as int, p as int, per as int);
                assert(per * pixels == pixels * per) by (nonlinear_arith);
            }
            let index: usize = position(c, p, stride);
            out.push(blend::<A>(base[index], mask[p], fill[c]));
            c = c + 1;
        }
        proof {
            assert((p + 1) * per == p * per + per) by (nonlinear_arith);
        }
        p = p + 1;
    }
    assert(out@ =~= whole);
    out
}

/// The mask that port `mask` describes.
pub open spec fn mask_of(inputs: Map<Seq<char>, ResourceDescriptor>) -> Result<MaskDescriptor, Error> {
    match port(inputs, "mask"@) {
        None => Err(input_error(ErrorClass::Reference, MASK_REQUIRED)),
        Some(ResourceDescriptor::Mask(m)) => Ok(m),
        Some(_) => Err(input_error(ErrorClass::Type, MASK_WRONG)),
    }
}

/// Take the size of the `mask` port.
pub fn mask_extent(inputs: &Ports<ResourceDescriptor>) -> (r: Result<Extent, Error>)
    ensures
        r == (match mask_of(inputs@) {
            Ok(m) => Ok::<Extent, Error>(m.extent),
            Err(e) => Err::<Extent, Error>(e),
        }),
{
    match inputs.get("mask") {
        None => Err(input_error(ErrorClass::Reference, MASK_REQUIRED)),
        Some(d) => match d {
            ResourceDescriptor::Mask(m) => Ok(m.extent),
            _ => Err(input_error(ErrorClass::Type, MASK_WRONG)),
        },
    }
}

/// Check that the mask has the image's size.
pub fn check_extent(image: Extent, mask: Extent) -> (r: Result<(), Error>)
    ensures
        r == (if image == mask {
            Ok::<(), Error>(())
        } else {
            Err::<(), Error>(extent_error(mask, image))
        }),
{
    if image == mask {
        return Ok(());
    }
    Err(extent_error(mask, image))
}

/// The operation.
#[derive(Debug, Clone, Copy)]
pub struct Fill;

/// What the operation produces: the image's own descriptor.
pub open spec fn inferred(inputs: Map<Seq<char>, ResourceDescriptor>, params: Json) -> Result<
    ResourceDescriptor,
    Error,
> {
    match image_of(
        inputs,
        "image"@,
        input_error(ErrorClass::Reference, IMAGE_REQUIRED),
        input_error(ErrorClass::Type, IMAGE_WRONG),
    ) {
        Err(e) => Err(e),
        Ok(d) => match mask_of(inputs) {
            Err(e) => Err(e),
            Ok(m) => if d.extent != m.extent {
                Err(extent_error(m.extent, d.extent))
            } else {
                match fill_of(params, d) {
                    Err(e) => Err(e),
                    Ok(_) => Ok(ResourceDescriptor::Image(d)),
                }
            },
        },
    }
}

/// What the operation makes of an image and a mask.
pub open spec fn filled_value<A: Arithmetic>(image: ValueView, mask: ValueView, params: Json) -> Result<
    ValueView,
    Error,
> {
    match image.descriptor {
        ResourceDescriptor::Image(d) => match mask.descriptor {
            ResourceDescriptor::Mask(m) => if d.extent != m.extent {
                Err(extent_error(m.extent, d.extent))
            } else {
                match fill_of(params, d) {
                    Err(e) => Err(e),
                    Ok(value) => {
                        let samples = painted::<A>(
                            image.samples,
                            mask.samples,
                            narrowed::<A>(value),
                            image.channels as int,
                        );
                        if samples.len() == sample_count(image.descriptor, image.channels) {
                            Ok(
                                ValueView {
                                    descriptor: image.descriptor,
                                    channels: image.channels,
                                    samples,
                                },
                            )
                        } else {
                            Err(
                                shape_error(ErrorClass::Execution, BUFFER_LENGTH).about(
                                    Detail::Whole { value: samples.len() as u64 },
                                ),
                            )
                        }
                    },
                }
            },
            _ => Err(input_error(ErrorClass::Type, MASK_WRONG)),
        },
        _ => Err(input_error(ErrorClass::Type, IMAGE_WRONG)),
    }
}

/// What the operation makes of its inputs.
pub open spec fn filled<A: Arithmetic>(inputs: Map<Seq<char>, ResourceValue>, params: Json) -> Result<
    ValueView,
    Error,
> {
    match (port_view(inputs, "image"@), port_view(inputs, "mask"@)) {
        (None, _) => Err(input_error(ErrorClass::Reference, IMAGE_VALUE_REQUIRED)),
        (Some(_), None) => Err(input_error(ErrorClass::Reference, MASK_VALUE_REQUIRED)),
        (Some(image), Some(mask)) => filled_value::<A>(image, mask, params),
    }
}

/// The outcomes that the operation reports for its outputs.
pub open spec fn outcomes(outputs: Map<Seq<char>, ResourceDescriptor>, params: Json) -> Seq<
    AssertionResult,
> {
    match port(outputs, "image"@) {
        Some(ResourceDescriptor::Image(d)) => seq![
            AssertionResult::pass("produces_image"),
            match fill_of(params, d) {
                Ok(_) => AssertionResult::pass("value_in_range"),
                Err(e) => AssertionResult::fail("value_in_range", e.message).with(e.detail),
            },
        ],
        _ => seq![AssertionResult::fail("produces_image", "no `image` output produced")],
    }
}

impl Default for Fill {
    /// The operation.
    fn default() -> (r: Self)
        ensures
            r == Fill,
    {
        Fill
    }
}

impl Fill {
    /// The operation.
    pub fn new() -> (r: Self)
        ensures
            r == Fill,
    {
        Fill
    }

    /// The input ports and their kinds.
    pub fn declared_inputs(&self) -> (r: Vec<(&'static str, ResourceKind)>)
        ensures
            r@ == seq![("image", ResourceKind::Image), ("mask", ResourceKind::Mask)],
    {
        vec![("image", ResourceKind::Image), ("mask", ResourceKind::Mask)]
    }

    /// The output ports and their kinds.
    pub fn declared_outputs(&self) -> (r: Vec<(&'static str, ResourceKind)>)
        ensures
            r@ == seq![("image", ResourceKind::Image)],
    {
        vec![("image", ResourceKind::Image)]
    }

    /// What the operation produces of inputs like these.
    pub fn infer_outputs(
        &self,
        inputs: &Ports<ResourceDescriptor>,
        params: &serde_json::Value,
    ) -> (r: Result<Ports<ResourceDescriptor>, Error>)
        ensures
            gives_port(r, "image"@, inferred(inputs@, json_of(*params))),
    {
        let d: ImageDescriptor = match image_port(
            inputs,
            "image",
            input_error(ErrorClass::Reference, IMAGE_REQUIRED),
            input_error(ErrorClass::Type, IMAGE_WRONG),
        ) {
            Err(e) => {
                return Err(e);
            },
            Ok(d) => d,
        };
        let extent: Extent = match mask_extent(inputs) {
            Err(e) => {
                return Err(e);
            },
            Ok(extent) => extent,
        };
        match check_extent(d.extent, extent) {
            Err(e) => {
                return Err(e);
            },
            Ok(_) => {},
        }
        match parse_value(params, d) {
            Err(e) => Err(e),
            Ok(_) => Ok(one_port("image", ResourceDescriptor::Image(d))),
        }
    }

    /// Which regions of the inputs the requested output needs: the same of both.
    pub fn required_inputs(
        &self,
        requested_outputs: &Ports<Rect>,
        _inputs: &Ports<ResourceDescriptor>,
        _params: &serde_json::Value,
    ) -> (r: Result<Ports<Rect>, Error>)
        ensures
            r matches Ok(regions) && regions@ == (match port(requested_outputs@, "image"@) {
                None => Map::<Seq<char>, Rect>::empty(),
                Some(region) => Map::empty().insert("image"@, region).insert("mask"@, region),
            }),
    {
        let mut regions: Ports<Rect> = Ports::new();
        if let Some(region) = requested_outputs.get("image") {
            regions.insert("image".to_owned(), *region);
            regions.insert("mask".to_owned(), *region);
        }
        Ok(regions)
    }

    /// Whether the produced resource is an image and the value is valid for it.
    pub fn validate_postconditions(
        &self,
        outputs: &Ports<ResourceDescriptor>,
        params: &serde_json::Value,
    ) -> (r: Result<Vec<AssertionResult>, Error>)
        ensures
            r matches Ok(v) && v@ == outcomes(outputs@, json_of(*params)),
    {
        match outputs.get("image") {
            Some(ResourceDescriptor::Image(d)) => {
                let in_range: AssertionResult = match parse_value(params, *d) {
                    Ok(_) => AssertionResult::pass("value_in_range"),
                    Err(e) => AssertionResult::fail("value_in_range", e.message).with(e.detail),
                };
                Ok(vec![AssertionResult::pass("produces_image"), in_range])
            },
            _ => Ok(vec![AssertionResult::fail("produces_image", "no `image` output produced")]),
        }
    }

    /// Paint the value into the image.
    pub fn compute<A: Arithmetic>(
        &self,
        inputs: &Ports<ResourceValue>,
        params: &serde_json::Value,
    ) -> (r: Result<Ports<ResourceValue>, Error>)
        requires
            lawful::<A>(),
        ensures
            gives_value(r, "image"@, filled::<A>(inputs@, json_of(*params))),
    {
        let image: &ResourceValue = match inputs.get("image") {
            None => {
                return Err(input_error(ErrorClass::Reference, IMAGE_VALUE_REQUIRED));
            },
            Some(image) => image,
        };
        let mask: &ResourceValue = match inputs.get("mask") {
            None => {
                return Err(input_error(ErrorClass::Reference, MASK_VALUE_REQUIRED));
            },
            Some(mask) => mask,
        };
        let d: ImageDescriptor = match image.descriptor() {
            ResourceDescriptor::Image(d) => d,
            _ => {
                return Err(input_error(ErrorClass::Type, IMAGE_WRONG));
            },
        };
        let m: MaskDescriptor = match mask.descriptor() {
            ResourceDescriptor::Mask(m) => m,
            _ => {
                return Err(input_error(ErrorClass::Type, MASK_WRONG));
            },
        };
        match check_extent(d.extent, m.extent) {
            Err(e) => {
                return Err(e);
            },
            Ok(_) => {},
        }
        let fill: Vec<u32> = match parse_value(params, d) {
            Err(e) => {
                return Err(e);
            },
            Ok(value) => narrow_all::<A>(&value),
        };
        let samples: Vec<u32> = paint::<A>(image.samples(), mask.samples(), &fill, image.channels());
        match ResourceValue::new(image.descriptor(), image.channels(), samples) {
            Ok(value) => Ok(one_port("image", value)),
            Err(actual) => Err(
                shape_error(ErrorClass::Execution, BUFFER_LENGTH).about(
                    Detail::Whole { value: actual as u64 },
                ),
            ),
        }
    }
}

/// For an image whose channels are those of its layout, and a mask of one coverage per pixel, a
/// valid value is always painted.
pub proof fn law_valid_fill_succeeds<A: Arithmetic>(
    image: ValueView,
    mask: ValueView,
    d: ImageDescriptor,
    m: MaskDescriptor,
    params: Json,
)
    requires
        image.descriptor == ResourceDescriptor::Image(d),
        mask.descriptor == ResourceDescriptor::Mask(m),
        d.extent == m.extent,
        image.channels == d.layout.channel_count(),
        image.samples.len() == sample_count(image.descriptor, image.channels),
        mask.samples.len() == m.extent.area(),
        fill_of(params, d) is Ok,
    ensures
        filled_value::<A>(image, mask, params) is Ok,
{
    lemma_painted_len::<A>(image, mask, d, m, params);
}

pub proof fn lemma_painted_len<A: Arithmetic>(
    image: ValueView,
    mask: ValueView,
    d: ImageDescriptor,
    m: MaskDescriptor,
    params: Json,
)
    requires
        image.descriptor == ResourceDescriptor::Image(d),
        mask.descriptor == ResourceDescriptor::Mask(m),
        d.extent == m.extent,
        image.channels == d.layout.channel_count(),
        image.samples.len() == sample_count(image.descriptor, image.channels),
        mask.samples.len() == m.extent.area(),
        fill_of(params, d) is Ok,
    ensures
        painted_pixels(image.samples, mask.samples, image.channels as int) == d.extent.area(),
        painted_channels(narrowed::<A>(fill_of(params, d)->Ok_0), image.channels as int)
            == image.channels,
        painted::<A>(
            image.samples,
            mask.samples,
            narrowed::<A>(fill_of(params, d)->Ok_0),
            image.channels as int,
        ).len() == sample_count(image.descriptor, image.channels),
{
    let c = image.channels as int;
    let area = d.extent.area();
    assert(area >= 0) by (nonlinear_arith)
        requires
            area == d.extent.width * d.extent.height,
            d.extent.width >= 0,
            d.extent.height >= 0,
    ;
    vstd::arithmetic::div_mod::lemma_div_multiples_vanish(area, c);
    match params.get("value"@) {
        Some(v) => match v.as_array() {
            Some(items) => {
                lemma_components(items, d, component_errors());
            },
            None => {},
        },
        None => {},
    }
    assert(area * c >= 0) by (nonlinear_arith)
        requires
            area >= 0,
            c >= 0,
    ;
}

/// Outside the mask nothing changes: where the coverage is zero, every channel of the output has the
/// input's bits, whatever the value and the arithmetic.
pub proof fn law_no_change_outside_mask<A: Arithmetic>(
    image: ValueView,
    mask: ValueView,
    d: ImageDescriptor,
    m: MaskDescriptor,
    params: Json,
    pixel: int,
    ch: int,
)
    requires
        image.descriptor == ResourceDescriptor::Image(d),
        mask.descriptor == ResourceDescriptor::Mask(m),
        d.extent == m.extent,
        image.channels == d.layout.channel_count(),
        image.samples.len() == sample_count(image.descriptor, image.channels),
        mask.samples.len() == m.extent.area(),
        fill_of(params, d) is Ok,
        0 <= pixel < d.extent.area(),
        0 <= ch < image.channels,
        sample_rank(mask.samples[pixel]) == 0,
    ensures
        filled_value::<A>(image, mask, params) matches Ok(out) && out.samples[at(
            ch,
            pixel,
            image.channels as int,
        )] == image.samples[at(ch, pixel, image.channels as int)],
{
    lemma_painted_len::<A>(image, mask, d, m, params);
    lemma_at_bounds(ch, pixel, image.channels as int, d.extent.area());
    lemma_at_inverse(ch, pixel, image.channels as int);
    let area = d.extent.area();
}

/// Where the coverage is one, every channel of the output is the value's component, rounded to a
/// sample.
pub proof fn law_full_coverage_takes_value<A: Arithmetic>(
    image: ValueView,
    mask: ValueView,
    d: ImageDescriptor,
    m: MaskDescriptor,
    params: Json,
    pixel: int,
    ch: int,
)
    requires
        image.descriptor == ResourceDescriptor::Image(d),
        mask.descriptor == ResourceDescriptor::Mask(m),
        d.extent == m.extent,
        image.channels == d.layout.channel_count(),
        image.samples.len() == sample_count(image.descriptor, image.channels),
        mask.samples.len() == m.extent.area(),
        fill_of(params, d) is Ok,
        0 <= pixel < d.extent.area(),
        0 <= ch < image.channels,
        mask.samples[pixel] == SAMPLE_ONE,
    ensures
        filled_value::<A>(image, mask, params) matches Ok(out) && out.samples[at(
            ch,
            pixel,
            image.channels as int,
        )] == narrow_of::<A>((fill_of(params, d)->Ok_0)[ch]),
{
    lemma_painted_len::<A>(image, mask, d, m, params);
    lemma_at_bounds(ch, pixel, image.channels as int, d.extent.area());
    lemma_at_inverse(ch, pixel, image.channels as int);
    let area = d.extent.area();
    match params.get("value"@) {
        Some(v) => match v.as_array() {
            Some(items) => {
                lemma_components(items, d, component_errors());
            },
            None => {},
        },
        None => {},
    }
}

} // verus!
