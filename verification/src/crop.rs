//! Exact selection of a half-open rectangle of an image.
use crate::ir::{
    AssertionResult, Detail, Error, ErrorClass, Extent, ImageDescriptor, Rect,
    ResourceDescriptor, ResourceKind,
};
use crate::json::{json_get, json_of, json_signed, Json};
use crate::lattice::{
    lemma_fewer_samples, lemma_raster_sample, lemma_sample_at, lemma_sample_of, plane_len, raster,
    sample_at, sample_position,
};
use crate::ports::{
    check_image_output, gives_optional_port, gives_port, gives_value, image_of, image_outcome,
    image_port, image_value, image_value_of, one_port, port, Ports,
};
use crate::value::{ResourceValue, ValueView};
use vstd::prelude::*;

verus! {

/// The operation's identifier.
pub const CROP_OP_ID: &'static str = "image.crop@1";

/// The image was absent or of another kind.
pub const E_CROP_INPUT: &'static str = "E_CROP_INPUT";

/// The rectangle was missing, malformed, or not well formed.
pub const E_CROP_RECT: &'static str = "E_CROP_RECT";

/// The rectangle escaped the image.
pub const E_CROP_BOUNDS: &'static str = "E_CROP_BOUNDS";

pub const RECT_REQUIRED: &'static str = "image.crop requires a `rect` parameter (x0, y0, x1, y1)";

pub const RECT_MALFORMED: &'static str = "image.crop `rect` is not a half-open rectangle";

pub const RECT_ILL_FORMED: &'static str = "image.crop `rect` is ill-formed: x1 >= x0 and y1 >= y0 required";

pub const RECT_ESCAPES: &'static str = "image.crop `rect` must lie fully within the input extent; cropping never invents samples";

pub const IMAGE_REQUIRED: &'static str = "image.crop requires an `image` input";

pub const IMAGE_VALUE_REQUIRED: &'static str = "image.crop requires an `image` input value";

pub const IMAGE_WRONG: &'static str = "image.crop `image` input must be an image resource";

/// The error of a bad rectangle.
#[verifier::allow_in_spec]
pub fn rect_error(message: &'static str) -> Error
    returns
        (Error::new(ErrorClass::Schema, E_CROP_RECT, message)),
{
    Error::new(ErrorClass::Schema, E_CROP_RECT, message)
}

/// The error of a rectangle that escapes the image.
#[verifier::allow_in_spec]
pub fn bounds_error(rect: Rect, extent: Extent) -> Error
    returns
        (Error::new(ErrorClass::Semantic, E_CROP_BOUNDS, RECT_ESCAPES).about(
            Detail::Outside { rect, extent },
        )),
{
    Error::new(ErrorClass::Semantic, E_CROP_BOUNDS, RECT_ESCAPES).about(Detail::Outside { rect, extent })
}

/// The error of an absent image.
#[verifier::allow_in_spec]
pub fn image_missing() -> Error
    returns
        (Error::new(ErrorClass::Reference, E_CROP_INPUT, IMAGE_REQUIRED)),
{
    Error::new(ErrorClass::Reference, E_CROP_INPUT, IMAGE_REQUIRED)
}

/// The error of an absent image value.
#[verifier::allow_in_spec]
pub fn image_value_missing() -> Error
    returns
        (Error::new(ErrorClass::Reference, E_CROP_INPUT, IMAGE_VALUE_REQUIRED)),
{
    Error::new(ErrorClass::Reference, E_CROP_INPUT, IMAGE_VALUE_REQUIRED)
}

/// The error of an input that is no image.
#[verifier::allow_in_spec]
pub fn image_wrong() -> Error
    returns
        (Error::new(ErrorClass::Type, E_CROP_INPUT, IMAGE_WRONG)),
{
    Error::new(ErrorClass::Type, E_CROP_INPUT, IMAGE_WRONG)
}

/// The member `key` of a value, read as a signed integer.
pub open spec fn edge_of(value: Json, key: Seq<char>) -> Option<i64> {
    match value.get(key) {
        None => None,
        Some(v) => v.as_signed(),
    }
}

/// Read the member `key` of a value as a signed integer.
fn edge(value: &serde_json::Value, key: &str) -> (r: Option<i64>)
    ensures
        r == edge_of(json_of(*value), key@),
{
    match json_get(value, key) {
        None => None,
        Some(v) => json_signed(v),
    }
}

/// The rectangle that the parameters give: an object with the four integer edges, no upper edge
/// before its lower edge.
pub open spec fn rect_of(params: Json) -> Result<Rect, Error> {
    match params.get("rect"@) {
        None => Err(rect_error(RECT_REQUIRED)),
        Some(v) => match (edge_of(v, "x0"@), edge_of(v, "y0"@), edge_of(v, "x1"@), edge_of(v, "y1"@)) {
            (Some(x0), Some(y0), Some(x1), Some(y1)) => if x1 >= x0 && y1 >= y0 {
                Ok(Rect { x0, y0, x1, y1 })
            } else {
                Err(rect_error(RECT_ILL_FORMED).about(Detail::Edges { rect: Rect { x0, y0, x1, y1 } }))
            },
            _ => Err(rect_error(RECT_MALFORMED).about(Detail::Given)),
        },
    }
}

/// Read the `rect` parameter.
pub fn rect_param(params: &serde_json::Value) -> (r: Result<Rect, Error>)
    ensures
        r == rect_of(json_of(*params)),
{
    let value: &serde_json::Value = match json_get(params, "rect") {
        None => {
            return Err(rect_error(RECT_REQUIRED));
        },
        Some(value) => value,
    };
    match (edge(value, "x0"), edge(value, "y0"), edge(value, "x1"), edge(value, "y1")) {
        (Some(x0), Some(y0), Some(x1), Some(y1)) => {
            let rect: Rect = Rect { x0, y0, x1, y1 };
            if rect.is_valid() {
                Ok(rect)
            } else {
                Err(rect_error(RECT_ILL_FORMED).about(Detail::Edges { rect }))
            }
        },
        _ => Err(rect_error(RECT_MALFORMED).about(Detail::Given)),
    }
}

/// The rectangle lies inside an image of this size.
pub open spec fn within(rect: Rect, extent: Extent) -> bool {
    0 <= rect.x0 && 0 <= rect.y0 && rect.x1 <= extent.width && rect.y1 <= extent.height
}

/// Check that the rectangle lies inside an image of this size.
pub fn check_bounds(rect: Rect, extent: Extent) -> (r: Result<(), Error>)
    ensures
        r == (if within(rect, extent) {
            Ok::<(), Error>(())
        } else {
            Err::<(), Error>(bounds_error(rect, extent))
        }),
{
    if rect.x0 < 0 || rect.y0 < 0 || rect.x1 > extent.width as i64 || rect.y1 > extent.height as i64 {
        return Err(bounds_error(rect, extent));
    }
    Ok(())
}

/// The size of a rectangle that lies inside an image.
pub open spec fn rect_extent(rect: Rect) -> Extent {
    Extent { width: (rect.x1 - rect.x0) as u32, height: (rect.y1 - rect.y0) as u32 }
}

/// The selected buffer: the samples of the rectangle's pixels, row by row.
pub open spec fn cropped<T>(samples: Seq<T>, src: Extent, rect: Rect, channels: int) -> Seq<T> {
    raster(
        rect.x1 - rect.x0,
        rect.y1 - rect.y0,
        channels,
        |x: int, y: int, ch: int|
            samples[sample_at(rect.x0 + x, rect.y0 + y, ch, src.width as int, channels)],
    )
}

/// Copy a rectangle out of a channel-interleaved buffer.
pub fn crop_samples<T: Copy>(samples: &Vec<T>, src: Extent, rect: Rect, channels: u32) -> (out: Vec<T>)
    requires
        samples@.len() == src.area() * channels,
        rect.is_valid(),
        within(rect, src),
    ensures
        out@ == cropped(samples@, src, rect, channels as int),
{
    let stride: usize = channels as usize;
    let src_w: usize = src.width as usize;
    let x0: usize = rect.x0 as usize;
    let y0: usize = rect.y0 as usize;
    let out_w: usize = (rect.x1 - rect.x0) as usize;
    let out_h: usize = (rect.y1 - rect.y0) as usize;
    let held: usize = samples.len();
    let ghost whole = cropped(samples@, src, rect, channels as int);
    let mut out: Vec<T> = Vec::new();
    if stride == 0 {
        assert(out_w * out_h * stride == 0) by (nonlinear_arith)
            requires
                stride == 0,
        ;
        return out;
    }
    proof {
        lemma_fewer_samples(
            out_w as int,
            out_h as int,
            src.width as int,
            src.height as int,
            channels as int,
        );
    }
    let count: usize = plane_len(out_w, out_h, stride);
    let mut i: usize = 0;
    while i < count
        invariant
            samples@.len() == src.area() * channels,
            held == samples@.len(),
            rect.is_valid(),
            within(rect, src),
            stride == channels,
            src_w == src.width,
            x0 == rect.x0,
            y0 == rect.y0,
            out_w == rect.x1 - rect.x0,
            out_h == rect.y1 - rect.y0,
            count == out_w * out_h * stride,
            i <= count,
            whole == cropped(samples@, src, rect, channels as int),
            out@ == whole.take(i as int),
        decreases count - i,
    {
        proof {
            lemma_sample_of(i as int, out_w as int, out_h as int, stride as int);
        }
        let ch: usize = i % stride;
        let p: usize = i / stride;
        let x: usize = p % out_w;
        let y: usize = p / out_w;
        proof {
            lemma_sample_at(
                x0 + x,
                y0 + y,
                ch as int,
                src.width as int,
                src.height as int,
                stride as int,
            );
        }
        out.push(samples[sample_position(x0 + x, y0 + y, ch, src_w, stride)]);
        i = i + 1;
    }
    out
}

/// The operation.
#[derive(Debug, Clone, Copy)]
pub struct Crop;

/// What a request makes of an image's descriptor: the rectangle's size and all else kept.
pub open spec fn cropped_descriptor(d: ImageDescriptor, params: Json) -> Result<ImageDescriptor, Error> {
    match rect_of(params) {
        Err(e) => Err(e),
        Ok(rect) => if within(rect, d.extent) {
            Ok(ImageDescriptor { extent: rect_extent(rect), ..d })
        } else {
            Err(bounds_error(rect, d.extent))
        },
    }
}

/// What the operation produces.
pub open spec fn inferred(inputs: Map<Seq<char>, ResourceDescriptor>, params: Json) -> Result<
    ResourceDescriptor,
    Error,
> {
    match image_of(inputs, "image"@, image_missing(), image_wrong()) {
        Err(e) => Err(e),
        Ok(d) => match cropped_descriptor(d, params) {
            Err(e) => Err(e),
            Ok(out) => Ok(ResourceDescriptor::Image(out)),
        },
    }
}

/// The region moved by the rectangle's origin.
pub open spec fn shifted(region: Rect, rect: Rect) -> Rect {
    Rect {
        x0: (region.x0 + rect.x0) as i64,
        y0: (region.y0 + rect.y0) as i64,
        x1: (region.x1 + rect.x0) as i64,
        y1: (region.y1 + rect.y0) as i64,
    }
}

/// Every edge of the moved region is a number of its type.
pub open spec fn shift_fits(region: Rect, rect: Rect) -> bool {
    &&& i64::MIN <= region.x0 + rect.x0 <= i64::MAX
    &&& i64::MIN <= region.y0 + rect.y0 <= i64::MAX
    &&& i64::MIN <= region.x1 + rect.x0 <= i64::MAX
    &&& i64::MIN <= region.y1 + rect.y0 <= i64::MAX
}

/// The requested region, if any, can be moved by the rectangle's origin, if there is one.
pub open spec fn request_fits(requested: Map<Seq<char>, Rect>, params: Json) -> bool {
    match (port(requested, "image"@), rect_of(params)) {
        (Some(region), Ok(rect)) => shift_fits(region, rect),
        _ => true,
    }
}

/// The region of the image that the requested output needs, if any is requested.
pub open spec fn needed(requested: Map<Seq<char>, Rect>, params: Json) -> Result<Option<Rect>, Error> {
    match rect_of(params) {
        Err(e) => Err(e),
        Ok(rect) => match port(requested, "image"@) {
            None => Ok(None),
            Some(region) => Ok(Some(shifted(region, rect))),
        },
    }
}

/// What the operation makes of its input.
pub open spec fn cropped_value(inputs: Map<Seq<char>, ResourceValue>, params: Json) -> Result<
    ValueView,
    Error,
> {
    match image_value_of(inputs, "image"@, image_value_missing(), image_wrong()) {
        Err(e) => Err(e),
        Ok(d) => match cropped_descriptor(d, params) {
            Err(e) => Err(e),
            Ok(out) => Ok(
                ValueView {
                    descriptor: ResourceDescriptor::Image(out),
                    channels: inputs["image"@]@.channels,
                    samples: cropped(
                        inputs["image"@]@.samples,
                        d.extent,
                        rect_of(params)->Ok_0,
                        inputs["image"@]@.channels as int,
                    ),
                },
            ),
        },
    }
}

impl Default for Crop {
    /// The operation.
    fn default() -> (r: Self)
        ensures
            r == Crop,
    {
        Crop
    }
}

impl Crop {
    /// The operation.
    pub fn new() -> (r: Self)
        ensures
            r == Crop,
    {
        Crop
    }

    /// The input ports and their kinds.
    pub fn declared_inputs(&self) -> (r: Vec<(&'static str, ResourceKind)>)
        ensures
            r@ == seq![("image", ResourceKind::Image)],
    {
        vec![("image", ResourceKind::Image)]
    }

    /// The output ports and their kinds.
    pub fn declared_outputs(&self) -> (r: Vec<(&'static str, ResourceKind)>)
        ensures
            r@ == seq![("image", ResourceKind::Image)],
    {
        vec![("image", ResourceKind::Image)]
    }

    /// What the operation produces of inputs like these.
    pub fn infer_outputs(
        &self,
        inputs: &Ports<ResourceDescriptor>,
        params: &serde_json::Value,
    ) -> (r: Result<Ports<ResourceDescriptor>, Error>)
        ensures
            gives_port(r, "image"@, inferred(inputs@, json_of(*params))),
    {
        let d: ImageDescriptor = match image_port(inputs, "image", image_missing(), image_wrong()) {
            Err(e) => {
                return Err(e);
            },
            Ok(d) => d,
        };
        let rect: Rect = match rect_param(params) {
            Err(e) => {
                return Err(e);
            },
            Ok(rect) => rect,
        };
        match check_bounds(rect, d.extent) {
            Err(e) => Err(e),
            Ok(_) => {
                let extent: Extent = Extent {
                    width: (rect.x1 - rect.x0) as u32,
                    height: (rect.y1 - rect.y0) as u32,
                };
                Ok(one_port("image", ResourceDescriptor::Image(ImageDescriptor { extent, ..d })))
            },
        }
    }

    /// Which region of the image the requested output needs.
    pub fn required_inputs(
        &self,
        requested_outputs: &Ports<Rect>,
        _inputs: &Ports<ResourceDescriptor>,
        params: &serde_json::Value,
    ) -> (r: Result<Ports<Rect>, Error>)
        requires
            request_fits(requested_outputs@, json_of(*params)),
        ensures
            gives_optional_port(r, "image"@, needed(requested_outputs@, json_of(*params))),
    {
        let rect: Rect = match rect_param(params) {
            Err(e) => {
                return Err(e);
            },
            Ok(rect) => rect,
        };
        match requested_outputs.get("image") {
            None => Ok(Ports::new()),
            Some(region) => Ok(
                one_port(
                    "image",
                    Rect {
                        x0: region.x0 + rect.x0,
                        y0: region.y0 + rect.y0,
                        x1: region.x1 + rect.x0,
                        y1: region.y1 + rect.y0,
                    },
                ),
            ),
        }
    }

    /// Which region of the image the requested output needs; `None` where moving the region leaves
    /// the number range.
    pub fn try_required_inputs(
        &self,
        requested_outputs: &Ports<Rect>,
        _inputs: &Ports<ResourceDescriptor>,
        params: &serde_json::Value,
    ) -> (r: Option<Result<Ports<Rect>, Error>>)
        ensures
            match r {
                None => !request_fits(requested_outputs@, json_of(*params)),
                Some(regions) => {
                    &&& request_fits(requested_outputs@, json_of(*params))
                    &&& gives_optional_port(
                        regions,
                        "image"@,
                        needed(requested_outputs@, json_of(*params)),
                    )
                },
            },
    {
        if let (Some(region), Ok(rect)) = (requested_outputs.get("image"), rect_param(params)) {
            if region.x0.checked_add(rect.x0).is_none() || region.y0.checked_add(rect.y0).is_none()
                || region.x1.checked_add(rect.x0).is_none() || region.y1.checked_add(
                rect.y0,
            ).is_none() {
                return None;
            }
        }
        Some(self.required_inputs(requested_outputs, _inputs, params))
    }

    /// Whether the produced resource is an image.
    pub fn validate_postconditions(
        &self,
        outputs: &Ports<ResourceDescriptor>,
        params: &serde_json::Value,
    ) -> (r: Result<Vec<AssertionResult>, Error>)
        ensures
            r matches Ok(v) && v@ == seq![image_outcome(outputs@)],
    {
        Ok(vec![check_image_output(outputs)])
    }

    /// Select the rectangle of the image.
    pub fn compute(&self, inputs: &Ports<ResourceValue>, params: &serde_json::Value) -> (r: Result<
        Ports<ResourceValue>,
        Error,
    >)
        ensures
            gives_value(r, "image"@, cropped_value(inputs@, json_of(*params))),
    {
        let (image, d): (&ResourceValue, ImageDescriptor) = match image_value(
            inputs,
            "image",
            image_value_missing(),
            image_wrong(),
        ) {
            Err(e) => {
                return Err(e);
            },
            Ok(found) => found,
        };
        let rect: Rect = match rect_param(params) {
            Err(e) => {
                return Err(e);
            },
            Ok(rect) => rect,
        };
        match check_bounds(rect, d.extent) {
            Err(e) => {
                return Err(e);
            },
            Ok(_) => {},
        }
        let samples: Vec<u32> = crop_samples(image.samples(), d.extent, rect, image.channels());
        let extent: Extent = Extent {
            width: (rect.x1 - rect.x0) as u32,
            height: (rect.y1 - rect.y0) as u32,
        };
        proof {
            lemma_fewer_samples(
                extent.width as int,
                extent.height as int,
                d.extent.width as int,
                d.extent.height as int,
                image@.channels as int,
            );
        }
        let value: Result<ResourceValue, usize> = ResourceValue::new(
            ResourceDescriptor::Image(ImageDescriptor { extent, ..d }),
            image.channels(),
            samples,
        );
        Ok(one_port("image", value.unwrap()))
    }
}

proof fn lemma_cropped_sample<T>(
    samples: Seq<T>,
    src: Extent,
    rect: Rect,
    channels: int,
    x: int,
    y: int,
    ch: int,
)
    requires
        0 <= x < rect.x1 - rect.x0,
        0 <= y < rect.y1 - rect.y0,
        0 <= ch < channels,
    ensures
        cropped(samples, src, rect, channels)[sample_at(x, y, ch, rect.x1 - rect.x0, channels)]
            == samples[sample_at(rect.x0 + x, rect.y0 + y, ch, src.width as int, channels)],
{
    lemma_raster_sample(
        rect.x1 - rect.x0,
        rect.y1 - rect.y0,
        channels,
        |x: int, y: int, ch: int|
            samples[sample_at(rect.x0 + x, rect.y0 + y, ch, src.width as int, channels)],
        x,
        y,
        ch,
    );
}

/// Selecting the whole image changes nothing.
pub proof fn law_full_crop_is_identity<T>(samples: Seq<T>, extent: Extent, channels: int)
    requires
        samples.len() == extent.area() * channels,
        channels >= 0,
    ensures
        cropped(samples, extent, extent.region(), channels) == samples,
{
    let all = cropped(samples, extent, extent.region(), channels);
    assert forall|i: int| 0 <= i < samples.len() implies all[i] == samples[i] by {
        lemma_sample_of(i, extent.width as int, extent.height as int, channels);
    }
}

/// Selecting a rectangle with no column or no row gives no sample.
pub proof fn law_empty_crop_has_no_sample<T>(samples: Seq<T>, src: Extent, rect: Rect, channels: int)
    requires
        rect.x0 == rect.x1 || rect.y0 == rect.y1,
    ensures
        cropped(samples, src, rect, channels).len() == 0,
{
    assert((rect.x1 - rect.x0) * (rect.y1 - rect.y0) * channels == 0) by (nonlinear_arith)
        requires
            rect.x0 == rect.x1 || rect.y0 == rect.y1,
    ;
}

/// Selecting a rectangle of a selection is selecting it, moved by the first one's origin, of the
/// image.
pub proof fn law_nested_crops_compose<T>(
    samples: Seq<T>,
    src: Extent,
    outer: Rect,
    inner: Rect,
    channels: int,
)
    requires
        samples.len() == src.area() * channels,
        channels >= 0,
        outer.is_valid(),
        inner.is_valid(),
        within(outer, src),
        within(inner, rect_extent(outer)),
    ensures
        cropped(cropped(samples, src, outer, channels), rect_extent(outer), inner, channels)
            == cropped(samples, src, shifted(inner, outer), channels),
{
    let middle = cropped(samples, src, outer, channels);
    let nested = cropped(middle, rect_extent(outer), inner, channels);
    let direct = cropped(samples, src, shifted(inner, outer), channels);
    let w = inner.x1 - inner.x0;
    let h = inner.y1 - inner.y0;
    assert forall|i: int| 0 <= i < nested.len() implies nested[i] == direct[i] by {
        assert(w * h >= 0) by (nonlinear_arith)
            requires
                w >= 0,
                h >= 0,
        ;
        lemma_sample_of(i, w, h, channels);
        let x = (i / channels) % w;
        let y = (i / channels) / w;
        lemma_cropped_sample(samples, src, outer, channels, inner.x0 + x, inner.y0 + y, i % channels);
    }
}

/// A pixel of an output region is the pixel of the region asked for that lies the rectangle's
/// origin further.
pub proof fn law_required_region_is_shifted(region: Rect, rect: Rect, x: int, y: int)
    requires
        shift_fits(region, rect),
    ensures
        region.covers(x, y) <==> shifted(region, rect).covers(rect.x0 + x, rect.y0 + y),
{
}

/// The region that a crop asks for suffices: images that agree on it have the same output in the
/// requested region.
pub proof fn law_required_region_suffices<T>(
    p: Seq<T>,
    q: Seq<T>,
    src: Extent,
    region: Rect,
    rect: Rect,
    channels: int,
    x: int,
    y: int,
    ch: int,
)
    requires
        shift_fits(region, rect),
        region.covers(x, y),
        0 <= x < rect.x1 - rect.x0,
        0 <= y < rect.y1 - rect.y0,
        0 <= ch < channels,
        forall|sx: int, sy: int|
            shifted(region, rect).covers(sx, sy) ==> p[#[trigger] sample_at(
                sx,
                sy,
                ch,
                src.width as int,
                channels,
            )] == q[sample_at(sx, sy, ch, src.width as int, channels)],
    ensures
        cropped(p, src, rect, channels)[sample_at(x, y, ch, rect.x1 - rect.x0, channels)] == cropped(
            q,
            src,
            rect,
            channels,
        )[sample_at(x, y, ch, rect.x1 - rect.x0, channels)],
{
    lemma_cropped_sample(p, src, rect, channels, x, y, ch);
    lemma_cropped_sample(q, src, rect, channels, x, y, ch);
    assert(shifted(region, rect).covers(rect.x0 + x, rect.y0 + y));
}

} // verus!
