//! Exact reflection of an image: a bijective remap of its pixels.
use crate::ir::{
    AssertionResult, Detail, Error, ErrorClass, Extent, ImageDescriptor, Rect,
    ResourceDescriptor, ResourceKind,
};
use crate::json::{json_get, json_of, json_text, same_text, Json};
use crate::lattice::{
    lemma_raster_sample, lemma_sample_at, lemma_sample_of, raster, sample_at, sample_position,
};
use crate::ports::{
    check_image_output, gives_optional_port, gives_port, gives_value, image_of, image_outcome,
    image_port, image_value, image_value_of, one_port, port, Ports,
};
use crate::value::{ResourceValue, ValueView};
use vstd::prelude::*;

verus! {

/// The operation's identifier.
pub const FLIP_OP_ID: &'static str = "image.flip@1";

/// The image was absent or of another kind.
pub const E_FLIP_INPUT: &'static str = "E_FLIP_INPUT";

/// The axis was missing or unknown.
pub const E_FLIP_AXIS: &'static str = "E_FLIP_AXIS";

pub const AXIS_REQUIRED: &'static str = "image.flip requires an `axis` parameter (horizontal | vertical | both)";

pub const AXIS_NOT_STRING: &'static str = "image.flip `axis` must be a string";

pub const AXIS_UNKNOWN: &'static str = "image.flip `axis` is not a known axis";

pub const IMAGE_REQUIRED: &'static str = "image.flip requires an `image` input";

pub const IMAGE_VALUE_REQUIRED: &'static str = "image.flip requires an `image` input value";

pub const IMAGE_WRONG: &'static str = "image.flip `image` input must be an image resource";

/// The error of a bad axis.
#[verifier::allow_in_spec]
pub fn axis_error(message: &'static str) -> Error
    returns
        (Error::new(ErrorClass::Schema, E_FLIP_AXIS, message)),
{
    Error::new(ErrorClass::Schema, E_FLIP_AXIS, message)
}

/// The error of an absent image.
#[verifier::allow_in_spec]
pub fn image_missing() -> Error
    returns
        (Error::new(ErrorClass::Reference, E_FLIP_INPUT, IMAGE_REQUIRED)),
{
    Error::new(ErrorClass::Reference, E_FLIP_INPUT, IMAGE_REQUIRED)
}

/// The error of an absent image value.
#[verifier::allow_in_spec]
pub fn image_value_missing() -> Error
    returns
        (Error::new(ErrorClass::Reference, E_FLIP_INPUT, IMAGE_VALUE_REQUIRED)),
{
    Error::new(ErrorClass::Reference, E_FLIP_INPUT, IMAGE_VALUE_REQUIRED)
}

/// The error of an input that is no image.
#[verifier::allow_in_spec]
pub fn image_wrong() -> Error
    returns
        (Error::new(ErrorClass::Type, E_FLIP_INPUT, IMAGE_WRONG)),
{
    Error::new(ErrorClass::Type, E_FLIP_INPUT, IMAGE_WRONG)
}

/// Which way an image is mirrored.
#[derive(Debug, Clone, Copy, PartialEq, Eq, Structural)]
pub enum Axis {
    /// Left to right.
    Horizontal,
    /// Top to bottom.
    Vertical,
    /// Both, a half turn.
    Both,
}

/// The axis that a token names.
pub open spec fn axis_of_token(token: Seq<char>) -> Option<Axis> {
    if token == "horizontal"@ {
        Some(Axis::Horizontal)
    } else if token == "vertical"@ {
        Some(Axis::Vertical)
    } else if token == "both"@ {
        Some(Axis::Both)
    } else {
        None
    }
}

impl Axis {
    /// Read an axis from its token.
    pub fn from_token(token: &str) -> (r: Option<Axis>)
        ensures
            r == axis_of_token(token@),
    {
        if same_text(token, "horizontal") {
            Some(Axis::Horizontal)
        } else if same_text(token, "vertical") {
            Some(Axis::Vertical)
        } else if same_text(token, "both") {
            Some(Axis::Both)
        } else {
            None
        }
    }

    /// Columns are mirrored.
    #[verifier::allow_in_spec]
    pub fn flips_x(self) -> bool
        returns
            (self == Axis::Horizontal || self == Axis::Both),
    {
        match self {
            Axis::Horizontal | Axis::Both => true,
            Axis::Vertical => false,
        }
    }

    /// Rows are mirrored.
    #[verifier::allow_in_spec]
    pub fn flips_y(self) -> bool
        returns
            (self == Axis::Vertical || self == Axis::Both),
    {
        match self {
            Axis::Vertical | Axis::Both => true,
            Axis::Horizontal => false,
        }
    }

    /// The column that lands on column `x` of an image `w` wide.
    pub open spec fn column(self, x: int, w: int) -> int {
        if self.flips_x() {
            w - 1 - x
        } else {
            x
        }
    }

    /// The row that lands on row `y` of an image `h` high.
    pub open spec fn row(self, y: int, h: int) -> int {
        if self.flips_y() {
            h - 1 - y
        } else {
            y
        }
    }
}

/// The axis that the parameters name.
pub open spec fn axis_of(params: Json) -> Result<Axis, Error> {
    match params.get("axis"@) {
        None => Err(axis_error(AXIS_REQUIRED)),
        Some(v) => match v.as_text() {
            None => Err(axis_error(AXIS_NOT_STRING).about(Detail::Given)),
            Some(token) => match axis_of_token(token) {
                None => Err(axis_error(AXIS_UNKNOWN).about(Detail::Given)),
                Some(axis) => Ok(axis),
            },
        },
    }
}

/// Read the `axis` parameter.
pub fn axis_param(params: &serde_json::Value) -> (r: Result<Axis, Error>)
    ensures
        r == axis_of(json_of(*params)),
{
    match json_get(params, "axis") {
        None => Err(axis_error(AXIS_REQUIRED)),
        Some(value) => match json_text(value) {
            None => Err(axis_error(AXIS_NOT_STRING).about(Detail::Given)),
            Some(token) => match Axis::from_token(token) {
                None => Err(axis_error(AXIS_UNKNOWN).about(Detail::Given)),
                Some(axis) => Ok(axis),
            },
        },
    }
}

/// The mirrored buffer: every sample is the one at the mirrored pixel.
pub open spec fn flipped<T>(samples: Seq<T>, extent: Extent, axis: Axis, channels: int) -> Seq<T> {
    raster(
        extent.width as int,
        extent.height as int,
        channels,
        |x: int, y: int, ch: int|
            samples[sample_at(
                axis.column(x, extent.width as int),
                axis.row(y, extent.height as int),
                ch,
                extent.width as int,
                channels,
            )],
    )
}

/// Mirror a channel-interleaved buffer.
pub fn flip_samples<T: Copy>(samples: &Vec<T>, extent: Extent, axis: Axis, channels: u32) -> (out: Vec<T>)
    requires
        samples@.len() == extent.area() * channels,
    ensures
        out@ == flipped(samples@, extent, axis, channels as int),
{
    let w: usize = extent.width as usize;
    let h: usize = extent.height as usize;
    let stride: usize = channels as usize;
    let count: usize = samples.len();
    let ghost whole = flipped(samples@, extent, axis, channels as int);
    let mut out: Vec<T> = Vec::new();
    let mut i: usize = 0;
    while i < count
        invariant
            w == extent.width,
            h == extent.height,
            stride == channels,
            count == samples@.len() == w * h * stride,
            i <= count,
            whole == flipped(samples@, extent, axis, channels as int),
            out@ == whole.take(i as int),
        decreases count - i,
    {
        proof {
            lemma_sample_of(i as int, w as int, h as int, stride as int);
        }
        let ch: usize = i % stride;
        let p: usize = i / stride;
        let x: usize = p % w;
        let y: usize = p / w;
        let sx: usize = if axis.flips_x() {
            w - 1 - x
        } else {
            x
        };
        let sy: usize = if axis.flips_y() {
            h - 1 - y
        } else {
            y
        };
        proof {
            lemma_sample_at(sx as int, sy as int, ch as int, w as int, h as int, stride as int);
        }
        out.push(samples[sample_position(sx, sy, ch, w, stride)]);
        i = i + 1;
    }
    out
}

/// The operation.
#[derive(Debug, Clone, Copy)]
pub struct Flip;

/// What the operation produces: the image's own descriptor.
pub open spec fn inferred(inputs: Map<Seq<char>, ResourceDescriptor>, params: Json) -> Result<
    ResourceDescriptor,
    Error,
> {
    match image_of(inputs, "image"@, image_missing(), image_wrong()) {
        Err(e) => Err(e),
        Ok(d) => match axis_of(params) {
            Err(e) => Err(e),
            Ok(_) => Ok(ResourceDescriptor::Image(d)),
        },
    }
}

/// The mirror image of a region.
pub open spec fn mirrored(region: Rect, extent: Extent, axis: Axis) -> Rect {
    Rect {
        x0: if axis.flips_x() {
            (extent.width - region.x1) as i64
        } else {
            region.x0
        },
        y0: if axis.flips_y() {
            (extent.height - region.y1) as i64
        } else {
            region.y0
        },
        x1: if axis.flips_x() {
            (extent.width - region.x0) as i64
        } else {
            region.x1
        },
        y1: if axis.flips_y() {
            (extent.height - region.y0) as i64
        } else {
            region.y1
        },
    }
}

/// Every edge of the mirror image is a number of its type.
pub open spec fn mirror_fits(region: Rect, extent: Extent, axis: Axis) -> bool {
    &&& axis.flips_x() ==> extent.width - region.x0 <= i64::MAX && extent.width - region.x1 <= i64::MAX
    &&& axis.flips_y() ==> extent.height - region.y0 <= i64::MAX && extent.height - region.y1 <= i64::MAX
}

/// The requested region, if any, can be mirrored in the image, if there is one.
pub open spec fn request_fits(
    requested: Map<Seq<char>, Rect>,
    inputs: Map<Seq<char>, ResourceDescriptor>,
    params: Json,
) -> bool {
    match (
        port(requested, "image"@),
        image_of(inputs, "image"@, image_missing(), image_wrong()),
        axis_of(params),
    ) {
        (Some(region), Ok(d), Ok(axis)) => mirror_fits(region, d.extent, axis),
        _ => true,
    }
}

/// The region of the image that the requested output needs, if any is requested.
pub open spec fn needed(
    requested: Map<Seq<char>, Rect>,
    inputs: Map<Seq<char>, ResourceDescriptor>,
    params: Json,
) -> Result<Option<Rect>, Error> {
    match image_of(inputs, "image"@, image_missing(), image_wrong()) {
        Err(e) => Err(e),
        Ok(d) => match axis_of(params) {
            Err(e) => Err(e),
            Ok(axis) => match port(requested, "image"@) {
                None => Ok(None),
                Some(region) => Ok(Some(mirrored(region, d.extent, axis))),
            },
        },
    }
}

/// What the operation makes of its input.
pub open spec fn flipped_value(inputs: Map<Seq<char>, ResourceValue>, params: Json) -> Result<
    ValueView,
    Error,
> {
    match image_value_of(inputs, "image"@, image_value_missing(), image_wrong()) {
        Err(e) => Err(e),
        Ok(d) => match axis_of(params) {
            Err(e) => Err(e),
            Ok(axis) => Ok(
                ValueView {
                    descriptor: ResourceDescriptor::Image(d),
                    channels: inputs["image"@]@.channels,
                    samples: flipped(
                        inputs["image"@]@.samples,
                        d.extent,
                        axis,
                        inputs["image"@]@.channels as int,
                    ),
                },
            ),
        },
    }
}

impl Default for Flip {
    /// The operation.
    fn default() -> (r: Self)
        ensures
            r == Flip,
    {
        Flip
    }
}

impl Flip {
    /// The operation.
    pub fn new() -> (r: Self)
        ensures
            r == Flip,
    {
        Flip
    }

    /// The input ports and their kinds.
    pub fn declared_inputs(&self) -> (r: Vec<(&'static str, ResourceKind)>)
        ensures
            r@ == seq![("image", ResourceKind::Image)],
    {
        vec![("image", ResourceKind::Image)]
    }

    /// The output ports and their kinds.
    pub fn declared_outputs(&self) -> (r: Vec<(&'static str, ResourceKind)>)
        ensures
            r@ == seq![("image", ResourceKind::Image)],
    {
        vec![("image", ResourceKind::Image)]
    }

    /// What the operation produces of inputs like these.
    pub fn infer_outputs(
        &self,
        inputs: &Ports<ResourceDescriptor>,
        params: &serde_json::Value,
    ) -> (r: Result<Ports<ResourceDescriptor>, Error>)
        ensures
            gives_port(r, "image"@, inferred(inputs@, json_of(*params))),
    {
        match image_port(inputs, "image", image_missing(), image_wrong()) {
            Err(e) => Err(e),
            Ok(d) => match axis_param(params) {
                Err(e) => Err(e),
                Ok(_) => Ok(one_port("image", ResourceDescriptor::Image(d))),
            },
        }
    }

    /// Which region of the image the requested output needs.
    pub fn required_inputs(
        &self,
        requested_outputs: &Ports<Rect>,
        inputs: &Ports<ResourceDescriptor>,
        params: &serde_json::Value,
    ) -> (r: Result<Ports<Rect>, Error>)
        requires
            request_fits(requested_outputs@, inputs@, json_of(*params)),
        ensures
            gives_optional_port(
                r,
                "image"@,
                needed(requested_outputs@, inputs@, json_of(*params)),
            ),
    {
        let d: ImageDescriptor = match image_port(inputs, "image", image_missing(), image_wrong()) {
            Err(e) => {
                return Err(e);
            },
            Ok(d) => d,
        };
        let axis: Axis = match axis_param(params) {
            Err(e) => {
                return Err(e);
            },
            Ok(axis) => axis,
        };
        match requested_outputs.get("image") {
            None => Ok(Ports::new()),
            Some(region) => {
                let w: i64 = d.extent.width as i64;
                let h: i64 = d.extent.height as i64;
                let (x0, x1): (i64, i64) = if axis.flips_x() {
                    (w - region.x1, w - region.x0)
                } else {
                    (region.x0, region.x1)
                };
                let (y0, y1): (i64, i64) = if axis.flips_y() {
                    (h - region.y1, h - region.y0)
                } else {
                    (region.y0, region.y1)
                };
                Ok(one_port("image", Rect { x0, y0, x1, y1 }))
            },
        }
    }

    /// Which region of the image the requested output needs; `None` where mirroring the region leaves
    /// the number range.
    pub fn try_required_inputs(
        &self,
        requested_outputs: &Ports<Rect>,
        inputs: &Ports<ResourceDescriptor>,
        params: &serde_json::Value,
    ) -> (r: Option<Result<Ports<Rect>, Error>>)
        ensures
            match r {
                None => !request_fits(requested_outputs@, inputs@, json_of(*params)),
                Some(regions) => {
                    &&& request_fits(requested_outputs@, inputs@, json_of(*params))
                    &&& gives_optional_port(
                        regions,
                        "image"@,
                        needed(requested_outputs@, inputs@, json_of(*params)),
                    )
                },
            },
    {
        if let (Some(region), Ok(d), Ok(axis)) = (
            requested_outputs.get("image"),
            image_port(inputs, "image", image_missing(), image_wrong()),
            axis_param(params),
        ) {
            let w: i64 = d.extent.width as i64;
            let h: i64 = d.extent.height as i64;
            if axis.flips_x() && (w.checked_sub(region.x0).is_none() || w.checked_sub(region.x1).is_none()) {
                return None;
            }
            if axis.flips_y() && (h.checked_sub(region.y0).is_none() || h.checked_sub(region.y1).is_none()) {
                return None;
            }
        }
        Some(self.required_inputs(requested_outputs, inputs, params))
    }

    /// Whether the produced resource is an image.
    pub fn validate_postconditions(
        &self,
        outputs: &Ports<ResourceDescriptor>,
        params: &serde_json::Value,
    ) -> (r: Result<Vec<AssertionResult>, Error>)
        ensures
            r matches Ok(v) && v@ == seq![image_outcome(outputs@)],
    {
        Ok(vec![check_image_output(outputs)])
    }

    /// Mirror the image.
    pub fn compute(&self, inputs: &Ports<ResourceValue>, params: &serde_json::Value) -> (r: Result<
        Ports<ResourceValue>,
        Error,
    >)
        ensures
            gives_value(r, "image"@, flipped_value(inputs@, json_of(*params))),
    {
        let (image, d): (&ResourceValue, ImageDescriptor) = match image_value(
            inputs,
            "image",
            image_value_missing(),
            image_wrong(),
        ) {
            Err(e) => {
                return Err(e);
            },
            Ok(found) => found,
        };
        let axis: Axis = match axis_param(params) {
            Err(e) => {
                return Err(e);
            },
            Ok(axis) => axis,
        };
        let samples: Vec<u32> = flip_samples(image.samples(), d.extent, axis, image.channels());
        let value: Result<ResourceValue, usize> = ResourceValue::new(
            ResourceDescriptor::Image(d),
            image.channels(),
            samples,
        );
        Ok(one_port("image", value.unwrap()))
    }
}

/// Mirroring twice gives the image back.
pub proof fn law_flip_is_an_involution<T>(samples: Seq<T>, extent: Extent, axis: Axis, channels: int)
    requires
        samples.len() == extent.area() * channels,
        channels >= 0,
    ensures
        flipped(flipped(samples, extent, axis, channels), extent, axis, channels) == samples,
{
    let w = extent.width as int;
    let h = extent.height as int;
    let once = flipped(samples, extent, axis, channels);
    let twice = flipped(once, extent, axis, channels);
    assert forall|i: int| 0 <= i < samples.len() implies twice[i] == samples[i] by {
        lemma_sample_of(i, w, h, channels);
        let x = (i / channels) % w;
        let y = (i / channels) / w;
        lemma_flipped_sample(samples, extent, axis, channels, axis.column(x, w), axis.row(y, h), i % channels);
    }
}

/// Mirroring left to right and then top to bottom is the half turn.
pub proof fn law_horizontal_then_vertical_is_both<T>(samples: Seq<T>, extent: Extent, channels: int)
    requires
        samples.len() == extent.area() * channels,
        channels >= 0,
    ensures
        flipped(
            flipped(samples, extent, Axis::Horizontal, channels),
            extent,
            Axis::Vertical,
            channels,
        ) == flipped(samples, extent, Axis::Both, channels),
{
    let w = extent.width as int;
    let h = extent.height as int;
    let once = flipped(samples, extent, Axis::Horizontal, channels);
    let twice = flipped(once, extent, Axis::Vertical, channels);
    let both = flipped(samples, extent, Axis::Both, channels);
    assert forall|i: int| 0 <= i < samples.len() implies twice[i] == both[i] by {
        lemma_sample_of(i, w, h, channels);
        let x = (i / channels) % w;
        let y = (i / channels) / w;
        lemma_flipped_sample(samples, extent, Axis::Horizontal, channels, x, h - 1 - y, i % channels);
    }
}

/// Every pixel of an output region is the mirror image of a pixel of the region asked for, and of
/// no other.
pub proof fn law_required_region_is_mirrored(region: Rect, extent: Extent, axis: Axis, x: int, y: int)
    requires
        mirror_fits(region, extent, axis),
    ensures
        region.covers(x, y) <==> mirrored(region, extent, axis).covers(
            axis.column(x, extent.width as int),
            axis.row(y, extent.height as int),
        ),
{
}

/// The region that a flip asks for suffices: images that agree on it have the same output in the
/// requested region.
pub proof fn law_required_region_suffices<T>(
    p: Seq<T>,
    q: Seq<T>,
    extent: Extent,
    axis: Axis,
    region: Rect,
    channels: int,
    x: int,
    y: int,
    ch: int,
)
    requires
        mirror_fits(region, extent, axis),
        region.covers(x, y),
        0 <= x < extent.width,
        0 <= y < extent.height,
        0 <= ch < channels,
        forall|sx: int, sy: int|
            mirrored(region, extent, axis).covers(sx, sy) ==> p[#[trigger] sample_at(
                sx,
                sy,
                ch,
                extent.width as int,
                channels,
            )] == q[sample_at(sx, sy, ch, extent.width as int, channels)],
    ensures
        flipped(p, extent, axis, channels)[sample_at(x, y, ch, extent.width as int, channels)]
            == flipped(q, extent, axis, channels)[sample_at(x, y, ch, extent.width as int, channels)],
{
    lemma_flipped_sample(p, extent, axis, channels, x, y, ch);
    lemma_flipped_sample(q, extent, axis, channels, x, y, ch);
    law_required_region_is_mirrored(region, extent, axis, x, y);
}

proof fn lemma_flipped_sample<T>(
    samples: Seq<T>,
    extent: Extent,
    axis: Axis,
    channels: int,
    x: int,
    y: int,
    ch: int,
)
    requires
        0 <= x < extent.width,
        0 <= y < extent.height,
        0 <= ch < channels,
    ensures
        flipped(samples, extent, axis, channels)[sample_at(x, y, ch, extent.width as int, channels)]
            == samples[sample_at(
            axis.column(x, extent.width as int),
            axis.row(y, extent.height as int),
            ch,
            extent.width as int,
            channels,
        )],
{
    lemma_raster_sample(
        extent.width as int,
        extent.height as int,
        channels,
        |x: int, y: int, ch: int|
            samples[sample_at(
                axis.column(x, extent.width as int),
                axis.row(y, extent.height as int),
                ch,
                extent.width as int,
                channels,
            )],
        x,
        y,
        ch,
    );
}

} // verus!
