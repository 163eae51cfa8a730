//! The forward and the inverse transform between planes and spectra, as operations.
use crate::arithmetic::{lawful, Arithmetic};
use crate::convolve::{channels_of, supported};
use crate::dft::{forward_of, forward_real, inverse_real, inverse_real_of};
use crate::ir::{
    AlphaRepresentation, AssertionResult, ChannelLayout, ColorEncoding, ColorRange,
    CoordinateConvention, Error, ErrorClass, Extent, FieldArity, FieldDescriptor, ImageDescriptor,
    Rect, ResourceDescriptor, ResourceKind, ScalarType, SemanticRole, SpectrumDescriptor,
};
use crate::ports::{
    gives_port, gives_value, one_port, port, port_view, request_whole, whole_input, Ports,
};
use crate::value::{ResourceValue, ValueView};
use vstd::prelude::*;

verus! {

/// The forward operation's identifier.
pub const FFT2_OP_ID: &'static str = "frequency.fft2@1";

/// The inverse operation's identifier.
pub const IFFT2_OP_ID: &'static str = "frequency.ifft2@1";

/// The input was absent or of an unsupported kind.
pub const E_FFT_INPUT: &'static str = "E_FFT_INPUT";

pub const INPUT_REQUIRED: &'static str = "frequency.fft2 requires an `input` resource";

pub const INPUT_VALUE_REQUIRED: &'static str = "frequency.fft2 requires an `input` value";

pub const INPUT_WRONG: &'static str = "frequency.fft2 `input` must be an Image or Field1 resource";

pub const SPECTRUM_REQUIRED: &'static str = "frequency.ifft2 requires a `spectrum` resource";

pub const SPECTRUM_VALUE_REQUIRED: &'static str = "frequency.ifft2 requires a `spectrum` value";

pub const SPECTRUM_WRONG: &'static str = "frequency.ifft2 `spectrum` input must be a Spectrum resource";

/// A refusal for an input.
#[verifier::allow_in_spec]
pub fn input_error(class: ErrorClass, message: &'static str) -> Error
    returns
        (Error::new(class, E_FFT_INPUT, message)),
{
    Error::new(class, E_FFT_INPUT, message)
}

/// The spectrum of a plane.
#[verifier::allow_in_spec]
pub fn spectrum_descriptor(extent: Extent, channels: u32) -> SpectrumDescriptor
    returns
        (SpectrumDescriptor {
            extent,
            channels,
            scalar: ScalarType::F32,
            coordinates: CoordinateConvention::PixelCenterUpperLeft,
        }),
{
    SpectrumDescriptor {
        extent,
        channels,
        scalar: ScalarType::F32,
        coordinates: CoordinateConvention::PixelCenterUpperLeft,
    }
}

/// The layout of an image with so many channels; four for more.
#[verifier::allow_in_spec]
pub fn layout_for(channels: u32) -> ChannelLayout
    returns
        (if channels == 1 {
            ChannelLayout::Gray
        } else if channels == 2 {
            ChannelLayout::GrayA
        } else if channels == 3 {
            ChannelLayout::Rgb
        } else {
            ChannelLayout::Rgba
        }),
{
    if channels == 1 {
        ChannelLayout::Gray
    } else if channels == 2 {
        ChannelLayout::GrayA
    } else if channels == 3 {
        ChannelLayout::Rgb
    } else {
        ChannelLayout::Rgba
    }
}

/// The image of a spectrum.
#[verifier::allow_in_spec]
pub fn reconstructed_image(d: SpectrumDescriptor) -> ResourceDescriptor
    returns
        (ResourceDescriptor::Image(
            ImageDescriptor {
                extent: d.extent,
                layout: layout_for(d.channels),
                scalar: ScalarType::F32,
                color: ColorEncoding::LinearSrgb,
                range: ColorRange::SceneReferred,
                alpha: AlphaRepresentation::Premultiplied,
                coordinates: d.coordinates,
                semantic: SemanticRole::Color,
            },
        )),
{
    ResourceDescriptor::Image(
        ImageDescriptor {
            extent: d.extent,
            layout: layout_for(d.channels),
            scalar: ScalarType::F32,
            color: ColorEncoding::LinearSrgb,
            range: ColorRange::SceneReferred,
            alpha: AlphaRepresentation::Premultiplied,
            coordinates: d.coordinates,
            semantic: SemanticRole::Color,
        },
    )
}

/// The scalar field of a spectrum with one channel.
#[verifier::allow_in_spec]
pub fn reconstructed_field(d: SpectrumDescriptor) -> ResourceDescriptor
    returns
        (ResourceDescriptor::Field1(
            FieldDescriptor {
                arity: FieldArity::Field1,
                extent: d.extent,
                scalar: ScalarType::F32,
                semantic: SemanticRole::Distance,
                coordinates: d.coordinates,
                space: None,
                normalization: None,
                encoding: None,
            },
        )),
{
    ResourceDescriptor::Field1(
        FieldDescriptor {
            arity: FieldArity::Field1,
            extent: d.extent,
            scalar: ScalarType::F32,
            semantic: SemanticRole::Distance,
            coordinates: d.coordinates,
            space: None,
            normalization: None,
            encoding: None,
        },
    )
}

/// What a spectrum is turned back into: a scalar field of one channel, an image of more.
#[verifier::allow_in_spec]
pub fn reconstructed(d: SpectrumDescriptor) -> ResourceDescriptor
    returns
        (if d.channels == 1 {
            reconstructed_field(d)
        } else {
            reconstructed_image(d)
        }),
{
    if d.channels == 1 {
        reconstructed_field(d)
    } else {
        reconstructed_image(d)
    }
}

/// The forward operation.
#[derive(Debug, Clone, Copy)]
pub struct Fft2;

/// What the forward operation produces.
pub open spec fn forward_inferred(inputs: Map<Seq<char>, ResourceDescriptor>) -> Result<
    ResourceDescriptor,
    Error,
> {
    match port(inputs, "input"@) {
        None => Err(input_error(ErrorClass::Reference, INPUT_REQUIRED)),
        Some(d) => if !supported(d) {
            Err(input_error(ErrorClass::Type, INPUT_WRONG))
        } else {
            let spectrum = spectrum_descriptor(d.extent(), channels_of(d));
            match spectrum.validity() {
                Err(e) => Err(e),
                Ok(_) => Ok(ResourceDescriptor::Spectrum(spectrum)),
            }
        },
    }
}

/// What the forward operation makes of its input.
pub open spec fn forward_value<A: Arithmetic>(inputs: Map<Seq<char>, ResourceValue>) -> Result<
    ValueView,
    Error,
> {
    match port_view(inputs, "input"@) {
        None => Err(input_error(ErrorClass::Reference, INPUT_VALUE_REQUIRED)),
        Some(input) => {
            let extent = input.descriptor.extent();
            let spectrum = spectrum_descriptor(extent, input.channels);
            match spectrum.validity() {
                Err(e) => Err(e),
                Ok(_) => Ok(
                    ValueView {
                        descriptor: ResourceDescriptor::Spectrum(spectrum),
                        channels: input.channels,
                        samples: forward_of::<A>(
                            input.samples,
                            extent.width as int,
                            extent.height as int,
                            input.channels as int,
                        ),
                    },
                ),
            }
        },
    }
}

/// The resource holds a plane of its size and channels at least.
pub open spec fn holds_plane(value: ValueView) -> bool {
    value.samples.len() >= value.descriptor.extent().area() * value.channels
}

impl Default for Fft2 {
    /// The operation.
    fn default() -> (r: Self)
        ensures
            r == Fft2,
    {
        Fft2
    }
}

impl Fft2 {
    /// The operation.
    pub fn new() -> (r: Self)
        ensures
            r == Fft2,
    {
        Fft2
    }

    /// The input ports and their kinds.
    pub fn declared_inputs(&self) -> (r: Vec<(&'static str, ResourceKind)>)
        ensures
            r@ == seq![("input", ResourceKind::Image)],
    {
        vec![("input", ResourceKind::Image)]
    }

    /// The output ports and their kinds.
    pub fn declared_outputs(&self) -> (r: Vec<(&'static str, ResourceKind)>)
        ensures
            r@ == seq![("spectrum", ResourceKind::Spectrum)],
    {
        vec![("spectrum", ResourceKind::Spectrum)]
    }

    /// What the operation produces of inputs like these.
    pub fn infer_outputs(
        &self,
        inputs: &Ports<ResourceDescriptor>,
        _params: &serde_json::Value,
    ) -> (r: Result<Ports<ResourceDescriptor>, Error>)
        ensures
            gives_port(r, "spectrum"@, forward_inferred(inputs@)),
    {
        let (extent, channels): (Extent, u32) = match inputs.get("input") {
            None => {
                return Err(input_error(ErrorClass::Reference, INPUT_REQUIRED));
            },
            Some(ResourceDescriptor::Image(d)) => (d.extent, d.layout.channel_count()),
            Some(ResourceDescriptor::Field1(d)) => (d.extent, 1),
            Some(_) => {
                return Err(input_error(ErrorClass::Type, INPUT_WRONG));
            },
        };
        let spectrum: SpectrumDescriptor = spectrum_descriptor(extent, channels);
        match spectrum.validate() {
            Err(e) => Err(e),
            Ok(_) => Ok(one_port("spectrum", ResourceDescriptor::Spectrum(spectrum))),
        }
    }

    /// The whole input is needed, whatever is requested.
    pub fn required_inputs(
        &self,
        _requested_outputs: &Ports<Rect>,
        inputs: &Ports<ResourceDescriptor>,
        _params: &serde_json::Value,
    ) -> (r: Result<Ports<Rect>, Error>)
        ensures
            r matches Ok(regions) && regions@ == whole_input(inputs@, "input"@),
    {
        let mut regions: Ports<Rect> = Ports::new();
        request_whole(&mut regions, inputs, "input");
        Ok(regions)
    }

    /// Whether the produced resource is a spectrum.
    pub fn validate_postconditions(
        &self,
        outputs: &Ports<ResourceDescriptor>,
        _params: &serde_json::Value,
    ) -> (r: Result<Vec<AssertionResult>, Error>)
        ensures
            r matches Ok(v) && v@ == seq![
                if port(outputs@, "spectrum"@) matches Some(d) && d is Spectrum {
                    AssertionResult::pass("produces_spectrum")
                } else {
                    AssertionResult::fail("produces_spectrum", "no `spectrum` output produced")
                },
            ],
    {
        let outcome: AssertionResult = match outputs.get("spectrum") {
            Some(ResourceDescriptor::Spectrum(_)) => AssertionResult::pass("produces_spectrum"),
            _ => AssertionResult::fail("produces_spectrum", "no `spectrum` output produced"),
        };
        Ok(vec![outcome])
    }

    /// Transform the input.
    pub fn compute<A: Arithmetic>(
        &self,
        inputs: &Ports<ResourceValue>,
        _params: &serde_json::Value,
    ) -> (r: Result<Ports<ResourceValue>, Error>)
        requires
            lawful::<A>(),
            port_view(inputs@, "input"@) matches Some(input) ==> holds_plane(input),
        ensures
            gives_value(r, "spectrum"@, forward_value::<A>(inputs@)),
    {
        let input: &ResourceValue = match inputs.get("input") {
            None => {
                return Err(input_error(ErrorClass::Reference, INPUT_VALUE_REQUIRED));
            },
            Some(input) => input,
        };
        let channels: u32 = input.channels();
        let extent: Extent = input.extent();
        let spectrum: SpectrumDescriptor = spectrum_descriptor(extent, channels);
        match spectrum.validate() {
            Err(e) => {
                return Err(e);
            },
            Ok(_) => {},
        }
        if channels == 0 {
            let none: Vec<u32> = Vec::new();
            proof {
                let w = extent.width as int;
                let h = extent.height as int;
                assert(w * h * 0 * 2 == 0 && w * h * 0 == 0) by (nonlinear_arith);
                assert(none@ =~= forward_of::<A>(input@.samples, w, h, 0));
            }
            let empty: Result<ResourceValue, usize> = ResourceValue::new(
                ResourceDescriptor::Spectrum(spectrum),
                channels,
                none,
            );
            return Ok(one_port("spectrum", empty.unwrap()));
        }
        proof {
            let area = extent.area();
            assert(0 <= area <= area * channels) by (nonlinear_arith)
                requires
                    area == extent.width * extent.height,
                    extent.width >= 0,
                    extent.height >= 0,
                    channels >= 1,
            ;
        }
        let samples: Vec<u32> = forward_real::<A>(
            input.samples(),
            extent.width as usize,
            extent.height as usize,
            channels as usize,
        );
        let value: Result<ResourceValue, usize> = ResourceValue::new(
            ResourceDescriptor::Spectrum(spectrum),
            channels,
            samples,
        );
        Ok(one_port("spectrum", value.unwrap()))
    }
}

/// The inverse operation.
#[derive(Debug, Clone, Copy)]
pub struct Ifft2;

/// What the inverse operation produces.
pub open spec fn inverse_inferred(inputs: Map<Seq<char>, ResourceDescriptor>) -> Result<
    ResourceDescriptor,
    Error,
> {
    match port(inputs, "spectrum"@) {
        None => Err(input_error(ErrorClass::Reference, SPECTRUM_REQUIRED)),
        Some(ResourceDescriptor::Spectrum(d)) => match d.validity() {
            Err(e) => Err(e),
            Ok(_) => Ok(reconstructed(d)),
        },
        Some(_) => Err(input_error(ErrorClass::Type, SPECTRUM_WRONG)),
    }
}

/// What the inverse operation makes of its input.
pub open spec fn inverse_value<A: Arithmetic>(inputs: Map<Seq<char>, ResourceValue>) -> Result<
    ValueView,
    Error,
> {
    match port_view(inputs, "spectrum"@) {
        None => Err(input_error(ErrorClass::Reference, SPECTRUM_VALUE_REQUIRED)),
        Some(spectrum) => match spectrum.descriptor {
            ResourceDescriptor::Spectrum(d) => match d.validity() {
                Err(e) => Err(e),
                Ok(_) => Ok(
                    ValueView {
                        descriptor: reconstructed(d),
                        channels: d.channels,
                        samples: inverse_real_of::<A>(
                            spectrum.samples,
                            d.extent.width as int,
                            d.extent.height as int,
                            d.channels as int,
                        ),
                    },
                ),
            },
            _ => Err(input_error(ErrorClass::Type, SPECTRUM_WRONG)),
        },
    }
}

/// The resource, if it is a spectrum, holds the bins that its descriptor says.
pub open spec fn holds_spectrum(value: ValueView) -> bool {
    value.descriptor matches ResourceDescriptor::Spectrum(d) ==> value.samples.len()
        >= d.extent.area() * d.channels * 2
}

impl Default for Ifft2 {
    /// The operation.
    fn default() -> (r: Self)
        ensures
            r == Ifft2,
    {
        Ifft2
    }
}

impl Ifft2 {
    /// The operation.
    pub fn new() -> (r: Self)
        ensures
            r == Ifft2,
    {
        Ifft2
    }

    /// The input ports and their kinds.
    pub fn declared_inputs(&self) -> (r: Vec<(&'static str, ResourceKind)>)
        ensures
            r@ == seq![("spectrum", ResourceKind::Spectrum)],
    {
        vec![("spectrum", ResourceKind::Spectrum)]
    }

    /// The output ports and their kinds.
    pub fn declared_outputs(&self) -> (r: Vec<(&'static str, ResourceKind)>)
        ensures
            r@ == seq![("image", ResourceKind::Image)],
    {
        vec![("image", ResourceKind::Image)]
    }

    /// What the operation produces of inputs like these.
    pub fn infer_outputs(
        &self,
        inputs: &Ports<ResourceDescriptor>,
        _params: &serde_json::Value,
    ) -> (r: Result<Ports<ResourceDescriptor>, Error>)
        ensures
            gives_port(r, "image"@, inverse_inferred(inputs@)),
    {
        let d: SpectrumDescriptor = match inputs.get("spectrum") {
            None => {
                return Err(input_error(ErrorClass::Reference, SPECTRUM_REQUIRED));
            },
            Some(ResourceDescriptor::Spectrum(d)) => *d,
            Some(_) => {
                return Err(input_error(ErrorClass::Type, SPECTRUM_WRONG));
            },
        };
        match d.validate() {
            Err(e) => Err(e),
            Ok(_) => Ok(one_port("image", reconstructed(d))),
        }
    }

    /// The whole input is needed, whatever is requested.
    pub fn required_inputs(
        &self,
        _requested_outputs: &Ports<Rect>,
        inputs: &Ports<ResourceDescriptor>,
        _params: &serde_json::Value,
    ) -> (r: Result<Ports<Rect>, Error>)
        ensures
            r matches Ok(regions) && regions@ == whole_input(inputs@, "spectrum"@),
    {
        let mut regions: Ports<Rect> = Ports::new();
        request_whole(&mut regions, inputs, "spectrum");
        Ok(regions)
    }

    /// Whether the produced resource is an image or a scalar field.
    pub fn validate_postconditions(
        &self,
        outputs: &Ports<ResourceDescriptor>,
        _params: &serde_json::Value,
    ) -> (r: Result<Vec<AssertionResult>, Error>)
        ensures
            r matches Ok(v) && v@ == seq![
                if port(outputs@, "image"@) matches Some(d) && supported(d) {
                    AssertionResult::pass("produces_image")
                } else {
                    AssertionResult::fail("produces_image", "no reconstructed `image` produced")
                },
            ],
    {
        let outcome: AssertionResult = match outputs.get("image") {
            Some(ResourceDescriptor::Image(_)) | Some(ResourceDescriptor::Field1(_)) => {
                AssertionResult::pass("produces_image")
            },
            _ => AssertionResult::fail("produces_image", "no reconstructed `image` produced"),
        };
        Ok(vec![outcome])
    }

    /// Transform the spectrum back.
    pub fn compute<A: Arithmetic>(
        &self,
        inputs: &Ports<ResourceValue>,
        _params: &serde_json::Value,
    ) -> (r: Result<Ports<ResourceValue>, Error>)
        requires
            lawful::<A>(),
            port_view(inputs@, "spectrum"@) matches Some(spectrum) ==> holds_spectrum(spectrum),
        ensures
            gives_value(r, "image"@, inverse_value::<A>(inputs@)),
    {
        let spectrum: &ResourceValue = match inputs.get("spectrum") {
            None => {
                return Err(input_error(ErrorClass::Reference, SPECTRUM_VALUE_REQUIRED));
            },
            Some(spectrum) => spectrum,
        };
        let d: SpectrumDescriptor = match spectrum.descriptor() {
            ResourceDescriptor::Spectrum(d) => d,
            _ => {
                return Err(input_error(ErrorClass::Type, SPECTRUM_WRONG));
            },
        };
        match d.validate() {
            Err(e) => {
                return Err(e);
            },
            Ok(_) => {},
        }
        if d.channels == 0 {
            let none: Vec<u32> = Vec::new();
            proof {
                let w = d.extent.width as int;
                let h = d.extent.height as int;
                assert(w * h * 0 == 0) by (nonlinear_arith);
                assert(none@ =~= inverse_real_of::<A>(spectrum@.samples, w, h, 0));
            }
            let empty: Result<ResourceValue, usize> = ResourceValue::new(
                reconstructed(d),
                d.channels,
                none,
            );
            return Ok(one_port("image", empty.unwrap()));
        }
        proof {
            let area = d.extent.area();
            let channels = d.channels;
            assert(0 <= area <= area * channels) by (nonlinear_arith)
                requires
                    area == d.extent.width * d.extent.height,
                    d.extent.width >= 0,
                    d.extent.height >= 0,
                    channels >= 1,
            ;
        }
        let samples: Vec<u32> = inverse_real::<A>(
            spectrum.samples(),
            d.extent.width as usize,
            d.extent.height as usize,
            d.channels as usize,
        );
        let value: Result<ResourceValue, usize> = ResourceValue::new(
            reconstructed(d),
            d.channels,
            samples,
        );
        Ok(one_port("image", value.unwrap()))
    }
}

/// Turning a spectrum back gives a plane of the size and with the channels of the one it came from.
pub proof fn law_inverse_restores_shape(extent: Extent, channels: u32)
    ensures
        reconstructed(spectrum_descriptor(extent, channels)).extent() == extent,
        supported(reconstructed(spectrum_descriptor(extent, channels))),
        1 <= channels <= 4 ==> channels_of(reconstructed(spectrum_descriptor(extent, channels)))
            == channels,
{
}

} // verus!
