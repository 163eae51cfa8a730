//! The energy of an image's frequency bands: the sum of squares of every level of a pyramid.
use crate::arithmetic::{lawful, plus, plus_of, times, times_of, widen, widen_of, Arithmetic};
use crate::binary::{is_sample_less, sample_less, SAMPLE_ZERO, ZERO};
use crate::convolve::{channels_of, supported};
use crate::frequency::{
    band_of, copied, countable, law_bands_are_slices, level_extents, planes_len, taps_fit,
};
use crate::gaussian_pyramid::{
    build_laplacian_samples, build_pyramid_samples, gaussian_level, gaussian_planes, gaussian_stack,
    laplacian_planes, law_levels_read_back, lemma_planes_len, lemma_stack_filled, level_count,
    pyramid_with, stack_extents, PyramidParams,
};
use crate::inspect::{check_report_output, report_outcome};
use crate::ir::{
    lemma_pyramid_len_grows, level_extent, plane_count, pyramid_len, AssertionResult, Detail,
    Error, ErrorClass, Extent, Rect, ReportDescriptor, ResourceDescriptor, ResourceKind,
};
use crate::json::{json_get, json_of, json_text, same_text, Json};
use crate::ports::{gives_port, one_port, port, port_view, request_whole, with_whole, Ports};
use crate::report::{
    gives_report, report_alone, ChannelStats, EnergyView, Findings, FrequencyEnergyData, Report,
    ReportView,
};
use crate::value::{ResourceValue, ValueView};
use vstd::prelude::*;

verus! {

/// The operation's identifier.
pub const FREQUENCY_ENERGY_OP_ID: &'static str = "analyze.frequency_energy@1";

/// An input was absent or of the wrong kind.
pub const E_FREQ_ENERGY_INPUT: &'static str = "E_FREQ_ENERGY_INPUT";

/// A parameter was missing, of the wrong type, or out of range.
pub const E_FREQ_ENERGY_PARAM: &'static str = "E_FREQ_ENERGY_PARAM";

/// The mask differs from the resource in size.
pub const E_FREQ_ENERGY_SHAPE: &'static str = "E_FREQ_ENERGY_SHAPE";

pub const RESOURCE_REQUIRED: &'static str = "analyze.frequency_energy requires a `resource` input";

pub const VALUE_REQUIRED: &'static str = "analyze.frequency_energy requires a `resource` value";

pub const RESOURCE_WRONG: &'static str = "analyze.frequency_energy `resource` must be an Image or Field1 resource";

pub const MASK_WRONG: &'static str = "analyze.frequency_energy `mask` input must be a mask resource";

pub const MASK_MISMATCH: &'static str = "analyze.frequency_energy: the `mask` must share the resource extent";

pub const BANDS_REQUIRED: &'static str = "analyze.frequency_energy requires a `bands` parameter";

pub const DECOMPOSITION_UNKNOWN: &'static str = "analyze.frequency_energy `decomposition` must be `laplacian` or `gaussian`";

/// A refusal for a parameter.
#[verifier::allow_in_spec]
pub fn param_error(message: &'static str) -> Error
    returns
        (Error::new(ErrorClass::Schema, E_FREQ_ENERGY_PARAM, message)),
{
    Error::new(ErrorClass::Schema, E_FREQ_ENERGY_PARAM, message)
}

/// A refusal for an input.
#[verifier::allow_in_spec]
pub fn input_error(class: ErrorClass, message: &'static str) -> Error
    returns
        (Error::new(class, E_FREQ_ENERGY_INPUT, message)),
{
    Error::new(class, E_FREQ_ENERGY_INPUT, message)
}

/// A refusal of a mask that does not match.
#[verifier::allow_in_spec]
pub fn shape_mismatch(mask: Extent, resource: Extent) -> Error
    returns
        (Error::new(ErrorClass::Semantic, E_FREQ_ENERGY_SHAPE, MASK_MISMATCH).about(
            Detail::Extents { first: mask, second: resource },
        )),
{
    Error::new(ErrorClass::Semantic, E_FREQ_ENERGY_SHAPE, MASK_MISMATCH).about(
        Detail::Extents { first: mask, second: resource },
    )
}

/// What the bands are: smoothed levels, or what each level has over the next coarser one.
#[derive(Debug, Clone, Copy, PartialEq, Eq, Structural)]
pub enum Decomposition {
    Gaussian,
    Laplacian,
}

impl Decomposition {
    /// The decomposition's name.
    #[verifier::allow_in_spec]
    pub fn token(self) -> &'static str
        returns
            (match self {
                Decomposition::Gaussian => "gaussian",
                Decomposition::Laplacian => "laplacian",
            }),
    {
        match self {
            Decomposition::Gaussian => "gaussian",
            Decomposition::Laplacian => "laplacian",
        }
    }
}

/// The first `n` numbers, added up in order.
pub open spec fn straight_sum<A: Arithmetic>(values: Seq<u64>, n: nat) -> u64
    decreases n,
{
    if n == 0 {
        ZERO
    } else {
        plus_of::<A>(straight_sum::<A>(values, (n - 1) as nat), values[n - 1])
    }
}

/// The sum of numbers, in halves: up to eight are added in order, more are cut in the middle.
pub open spec fn halved_sum<A: Arithmetic>(values: Seq<u64>) -> u64
    decreases values.len(),
{
    if values.len() <= 8 {
        straight_sum::<A>(values, values.len())
    } else {
        let mid = values.len() as int / 2;
        plus_of::<A>(
            halved_sum::<A>(values.take(mid)),
            halved_sum::<A>(values.skip(mid)),
        )
    }
}

/// Add up a part of some numbers in halves.
fn part_sum<A: Arithmetic>(values: &Vec<u64>, lo: usize, hi: usize) -> (sum: u64)
    requires
        lawful::<A>(),
        lo <= hi <= values@.len(),
    ensures
        sum == halved_sum::<A>(values@.subrange(lo as int, hi as int)),
    decreases hi - lo,
{
    let ghost part = values@.subrange(lo as int, hi as int);
    if hi - lo <= 8 {
        let mut acc: u64 = ZERO;
        let mut i: usize = lo;
        while i < hi
            invariant
                lawful::<A>(),
                lo <= i <= hi <= values@.len(),
                part == values@.subrange(lo as int, hi as int),
                acc == straight_sum::<A>(part, (i - lo) as nat),
            decreases hi - i,
        {
            acc = plus::<A>(acc, values[i]);
            i = i + 1;
        }
        return acc;
    }
    let mid: usize = lo + (hi - lo) / 2;
    assert(part.take(mid - lo) =~= values@.subrange(lo as int, mid as int));
    assert(part.skip(mid - lo) =~= values@.subrange(mid as int, hi as int));
    let left: u64 = part_sum::<A>(values, lo, mid);
    let right: u64 = part_sum::<A>(values, mid, hi);
    plus::<A>(left, right)
}

/// Add up numbers in halves.
pub fn pairwise_sum<A: Arithmetic>(values: &Vec<u64>) -> (sum: u64)
    requires
        lawful::<A>(),
    ensures
        sum == halved_sum::<A>(values@),
{
    assert(values@.subrange(0, values@.len() as int) =~= values@);
    part_sum::<A>(values, 0, values.len())
}

/// The squares of samples, taken wide.
pub open spec fn squares_of<A: Arithmetic>(plane: Seq<u32>) -> Seq<u64> {
    Seq::new(
        plane.len(),
        |i: int| times_of::<A>(widen_of::<A>(plane[i]), widen_of::<A>(plane[i])),
    )
}

/// The energy of a band: the sum of its squares.
pub open spec fn energy_of<A: Arithmetic>(plane: Seq<u32>) -> u64 {
    halved_sum::<A>(squares_of::<A>(plane))
}

/// Measure the energy of a part of a buffer.
pub fn band_energy<A: Arithmetic>(buffer: &Vec<u32>, lo: usize, hi: usize) -> (energy: u64)
    requires
        lawful::<A>(),
        lo <= hi <= buffer@.len(),
    ensures
        energy == energy_of::<A>(buffer@.subrange(lo as int, hi as int)),
{
    let ghost plane = buffer@.subrange(lo as int, hi as int);
    let mut squares: Vec<u64> = Vec::new();
    let mut i: usize = lo;
    while i < hi
        invariant
            lawful::<A>(),
            lo <= i <= hi <= buffer@.len(),
            plane == buffer@.subrange(lo as int, hi as int),
            squares@.len() == i - lo,
            forall|j: int|
                0 <= j < i - lo ==> #[trigger] squares@[j] == times_of::<A>(
                    widen_of::<A>(plane[j]),
                    widen_of::<A>(plane[j]),
                ),
        decreases hi - i,
    {
        let x: u64 = widen::<A>(buffer[i]);
        squares.push(times::<A>(x, x));
        i = i + 1;
    }
    assert(squares@ =~= squares_of::<A>(plane));
    pairwise_sum::<A>(&squares)
}

/// What is measured: the decomposition, and how its pyramid is built.
#[derive(Debug, Clone, Copy, PartialEq, Eq, Structural)]
pub struct FrequencyEnergyParams {
    pub decomposition: Decomposition,
    pub pyramid: PyramidParams,
}

/// The parameter that gives the number of bands: `bands`, or `levels` where that is absent.
pub open spec fn bands_in(params: Json) -> Option<Json> {
    match params.get("bands"@) {
        Some(v) => Some(v),
        None => params.get("levels"@),
    }
}

/// The decomposition that the parameters name, `laplacian` unless they hold one.
pub open spec fn decomposition_of(params: Json) -> Result<Decomposition, Error> {
    match params.get("decomposition"@) {
        None => Ok(Decomposition::Laplacian),
        Some(v) => match v.as_text() {
            None => Err(param_error(DECOMPOSITION_UNKNOWN).about(Detail::Given)),
            Some(token) => if token == "laplacian"@ {
                Ok(Decomposition::Laplacian)
            } else if token == "gaussian"@ {
                Ok(Decomposition::Gaussian)
            } else {
                Err(param_error(DECOMPOSITION_UNKNOWN).about(Detail::Given))
            },
        },
    }
}

/// What the parameters ask for.
pub open spec fn energy_params_of(params: Json) -> Result<FrequencyEnergyParams, Error> {
    if bands_in(params) is None {
        Err(param_error(BANDS_REQUIRED))
    } else {
        match pyramid_with(bands_in(params), params) {
            Err(e) => Err(param_error(e.message).about(e.detail)),
            Ok(pyramid) => match decomposition_of(params) {
                Err(e) => Err(e),
                Ok(decomposition) => Ok(FrequencyEnergyParams { decomposition, pyramid }),
            },
        }
    }
}

impl FrequencyEnergyParams {
    /// Read and check the parameters.
    pub fn resolve(params: &serde_json::Value) -> (r: Result<FrequencyEnergyParams, Error>)
        ensures
            r == energy_params_of(json_of(*params)),
            r matches Ok(p) ==> p.pyramid.resolved(),
    {
        let bands: Option<&serde_json::Value> = match json_get(params, "bands") {
            Some(value) => Some(value),
            None => json_get(params, "levels"),
        };
        if bands.is_none() {
            return Err(param_error(BANDS_REQUIRED));
        }
        let pyramid: PyramidParams = match PyramidParams::resolve_with(bands, params) {
            Err(e) => {
                return Err(param_error(e.message).about(e.detail));
            },
            Ok(pyramid) => pyramid,
        };
        let decomposition: Decomposition = match json_get(params, "decomposition") {
            None => Decomposition::Laplacian,
            Some(value) => match json_text(value) {
                None => {
                    return Err(param_error(DECOMPOSITION_UNKNOWN).about(Detail::Given));
                },
                Some(token) => if same_text(token, "laplacian") {
                    Decomposition::Laplacian
                } else if same_text(token, "gaussian") {
                    Decomposition::Gaussian
                } else {
                    return Err(param_error(DECOMPOSITION_UNKNOWN).about(Detail::Given));
                },
            },
        };
        Ok(FrequencyEnergyParams { decomposition, pyramid })
    }
}

/// The coverage of pixel `p`, zero past the mask's end.
pub open spec fn coverage_of(mask: Seq<u32>, p: int) -> u32 {
    if 0 <= p < mask.len() {
        mask[p]
    } else {
        SAMPLE_ZERO
    }
}

/// How many samples a pixel takes: its channels, one if it has none.
#[verifier::allow_in_spec]
pub fn pixel_width(channels: u32) -> u32
    returns
        (if channels == 0 {
            1
        } else {
            channels
        }),
{
    if channels == 0 {
        1
    } else {
        channels
    }
}

/// Sample `i` of `len` belongs to a pixel of which all samples are there.
pub open spec fn in_whole_pixel(i: int, len: int, channels: u32) -> bool {
    i / (pixel_width(channels) as int) < len / (pixel_width(channels) as int)
}

/// Samples with those outside the mask made zero: a pixel stays where its coverage is above zero. What
/// follows the last whole pixel stays.
pub open spec fn windowed(base: Seq<u32>, channels: u32, mask: Option<Seq<u32>>) -> Seq<u32> {
    match mask {
        None => base,
        Some(m) => Seq::new(
            base.len(),
            |i: int|
                if in_whole_pixel(i, base.len() as int, channels) && !sample_less(
                    SAMPLE_ZERO,
                    coverage_of(m, i / (pixel_width(channels) as int)),
                ) {
                    SAMPLE_ZERO
                } else {
                    base[i]
                },
        ),
    }
}

/// What an optional mask holds.
pub open spec fn mask_opt(mask: Option<&Vec<u32>>) -> Option<Seq<u32>> {
    match mask {
        None => None,
        Some(m) => Some(m@),
    }
}

/// Make the samples outside the mask zero.
pub fn apply_window(base: &Vec<u32>, channels: u32, mask: Option<&Vec<u32>>) -> (out: Vec<u32>)
    ensures
        out@ == windowed(base@, channels, mask_opt(mask)),
        out@.len() == base@.len(),
{
    let mask: &Vec<u32> = match mask {
        None => {
            return copied(base);
        },
        Some(m) => m,
    };
    let width: usize = pixel_width(channels) as usize;
    let pixels: usize = base.len() / width;
    let mut out: Vec<u32> = Vec::new();
    let mut i: usize = 0;
    while i < base.len()
        invariant
            width == pixel_width(channels),
            pixels == base@.len() as int / width as int,
            i <= base@.len(),
            out@ == windowed(base@, channels, Some(mask@)).take(i as int),
        decreases base@.len() - i,
    {
        let p: usize = i / width;
        let coverage: u32 = if p < mask.len() {
            mask[p]
        } else {
            SAMPLE_ZERO
        };
        out.push(
            if p < pixels && !is_sample_less(SAMPLE_ZERO, coverage) {
                SAMPLE_ZERO
            } else {
                base[i]
            },
        );
        i = i + 1;
    }
    out
}

/// The bands of a plane, one after the other.
pub open spec fn bands_buffer<A: Arithmetic>(
    base: Seq<u32>,
    extent: Extent,
    channels: u32,
    params: FrequencyEnergyParams,
) -> Seq<u32> {
    match params.decomposition {
        Decomposition::Gaussian => gaussian_planes::<A>(
            base,
            extent,
            channels,
            params.pyramid,
            level_count(params.pyramid),
        ),
        Decomposition::Laplacian => laplacian_planes::<A>(base, extent, channels, params.pyramid),
    }
}

/// The part of the bands' buffer that band `l` takes.
pub open spec fn band_plane<A: Arithmetic>(
    base: Seq<u32>,
    extent: Extent,
    channels: u32,
    params: FrequencyEnergyParams,
    l: int,
) -> Seq<u32> {
    bands_buffer::<A>(base, extent, channels, params).subrange(
        pyramid_len(extent, params.pyramid.phase, channels, l as nat),
        pyramid_len(extent, params.pyramid.phase, channels, (l + 1) as nat),
    )
}

/// The energies of the bands, finest first.
pub open spec fn energies_of<A: Arithmetic>(
    base: Seq<u32>,
    extent: Extent,
    channels: u32,
    params: FrequencyEnergyParams,
) -> Seq<u64> {
    Seq::new(
        params.pyramid.levels as nat,
        |l: int| energy_of::<A>(band_plane::<A>(base, extent, channels, params, l)),
    )
}

/// What is measured of a plane: the energy and the size of every band, and the total.
pub open spec fn measured<A: Arithmetic>(
    base: Seq<u32>,
    extent: Extent,
    channels: u32,
    params: FrequencyEnergyParams,
) -> EnergyView {
    let energies = energies_of::<A>(base, extent, channels, params);
    EnergyView {
        decomposition: params.decomposition.token(),
        bands: params.pyramid.levels,
        band_energy: energies,
        band_pixels: Seq::new(
            params.pyramid.levels as nat,
            |l: int|
                (level_extent(extent, params.pyramid.phase, l as nat).area() * channels) as u64,
        ),
        total_energy: halved_sum::<A>(energies),
    }
}

/// Bands take as many samples as the levels of a pyramid.
pub proof fn lemma_planes_len_is_pyramid_len(
    extent: Extent,
    params: PyramidParams,
    channels: u32,
    n: nat,
)
    requires
        n <= params.levels,
    ensures
        planes_len(stack_extents(extent, params), channels, n) == pyramid_len(
            extent,
            params.phase,
            channels,
            n,
        ),
    decreases n,
{
    if n > 0 {
        lemma_planes_len_is_pyramid_len(extent, params, channels, (n - 1) as nat);
    }
}

/// The bands' buffer is as long as the bands are together.
pub proof fn lemma_buffer_len<A: Arithmetic>(
    base: Seq<u32>,
    extent: Extent,
    channels: u32,
    params: FrequencyEnergyParams,
)
    requires
        base.len() == extent.area() * channels,
    ensures
        bands_buffer::<A>(base, extent, channels, params).len() >= pyramid_len(
            extent,
            params.pyramid.phase,
            channels,
            params.pyramid.levels as nat,
        ),
{
    let pyramid = params.pyramid;
    match params.decomposition {
        Decomposition::Gaussian => {
            lemma_planes_len::<A>(
                base,
                extent,
                channels,
                pyramid,
                level_count(pyramid),
            );
            lemma_pyramid_len_grows(
                extent,
                pyramid.phase,
                channels,
                pyramid.levels as nat,
                level_count(pyramid),
            );
        },
        Decomposition::Laplacian => {
            let levels = gaussian_stack::<A>(base, extent, channels, pyramid);
            let extents = stack_extents(extent, pyramid);
            if pyramid.levels > 0 {
                assert forall|k: int| 0 <= k < extents.len() implies (#[trigger] levels[k]).len()
                    == extents[k].area() * channels by {
                    lemma_stack_filled::<A>(base, extent, channels, pyramid, k as nat);
                }
                law_bands_are_slices::<A>(levels, extents, channels, pyramid.levels as nat, 0);
            }
            lemma_planes_len_is_pyramid_len(extent, pyramid, channels, pyramid.levels as nat);
        },
    }
}

/// Measure the energy of every band of a plane.
pub fn frequency_energy_of<A: Arithmetic>(
    base: &Vec<u32>,
    extent: Extent,
    channels: u32,
    params: FrequencyEnergyParams,
) -> (data: FrequencyEnergyData)
    requires
        lawful::<A>(),
        taps_fit::<A>(params.pyramid.sigma),
        base@.len() == extent.area() * channels,
    ensures
        data@ == measured::<A>(base@, extent, channels, params),
{
    let pyramid: PyramidParams = params.pyramid;
    let buffer: Vec<u32> = match params.decomposition {
        Decomposition::Gaussian => build_pyramid_samples::<A>(base, extent, channels, pyramid),
        Decomposition::Laplacian => build_laplacian_samples::<A>(base, extent, channels, pyramid),
    };
    let extents: Vec<Extent> = level_extents(extent, pyramid.levels, pyramid.phase);
    let held: usize = buffer.len();
    proof {
        lemma_buffer_len::<A>(base@, extent, channels, params);
    }
    let ghost expected = measured::<A>(base@, extent, channels, params);
    let mut energies: Vec<u64> = Vec::new();
    let mut pixels: Vec<u64> = Vec::new();
    let mut offset: usize = 0;
    let mut l: usize = 0;
    while l < extents.len()
        invariant
            lawful::<A>(),
            pyramid == params.pyramid,
            buffer@ == bands_buffer::<A>(base@, extent, channels, params),
            held == buffer@.len(),
            held >= pyramid_len(extent, pyramid.phase, channels, pyramid.levels as nat),
            extents@ == Seq::new(
                pyramid.levels as nat,
                |i: int| level_extent(extent, pyramid.phase, i as nat),
            ),
            expected == measured::<A>(base@, extent, channels, params),
            l <= extents@.len(),
            offset == pyramid_len(extent, pyramid.phase, channels, l as nat),
            energies@ == expected.band_energy.take(l as int),
            pixels@ == expected.band_pixels.take(l as int),
        decreases extents@.len() - l,
    {
        proof {
            lemma_pyramid_len_grows(
                extent,
                pyramid.phase,
                channels,
                l as nat,
                (l + 1) as nat,
            );
            lemma_pyramid_len_grows(
                extent,
                pyramid.phase,
                channels,
                (l + 1) as nat,
                pyramid.levels as nat,
            );
        }
        let count: u128 = plane_count(extents[l], channels);
        let n: usize = count as usize;
        energies.push(band_energy::<A>(&buffer, offset, offset + n));
        pixels.push(n as u64);
        offset = offset + n;
        l = l + 1;
        assert(energies@ =~= expected.band_energy.take(l as int));
        assert(pixels@ =~= expected.band_pixels.take(l as int));
    }
    assert(energies@ =~= expected.band_energy);
    assert(pixels@ =~= expected.band_pixels);
    let total: u64 = pairwise_sum::<A>(&energies);
    FrequencyEnergyData {
        decomposition: params.decomposition.token(),
        bands: pyramid.levels,
        band_energy: energies,
        band_pixels: pixels,
        total_energy: total,
    }
}

/// The kernel of the standard deviation that the parameters give, if any, has countable taps.
pub open spec fn energy_fits<A: Arithmetic>(params: Json) -> bool {
    energy_params_of(params) matches Ok(p) ==> taps_fit::<A>(p.pyramid.sigma)
}

/// Whether the kernel that the parameters ask for has countable taps.
pub fn fits<A: Arithmetic>(params: &serde_json::Value) -> (r: bool)
    requires
        lawful::<A>(),
    ensures
        r == energy_fits::<A>(json_of(*params)),
{
    match FrequencyEnergyParams::resolve(params) {
        Err(_) => true,
        Ok(p) => countable::<A>(p.pyramid.sigma),
    }
}

/// The operation.
#[derive(Debug, Clone, Copy)]
pub struct FrequencyEnergy;

/// What the operation produces.
pub open spec fn inferred(inputs: Map<Seq<char>, ResourceDescriptor>, params: Json) -> Result<
    ResourceDescriptor,
    Error,
> {
    match port(inputs, "resource"@) {
        None => Err(input_error(ErrorClass::Reference, RESOURCE_REQUIRED)),
        Some(d) => if !supported(d) {
            Err(input_error(ErrorClass::Type, RESOURCE_WRONG))
        } else {
            match energy_params_of(params) {
                Err(e) => Err(e),
                Ok(_) => if port(inputs, "mask"@) matches Some(m) && m.extent() != d.extent() {
                    Err(shape_mismatch(port(inputs, "mask"@)->0.extent(), d.extent()))
                } else {
                    Ok(
                        ResourceDescriptor::Report(
                            ReportDescriptor { extent: d.extent(), channels: channels_of(d) },
                        ),
                    )
                },
            }
        },
    }
}

/// The samples of the mask, if there is one; it must be a mask of the given size.
pub open spec fn mask_in(
    inputs: Map<Seq<char>, ResourceValue>,
    extent: Extent,
    wrong: Error,
    mismatch: Error,
) -> Result<Option<Seq<u32>>, Error> {
    match port_view(inputs, "mask"@) {
        None => Ok(None),
        Some(mask) => if !(mask.descriptor is Mask) {
            Err(wrong)
        } else if mask.descriptor.extent() != extent {
            Err(mismatch.about(Detail::Extents { first: mask.descriptor.extent(), second: extent }))
        } else {
            Ok(Some(mask.samples))
        },
    }
}

/// The samples of the mask are the expected ones, or the refusal is.
pub open spec fn gives_mask(r: Result<Option<&Vec<u32>>, Error>, expected: Result<Option<Seq<u32>>, Error>) -> bool {
    match (r, expected) {
        (Ok(mask), Ok(samples)) => mask_opt(mask) == samples,
        (Err(e), Err(f)) => e == f,
        _ => false,
    }
}

/// Take the samples of the mask, if there is one.
pub fn mask_samples<'a>(
    inputs: &'a Ports<ResourceValue>,
    extent: Extent,
    wrong: Error,
    mismatch: Error,
) -> (r: Result<Option<&'a Vec<u32>>, Error>)
    ensures
        gives_mask(r, mask_in(inputs@, extent, wrong, mismatch)),
{
    match inputs.get("mask") {
        None => Ok(None),
        Some(mask) => {
            let is_mask: bool = match mask.descriptor() {
                ResourceDescriptor::Mask(_) => true,
                _ => false,
            };
            if !is_mask {
                return Err(wrong);
            }
            if mask.extent() != extent {
                return Err(mismatch.about(Detail::Extents { first: mask.extent(), second: extent }));
            }
            Ok(Some(mask.samples()))
        },
    }
}

/// What a report on band energies says.
pub open spec fn energy_report(extent: Extent, channels: u32, energy: EnergyView) -> ReportView {
    ReportView {
        extent,
        channels,
        channel_stats: Seq::empty(),
        all_finite: true,
        content_hash: ""@,
        diff: None,
        assertion: None,
        frequency_energy: Some(energy),
    }
}

/// The resource holds one plane of its size and channels.
pub open spec fn single_plane(value: ValueView) -> bool {
    value.samples.len() == value.descriptor.extent().area() * value.channels
}

/// What the operation makes of its inputs.
pub open spec fn energy_found<A: Arithmetic>(inputs: Map<Seq<char>, ResourceValue>, params: Json) -> Result<
    ReportView,
    Error,
> {
    match port_view(inputs, "resource"@) {
        None => Err(input_error(ErrorClass::Reference, VALUE_REQUIRED)),
        Some(resource) => match energy_params_of(params) {
            Err(e) => Err(e),
            Ok(resolved) => {
                let extent = resource.descriptor.extent();
                match mask_in(
                    inputs,
                    extent,
                    input_error(ErrorClass::Type, MASK_WRONG),
                    Error::new(ErrorClass::Semantic, E_FREQ_ENERGY_SHAPE, MASK_MISMATCH),
                ) {
                    Err(e) => Err(e),
                    Ok(mask) => Ok(
                        energy_report(
                            extent,
                            resource.channels,
                            measured::<A>(
                                windowed(resource.samples, resource.channels, mask),
                                extent,
                                resource.channels,
                                resolved,
                            ),
                        ),
                    ),
                }
            },
        },
    }
}

impl Default for FrequencyEnergy {
    /// The operation.
    fn default() -> (r: Self)
        ensures
            r == FrequencyEnergy,
    {
        FrequencyEnergy
    }
}

impl FrequencyEnergy {
    /// The operation.
    pub fn new() -> (r: Self)
        ensures
            r == FrequencyEnergy,
    {
        FrequencyEnergy
    }

    /// The input ports and their kinds.
    pub fn declared_inputs(&self) -> (r: Vec<(&'static str, ResourceKind)>)
        ensures
            r@ == seq![("resource", ResourceKind::Image), ("mask", ResourceKind::Mask)],
    {
        vec![("resource", ResourceKind::Image), ("mask", ResourceKind::Mask)]
    }

    /// The output ports and their kinds.
    pub fn declared_outputs(&self) -> (r: Vec<(&'static str, ResourceKind)>)
        ensures
            r@ == seq![("report", ResourceKind::Report)],
    {
        vec![("report", ResourceKind::Report)]
    }

    /// What the operation produces of inputs like these.
    pub fn infer_outputs(
        &self,
        inputs: &Ports<ResourceDescriptor>,
        params: &serde_json::Value,
    ) -> (r: Result<Ports<ResourceDescriptor>, Error>)
        ensures
            gives_port(r, "report"@, inferred(inputs@, json_of(*params))),
    {
        let (extent, channels): (Extent, u32) = match inputs.get("resource") {
            None => {
                return Err(input_error(ErrorClass::Reference, RESOURCE_REQUIRED));
            },
            Some(ResourceDescriptor::Image(d)) => (d.extent, d.layout.channel_count()),
            Some(ResourceDescriptor::Field1(d)) => (d.extent, 1),
            Some(_) => {
                return Err(input_error(ErrorClass::Type, RESOURCE_WRONG));
            },
        };
        if let Err(e) = FrequencyEnergyParams::resolve(params) {
            return Err(e);
        }
        if let Some(mask) = inputs.get("mask") {
            if mask.extent() != extent {
                return Err(shape_mismatch(mask.extent(), extent));
            }
        }
        Ok(one_port("report", ResourceDescriptor::Report(ReportDescriptor { extent, channels })))
    }

    /// The whole of every input is needed, whatever is requested.
    pub fn required_inputs(
        &self,
        _requested_outputs: &Ports<Rect>,
        inputs: &Ports<ResourceDescriptor>,
        _params: &serde_json::Value,
    ) -> (r: Result<Ports<Rect>, Error>)
        ensures
            r matches Ok(regions) && regions@ == with_whole(
                with_whole(Map::empty(), inputs@, "resource"@),
                inputs@,
                "mask"@,
            ),
    {
        let mut regions: Ports<Rect> = Ports::new();
        request_whole(&mut regions, inputs, "resource");
        request_whole(&mut regions, inputs, "mask");
        Ok(regions)
    }

    /// Whether the produced resource is a report.
    pub fn validate_postconditions(
        &self,
        outputs: &Ports<ResourceDescriptor>,
        _params: &serde_json::Value,
    ) -> (r: Result<Vec<AssertionResult>, Error>)
        ensures
            r matches Ok(v) && v@ == seq![report_outcome(outputs@)],
    {
        Ok(vec![check_report_output(outputs)])
    }

    /// Measure the bands of the resource.
    pub fn compute<A: Arithmetic>(
        &self,
        inputs: &Ports<ResourceValue>,
        params: &serde_json::Value,
    ) -> (r: Result<Findings, Error>)
        requires
            lawful::<A>(),
            energy_fits::<A>(json_of(*params)),
            port_view(inputs@, "resource"@) matches Some(resource) ==> single_plane(resource),
        ensures
            gives_report(r, energy_found::<A>(inputs@, json_of(*params))),
    {
        let resource: &ResourceValue = match inputs.get("resource") {
            None => {
                return Err(input_error(ErrorClass::Reference, VALUE_REQUIRED));
            },
            Some(resource) => resource,
        };
        let channels: u32 = resource.channels();
        let extent: Extent = resource.extent();
        let resolved: FrequencyEnergyParams = match FrequencyEnergyParams::resolve(params) {
            Err(e) => {
                return Err(e);
            },
            Ok(resolved) => resolved,
        };
        let mask: Option<&Vec<u32>> = match mask_samples(
            inputs,
            extent,
            input_error(ErrorClass::Type, MASK_WRONG),
            Error::new(ErrorClass::Semantic, E_FREQ_ENERGY_SHAPE, MASK_MISMATCH),
        ) {
            Err(e) => {
                return Err(e);
            },
            Ok(mask) => mask,
        };
        let base: Vec<u32> = apply_window(resource.samples(), channels, mask);
        let energy: FrequencyEnergyData = frequency_energy_of::<A>(
            &base,
            extent,
            channels,
            resolved,
        );
        let channel_stats: Vec<ChannelStats> = Vec::new();
        let report: Report = Report {
            extent,
            channels,
            channel_stats,
            all_finite: true,
            content_hash: "".to_owned(),
            diff: None,
            assertion: None,
            frequency_energy: Some(energy),
        };
        assert(report@.channel_stats =~= Seq::empty());
        Ok(report_alone(report))
    }

    /// Measure the bands of the resource; `None` where the kernel has too many taps.
    pub fn try_compute<A: Arithmetic>(
        &self,
        inputs: &Ports<ResourceValue>,
        params: &serde_json::Value,
    ) -> (r: Option<Result<Findings, Error>>)
        requires
            lawful::<A>(),
            port_view(inputs@, "resource"@) matches Some(resource) ==> single_plane(resource),
        ensures
            match r {
                None => !energy_fits::<A>(json_of(*params)),
                Some(out) => {
                    &&& energy_fits::<A>(json_of(*params))
                    &&& gives_report(out, energy_found::<A>(inputs@, json_of(*params)))
                },
            },
    {
        if !fits::<A>(params) {
            return None;
        }
        Some(self.compute::<A>(inputs, params))
    }
}

/// Samples outside the mask have no part in what is measured: planes that agree but for whole pixels
/// without coverage have one energy.
pub proof fn law_window_hides_the_rest<A: Arithmetic>(
    base: Seq<u32>,
    other: Seq<u32>,
    extent: Extent,
    channels: u32,
    mask: Seq<u32>,
    params: FrequencyEnergyParams,
)
    requires
        base.len() == other.len(),
        forall|i: int|
            0 <= i < base.len() && !(in_whole_pixel(i, base.len() as int, channels) && !sample_less(
                SAMPLE_ZERO,
                coverage_of(mask, i / (pixel_width(channels) as int)),
            )) ==> #[trigger] base[i] == other[i],
    ensures
        measured::<A>(windowed(base, channels, Some(mask)), extent, channels, params) == measured::<A>(
            windowed(other, channels, Some(mask)),
            extent,
            channels,
            params,
        ),
{
    assert(windowed(base, channels, Some(mask)) =~= windowed(other, channels, Some(mask)));
}

/// The bands of a resource are as many as were asked for, and the total is the sum of their energies.
pub proof fn law_total_is_the_sum_of_bands<A: Arithmetic>(
    base: Seq<u32>,
    extent: Extent,
    channels: u32,
    params: FrequencyEnergyParams,
)
    ensures
        measured::<A>(base, extent, channels, params).band_energy.len() == params.pyramid.levels,
        measured::<A>(base, extent, channels, params).band_pixels.len() == params.pyramid.levels,
        measured::<A>(base, extent, channels, params).total_energy == halved_sum::<A>(
            measured::<A>(base, extent, channels, params).band_energy,
        ),
{
}

/// The energy reported of a band is that of the band itself: of the smoothed level, or of what the
/// level has over the next coarser one, the coarsest standing for itself.
pub proof fn law_energy_is_of_the_band<A: Arithmetic>(
    base: Seq<u32>,
    extent: Extent,
    channels: u32,
    params: FrequencyEnergyParams,
    l: int,
)
    requires
        base.len() == extent.area() * channels,
        0 <= l < params.pyramid.levels,
    ensures
        measured::<A>(base, extent, channels, params).band_energy[l] == energy_of::<A>(
            match params.decomposition {
                Decomposition::Gaussian => gaussian_level::<A>(
                    base,
                    extent,
                    channels,
                    params.pyramid,
                    l as nat,
                ),
                Decomposition::Laplacian => band_of::<A>(
                    gaussian_stack::<A>(base, extent, channels, params.pyramid),
                    stack_extents(extent, params.pyramid),
                    channels,
                    l,
                ),
            },
        ),
{
    let pyramid = params.pyramid;
    match params.decomposition {
        Decomposition::Gaussian => {
            law_levels_read_back::<A>(
                base,
                extent,
                channels,
                pyramid,
                pyramid.levels as nat,
                l as nat,
            );
        },
        Decomposition::Laplacian => {
            let levels = gaussian_stack::<A>(base, extent, channels, pyramid);
            let extents = stack_extents(extent, pyramid);
            assert forall|k: int| 0 <= k < extents.len() implies (#[trigger] levels[k]).len()
                == extents[k].area() * channels by {
                lemma_stack_filled::<A>(base, extent, channels, pyramid, k as nat);
            }
            law_bands_are_slices::<A>(levels, extents, channels, pyramid.levels as nat, l);
            lemma_planes_len_is_pyramid_len(extent, pyramid, channels, l as nat);
            lemma_planes_len_is_pyramid_len(extent, pyramid, channels, (l + 1) as nat);
        },
    }
}

} // verus!
