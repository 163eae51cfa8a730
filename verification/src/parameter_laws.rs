//! Parameters mean what they say: numbers that are written under a name are read back as that parameter, in
//! their order.
use crate::arithmetic::{narrow_of, Arithmetic};
use crate::binary::{finite, in_unit, less, ZERO};
use crate::convolve::{
    self, boundary_error, kernel_error, kernel_of, value_of, BoundaryMode, KernelView, VALUE_NOT_FINITE,
    VALUE_NOT_NUMBER, WEIGHT_NOT_FINITE, WEIGHT_NOT_NUMBER,
};
use crate::crop::rect_of;
use crate::diff::{self, ComparisonSpace};
use crate::domain_warp::{self, WarpFilter};
use crate::ellipse::{self, geometry_of, radii_errors, EllipseGeometry};
use crate::fill::{component_errors, fill_of};
use crate::frequency_energy::{self, Decomposition};
use crate::frequency_preserved;
use crate::gaussian_blur;
use crate::gaussian_pyramid;
use crate::gradient::{center_errors, entries_of, radial_of, stop_color_errors, Geometry, StopView};
use crate::guided::{request_of, GuidedRequest, RADIUS_MAX};
use crate::ir::{Error, ImageDescriptor, PyramidPhase, Rect};
use crate::json::Json;
use crate::params::{components_of, finite_numbers_of, is_bounded, pair_in, ComponentErrors, PairErrors};
use crate::report::AssertionSeverity;
use vstd::prelude::*;

verus! {

/// The value is a number, by its pattern.
pub open spec fn writes(value: Option<Json>, bits: u64) -> bool {
    value matches Some(Json::Number(n)) && n.double == bits
}

/// The value is an unsigned integer.
pub open spec fn writes_count(value: Option<Json>, count: u64) -> bool {
    value matches Some(Json::Number(n)) && n.unsigned == Some(count)
}

/// The value is a signed integer.
pub open spec fn writes_whole(value: Option<Json>, whole: i64) -> bool {
    value matches Some(Json::Number(n)) && n.signed == Some(whole)
}

/// The value is a list of numbers, by their patterns.
pub open spec fn writes_list(value: Option<Json>, list: Seq<u64>) -> bool {
    value matches Some(Json::Array(items)) && items.len() == list.len() && forall|i: int|
        0 <= i < list.len() ==> writes(Some(#[trigger] items[i]), list[i])
}

/// All numbers are finite.
pub open spec fn all_finite(list: Seq<u64>) -> bool {
    forall|i: int| 0 <= i < list.len() ==> finite(#[trigger] list[i])
}

/// Two numbers that are written under a name are read in their order.
pub proof fn law_pair_is_read_in_order(params: Json, name: Seq<char>, errors: PairErrors, x: u64, y: u64)
    requires
        writes_list(params.get(name), seq![x, y]),
        finite(x),
        finite(y),
    ensures
        pair_in(params, name, errors) == Ok::<(u64, u64), Error>((x, y)),
{
    let items = params.get(name)->Some_0->Array_0;
    assert(writes(Some(items[0]), seq![x, y][0]));
    assert(writes(Some(items[1]), seq![x, y][1]));
}

/// Finite numbers are read in their order.
proof fn lemma_numbers_read(items: Seq<Json>, list: Seq<u64>, not_number: Error, not_finite: Error)
    requires
        writes_list(Some(Json::Array(items)), list),
        all_finite(list),
    ensures
        finite_numbers_of(items, not_number, not_finite) == Ok::<Seq<u64>, Error>(list),
    decreases items.len(),
{
    if items.len() > 0 {
        let front = list.drop_last();
        assert(writes_list(Some(Json::Array(items.drop_last())), front)) by {
            assert forall|i: int| 0 <= i < front.len() implies writes(
                Some(#[trigger] items.drop_last()[i]),
                front[i],
            ) by {
                assert(writes(Some(items[i]), list[i]));
            }
        }
        assert(all_finite(front)) by {
            assert forall|i: int| 0 <= i < front.len() implies finite(#[trigger] front[i]) by {
                assert(finite(list[i]));
            }
        }
        lemma_numbers_read(items.drop_last(), front, not_number, not_finite);
        assert(writes(Some(items[items.len() - 1]), list[list.len() - 1]));
        assert(finite(list[list.len() - 1]));
        assert(front.push(list.last()) =~= list);
    } else {
        assert(list =~= Seq::empty());
    }
}

/// An ellipse that is written out is read back.
pub proof fn law_written_ellipse_is_read_back(params: Json, edge: Json, e: EllipseGeometry)
    requires
        writes_list(params.get("center_px"@), seq![e.cx, e.cy]),
        writes_list(params.get("radii_px"@), seq![e.rx, e.ry]),
        writes(params.get("angle_rad"@), e.angle_rad),
        params.get("antialias"@) is None,
        params.get("edge"@) == Some(edge),
        edge is Object,
        edge.get("profile"@) == Some(Json::Text("smoothstep"@)),
        writes(edge.get("half_width_px"@), e.half_width_px),
        finite(e.cx) && finite(e.cy) && finite(e.rx) && finite(e.ry) && finite(e.angle_rad) && finite(e.half_width_px),
        less(ZERO, e.rx) && less(ZERO, e.ry),
        !less(e.half_width_px, ZERO),
    ensures
        geometry_of(params) == Ok::<EllipseGeometry, Error>(e),
{
    law_pair_is_read_in_order(params, "center_px"@, ellipse::center_errors(), e.cx, e.cy);
    law_pair_is_read_in_order(params, "radii_px"@, radii_errors(), e.rx, e.ry);
}

/// A centre and a radius that are written out are read back.
pub proof fn law_written_circle_is_read_back(params: Json, cx: u64, cy: u64, radius: u64)
    requires
        writes_list(params.get("center_px"@), seq![cx, cy]),
        writes(params.get("radius_px"@), radius),
        finite(cx) && finite(cy) && finite(radius),
        less(ZERO, radius),
    ensures
        radial_of(params) == Ok::<Geometry, Error>(Geometry::Radial { cx, cy, radius }),
{
    law_pair_is_read_in_order(params, "center_px"@, center_errors(), cx, cy);
}

/// A kernel that is written out is read back; its origin is the middle tap, or the later of two, where none is
/// written.
pub proof fn law_written_kernel_is_read_back(params: Json, kernel: Json, k: KernelView)
    requires
        params.get("kernel"@) == Some(kernel),
        kernel is Object,
        writes_count(kernel.get("width"@), k.width as u64),
        writes_count(kernel.get("height"@), k.height as u64),
        writes_list(kernel.get("weights"@), k.weights),
        all_finite(k.weights),
        k.well_formed(),
        writes_count(kernel.get("origin_x"@), k.origin_x as u64) || (kernel.get("origin_x"@) is None && k.width
            - 1 <= 2 * k.origin_x <= k.width),
        writes_count(kernel.get("origin_y"@), k.origin_y as u64) || (kernel.get("origin_y"@) is None && k.height
            - 1 <= 2 * k.origin_y <= k.height),
    ensures
        kernel_of(params) == Ok::<KernelView, Error>(k),
{
    let items = kernel.get("weights"@)->Some_0->Array_0;
    lemma_numbers_read(
        items,
        k.weights,
        kernel_error(WEIGHT_NOT_NUMBER),
        kernel_error(WEIGHT_NOT_FINITE),
    );
}

/// The border's numbers are read channel by channel.
pub proof fn law_written_border_is_read_back(params: Json, value: Seq<u64>)
    requires
        writes_list(params.get("value"@), value),
        all_finite(value),
    ensures
        value_of(params, value.len() as int) == Ok::<Seq<u64>, Error>(value),
{
    let items = params.get("value"@)->Some_0->Array_0;
    lemma_numbers_read(
        items,
        value,
        boundary_error(VALUE_NOT_NUMBER),
        boundary_error(VALUE_NOT_FINITE),
    );
}

/// A rectangle that is written out is read back.
pub proof fn law_written_rectangle_is_read_back(params: Json, value: Json, rect: Rect)
    requires
        params.get("rect"@) == Some(value),
        writes_whole(value.get("x0"@), rect.x0),
        writes_whole(value.get("y0"@), rect.y0),
        writes_whole(value.get("x1"@), rect.x1),
        writes_whole(value.get("y1"@), rect.y1),
        rect.is_valid(),
    ensures
        rect_of(params) == Ok::<Rect, Error>(rect),
{
}

/// A radius and a regularisation that are written out are read back.
pub proof fn law_written_guidance_is_read_back(params: Json, request: GuidedRequest)
    requires
        writes_count(params.get("radius"@), request.radius as u64),
        writes(params.get("epsilon"@), request.epsilon),
        1 <= request.radius <= RADIUS_MAX,
        finite(request.epsilon),
        !less(request.epsilon, ZERO),
    ensures
        request_of(params) == Ok::<GuidedRequest, Error>(request),
{
}

/// Accepted components are read in their order.
proof fn lemma_components_read(items: Seq<Json>, list: Seq<u64>, d: ImageDescriptor, errors: ComponentErrors)
    requires
        writes_list(Some(Json::Array(items)), list),
        all_finite(list),
        forall|i: int| 0 <= i < list.len() && is_bounded(d, i) ==> in_unit(#[trigger] list[i]),
    ensures
        components_of(items, d, errors) == Ok::<Seq<u64>, Error>(list),
    decreases items.len(),
{
    if items.len() > 0 {
        let front = list.drop_last();
        assert(writes_list(Some(Json::Array(items.drop_last())), front)) by {
            assert forall|i: int| 0 <= i < front.len() implies writes(
                Some(#[trigger] items.drop_last()[i]),
                front[i],
            ) by {
                assert(writes(Some(items[i]), list[i]));
            }
        }
        assert forall|i: int| 0 <= i < front.len() implies finite(#[trigger] front[i]) && (is_bounded(d, i)
            ==> in_unit(front[i])) by {
            assert(finite(list[i]));
        }
        lemma_components_read(items.drop_last(), front, d, errors);
        assert(writes(Some(items[items.len() - 1]), list[list.len() - 1]));
        assert(finite(list[list.len() - 1]));
        assert(front.push(list.last()) =~= list);
    } else {
        assert(list =~= Seq::empty());
    }
}

/// The value of a fill that is written out is read back channel by channel.
pub proof fn law_written_fill_is_read_back(params: Json, d: ImageDescriptor, value: Seq<u64>)
    requires
        writes_list(params.get("value"@), value),
        value.len() == d.layout.channel_count(),
        all_finite(value),
        forall|i: int| 0 <= i < value.len() && is_bounded(d, i) ==> in_unit(#[trigger] value[i]),
    ensures
        fill_of(params, d) == Ok::<Seq<u64>, Error>(value),
{
    let items = params.get("value"@)->Some_0->Array_0;
    lemma_components_read(items, value, d, component_errors());
}

/// What is not given has its default: an edge is repeated, a warp blends four pixels, a border is zero, an
/// ellipse has a hard edge and is not turned, images are compared in linear light with a threshold of zero,
/// energies are those of differences between levels and may change by a twentieth, and a pyramid is smoothed with
/// a standard deviation of one and rounds down.
pub proof fn law_absent_parameters_have_defaults(params: Json, channels: int, i: int)
    requires
        0 <= i < channels,
    ensures
        params.get("mode"@) is None ==> convolve::mode_of(params) == Ok::<BoundaryMode, Error>(BoundaryMode::Clamp)
            && gaussian_blur::blur_mode_of(params) == Ok::<BoundaryMode, Error>(BoundaryMode::Clamp),
        params.get("value"@) is None ==> (value_of(params, channels) matches Ok(v) && v.len() == channels && v[i] == 0),
        params.get("boundary"@) is None ==> domain_warp::boundary_of(params) == Ok::<(BoundaryMode, u64), Error>(
            (BoundaryMode::Clamp, 0u64),
        ),
        params.get("filter"@) is None ==> domain_warp::filter_of(params) == Ok::<WarpFilter, Error>(
            WarpFilter::Bilinear,
        ),
        params.get("edge"@) is None ==> ellipse::half_width_of(params) == Ok::<u64, Error>(0u64),
        params.get("angle_rad"@) is None ==> ellipse::angle_of(params) == Ok::<u64, Error>(0u64),
        params.get("comparison_space"@) is None ==> diff::space_of(params) == Ok::<ComparisonSpace, Error>(
            ComparisonSpace::DecodedLinear,
        ),
        params.get("threshold"@) is None ==> diff::threshold_of(params) == Ok::<u64, Error>(0u64),
        params.get("decomposition"@) is None ==> frequency_energy::decomposition_of(params) == Ok::<Decomposition, Error>(
            Decomposition::Laplacian,
        ),
        params.get("tolerance"@) is None ==> frequency_preserved::tolerance_of(params) == Ok::<u64, Error>(
            0x3fa9_9999_9999_999au64,
        ),
        params.get("severity"@) is None ==> frequency_preserved::severity_of(params) == Ok::<AssertionSeverity, Error>(
            AssertionSeverity::Error,
        ),
        params.get("sigma"@) is None ==> gaussian_pyramid::sigma_of(params) == Ok::<u64, Error>(
            0x3ff0_0000_0000_0000u64,
        ),
        params.get("phase"@) is None ==> gaussian_pyramid::phase_of(params) == Ok::<PyramidPhase, Error>(
            PyramidPhase::Floor,
        ),
{
}

/// A standard deviation, a threshold, a tolerance and a number of levels that are written out are read back.
pub proof fn law_written_numbers_are_read_back(params: Json, bits: u64, levels: u32)
    requires
        finite(bits),
        !less(bits, ZERO),
        1 <= levels <= 32,
    ensures
        writes(params.get("sigma"@), bits) && params.get("sigma_max"@) is None && !less(0x4080_0000_0000_0000u64, bits)
            ==> gaussian_blur::sigma_of(params) == Ok::<u64, Error>(bits),
        writes(params.get("sigma"@), bits) && !less(0x4050_0000_0000_0000u64, bits) ==> gaussian_pyramid::sigma_of(params)
            == Ok::<u64, Error>(bits),
        writes(params.get("threshold"@), bits) ==> diff::threshold_of(params) == Ok::<u64, Error>(bits),
        writes(params.get("tolerance"@), bits) ==> frequency_preserved::tolerance_of(params) == Ok::<u64, Error>(bits),
        writes_count(params.get("levels"@), levels as u64) ==> gaussian_pyramid::levels_of(params.get("levels"@)) == Ok::<
            u32,
            Error,
        >(levels),
{
}

/// The boundary of a warp that is written out is read back.
pub proof fn law_written_boundary_is_read_back(
    params: Json,
    boundary: Json,
    token: Seq<char>,
    mode: BoundaryMode,
    constant: u64,
)
    requires
        params.get("boundary"@) == Some(boundary),
        boundary is Object,
        boundary.get("mode"@) == Some(Json::Text(token)),
        convolve::mode_of_token(token) == Some(mode),
        token != "valid"@,
        writes(boundary.get("value"@), constant),
        finite(constant),
    ensures
        domain_warp::boundary_of(params) == Ok::<(BoundaryMode, u64), Error>((mode, constant)),
{
}

/// The stops of a gradient that are written out are read in their order: each has the position and the colour,
/// channel by channel, that its entry gives, stored as samples.
pub proof fn law_written_stops_are_read_back<A: Arithmetic>(
    entries: Seq<Json>,
    d: ImageDescriptor,
    stops: Seq<StopView>,
    i: int,
    position: u64,
    color: Seq<u64>,
)
    requires
        entries_of::<A>(entries, d) == Ok::<Seq<StopView>, Error>(stops),
        0 <= i < entries.len(),
        writes(entries[i].get("position"@), position),
        writes_list(entries[i].get("color"@), color),
        all_finite(color),
        forall|c: int| 0 <= c < color.len() && is_bounded(d, c) ==> in_unit(#[trigger] color[c]),
    ensures
        stops.len() == entries.len(),
        stops[i].position == narrow_of::<A>(position),
        stops[i].color.len() == color.len(),
        forall|c: int| 0 <= c < color.len() ==> #[trigger] stops[i].color[c] == narrow_of::<A>(color[c]),
    decreases entries.len(),
{
    let before = entries_of::<A>(entries.drop_last(), d)->Ok_0;
    lemma_stops_count::<A>(entries.drop_last(), d);
    if i == entries.len() - 1 {
        let items = entries[i].get("color"@)->Some_0->Array_0;
        lemma_components_read(items, color, d, stop_color_errors());
        assert(stops == before.push(stops.last()));
    } else {
        assert(entries.drop_last()[i] == entries[i]);
        law_written_stops_are_read_back::<A>(entries.drop_last(), d, before, i, position, color);
        assert(stops[i] == before[i]);
    }
}

/// There are as many stops as entries.
proof fn lemma_stops_count<A: Arithmetic>(entries: Seq<Json>, d: ImageDescriptor)
    ensures
        entries_of::<A>(entries, d) matches Ok(stops) ==> stops.len() == entries.len(),
    decreases entries.len(),
{
    if entries.len() > 0 {
        lemma_stops_count::<A>(entries.drop_last(), d);
    }
}

} // verus!
