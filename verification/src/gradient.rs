//! Colour gradients: linear between two points, and radial about one.
//!
//! A gradient gives every pixel centre a parameter in `[0, 1]` and takes the colour there from a
//! sorted list of stops, interpolating between neighbours. At a stop's own position the colour is
//! the stop's, bit for bit.
use crate::arithmetic::{
    fused, fused_of, hypotenuse, hypotenuse_of, lawful, minus, minus_of, narrow, narrow_of, over,
    over_of, plus, plus_of, sample_fused, sample_fused_of, sample_minus, sample_minus_of,
    sample_over, sample_over_of, times, times_of, whole, whole_of, Arithmetic,
};
use crate::binary::{
    clamp_unit, clamped_unit, finite, in_unit, is_at_most, is_finite, is_in_unit, is_less,
    is_sample_at_most, is_sample_less, less, at_most, sample_at_most, sample_less, sample_nan, HALF,
    SAMPLE_NEG_INFINITY, SAMPLE_ONE, SAMPLE_ZERO, ZERO,
};
use crate::ir::{
    addressable, extent_overflow, AlphaRepresentation, AssertionResult, ChannelLayout,
    ColorEncoding, ColorRange, CoordinateConvention, Detail, Error, ErrorClass, Extent,
    ImageDescriptor, Rect, ResourceDescriptor, ResourceKind, ScalarType, SemanticRole,
};
use crate::json::{
    json_array, json_double, json_get, json_is_object, json_of, json_opt, json_seq, json_text,
    same_text, Json,
};
use crate::lattice::{at, lemma_at_bounds, lemma_at_inverse, lemma_at_of, raster};
use crate::params::{
    components, components_of, lemma_components, narrow_all, narrowed, number_in, pair_in,
    read_number, read_pair, ComponentErrors, NumberErrors, PairErrors,
};
use crate::ports::{
    check_image_output, gives_port, gives_value, image_outcome, one_port, port, port_view, Ports,
};
use crate::value::{ResourceValue, ValueView};
use vstd::prelude::*;

verus! {

/// The identifier of the linear gradient.
pub const LINEAR_GRADIENT_OP_ID: &'static str = "paint.linear_gradient@1";

/// The identifier of the radial gradient.
pub const RADIAL_GRADIENT_OP_ID: &'static str = "paint.radial_gradient@1";

/// The input that gives the size was absent.
pub const E_GRADIENT_INPUT: &'static str = "E_GRADIENT_INPUT";

/// A geometry or descriptor parameter was missing, malformed, or degenerate.
pub const E_GRADIENT_PARAM: &'static str = "E_GRADIENT_PARAM";

/// The stops were missing, malformed, unsorted, or did not span the range.
pub const E_GRADIENT_STOPS: &'static str = "E_GRADIENT_STOPS";

/// The samples were not as many as the descriptor declares; no result of these operations is.
pub const E_GRADIENT_BUFFER: &'static str = "E_GRADIENT_BUFFER";

pub const INPUT_REQUIRED: &'static str = "a gradient requires an `extent_from` input";

pub const LINEAR_VALUE_REQUIRED: &'static str = "paint.linear_gradient requires an `extent_from` input value";

pub const RADIAL_VALUE_REQUIRED: &'static str = "paint.radial_gradient requires an `extent_from` input value";

pub const START_MISSING: &'static str = "gradient parameter `start_px`: missing required parameter";

pub const START_NOT_ARRAY: &'static str = "gradient parameter `start_px`: must be a [x, y] array";

pub const START_COUNT: &'static str = "gradient parameter `start_px`: must have exactly two elements";

pub const START_NOT_NUMBER: &'static str = "gradient parameter `start_px`: must be a number";

pub const START_NOT_FINITE: &'static str = "gradient parameter `start_px`: must be finite";

pub const END_MISSING: &'static str = "gradient parameter `end_px`: missing required parameter";

pub const END_NOT_ARRAY: &'static str = "gradient parameter `end_px`: must be a [x, y] array";

pub const END_COUNT: &'static str = "gradient parameter `end_px`: must have exactly two elements";

pub const END_NOT_NUMBER: &'static str = "gradient parameter `end_px`: must be a number";

pub const END_NOT_FINITE: &'static str = "gradient parameter `end_px`: must be finite";

pub const CENTER_MISSING: &'static str = "gradient parameter `center_px`: missing required parameter";

pub const CENTER_NOT_ARRAY: &'static str = "gradient parameter `center_px`: must be a [x, y] array";

pub const CENTER_COUNT: &'static str = "gradient parameter `center_px`: must have exactly two elements";

pub const CENTER_NOT_NUMBER: &'static str = "gradient parameter `center_px`: must be a number";

pub const CENTER_NOT_FINITE: &'static str = "gradient parameter `center_px`: must be finite";

pub const RADIUS_MISSING: &'static str = "gradient parameter `radius_px`: missing required parameter";

pub const RADIUS_NOT_NUMBER: &'static str = "gradient parameter `radius_px`: must be a number";

pub const RADIUS_NOT_FINITE: &'static str = "gradient parameter `radius_px`: must be finite";

pub const LAYOUT_UNKNOWN: &'static str = "gradient `layout` is not a recognized value";

pub const COLOR_UNKNOWN: &'static str = "gradient `color` is not a recognized value";

pub const RANGE_UNKNOWN: &'static str = "gradient `range` is not a recognized value";

pub const ALPHA_UNKNOWN: &'static str = "gradient `alpha` is not a recognized value";

pub const AXIS_DEGENERATE: &'static str = "paint.linear_gradient: `start_px` and `end_px` must differ (a zero-length axis has no gradient direction)";

pub const RADIUS_DEGENERATE: &'static str = "paint.radial_gradient: `radius_px` must be strictly positive (a zero radius is a degenerate gradient)";

pub const STOPS_REQUIRED: &'static str = "a gradient requires a `stops` array";

pub const STOPS_NOT_ARRAY: &'static str = "`stops` must be an array of { position, color } entries";

pub const STOPS_TOO_FEW: &'static str = "`stops` must have at least two entries (one at 0 and one at 1)";

pub const STOP_NOT_OBJECT: &'static str = "`stops` entry must be an object";

pub const POSITION_NOT_NUMBER: &'static str = "`stops` position must be a number";

pub const POSITION_RANGE: &'static str = "`stops` position must be a finite value in [0, 1]";

pub const POSITION_UNSORTED: &'static str = "`stops` position must be >= the previous stop (sorted)";

pub const STOPS_SPAN: &'static str = "`stops` must begin at position 0 and end at position 1";

pub const STOP_COLOR_REQUIRED: &'static str = "`stops` color is required";

pub const STOP_COLOR_NOT_ARRAY: &'static str = "`stops` color must be an array";

pub const STOP_COLOR_COUNT: &'static str = "`stops` color must have one component per layout channel";

pub const STOP_COLOR_NOT_NUMBER: &'static str = "`stops` color component must be a number";

pub const STOP_COLOR_NOT_FINITE: &'static str = "`stops` color component must be finite";

pub const STOP_COLOR_RANGE: &'static str = "`stops` color component is out of the [0, 1] range; clamping is never implicit";

/// A refusal for the stops.
#[verifier::allow_in_spec]
pub fn stops_error(message: &'static str) -> Error
    returns
        (Error::new(ErrorClass::Schema, E_GRADIENT_STOPS, message)),
{
    Error::new(ErrorClass::Schema, E_GRADIENT_STOPS, message)
}

/// A refusal for a parameter.
#[verifier::allow_in_spec]
pub fn param_error(message: &'static str) -> Error
    returns
        (Error::new(ErrorClass::Schema, E_GRADIENT_PARAM, message)),
{
    Error::new(ErrorClass::Schema, E_GRADIENT_PARAM, message)
}

/// How the components of a stop's colour are refused.
#[verifier::allow_in_spec]
pub fn stop_color_errors() -> ComponentErrors
    returns
        (ComponentErrors {
            not_number: stops_error(STOP_COLOR_NOT_NUMBER),
            not_finite: stops_error(STOP_COLOR_NOT_FINITE),
            alpha_range: stops_error(STOP_COLOR_RANGE),
            color_range: stops_error(STOP_COLOR_RANGE),
        }),
{
    ComponentErrors {
        not_number: stops_error(STOP_COLOR_NOT_NUMBER),
        not_finite: stops_error(STOP_COLOR_NOT_FINITE),
        alpha_range: stops_error(STOP_COLOR_RANGE),
        color_range: stops_error(STOP_COLOR_RANGE),
    }
}

/// A colour stop: a position and a colour, by their binary32 patterns.
#[derive(Debug, Clone)]
pub struct Stop {
    pub position: u32,
    pub color: Vec<u32>,
}

/// What a stop is.
pub ghost struct StopView {
    pub position: u32,
    pub color: Seq<u32>,
}

impl View for Stop {
    type V = StopView;

    open spec fn view(&self) -> StopView {
        StopView { position: self.position, color: self.color@ }
    }
}

/// A checked list of stops.
#[derive(Debug, Clone)]
pub struct Stops {
    pub stops: Vec<Stop>,
}

impl View for Stops {
    type V = Seq<StopView>;

    open spec fn view(&self) -> Seq<StopView> {
        self.stops@.map_values(|s: Stop| s@)
    }
}

/// A list of stops that a gradient can be drawn from: it begins at zero and ends at one, no position
/// is before its predecessor, and every colour has `channels` components.
pub open spec fn stops_ok(stops: Seq<StopView>, channels: int) -> bool {
    &&& stops.len() >= 2
    &&& stops[0].position == SAMPLE_ZERO
    &&& stops[stops.len() - 1].position == SAMPLE_ONE
    &&& forall|i: int, j: int|
        0 <= i && j == i + 1 && j < stops.len() ==> !sample_less(
            (#[trigger] stops[j]).position,
            (#[trigger] stops[i]).position,
        )
    &&& forall|i: int| 0 <= i < stops.len() ==> (#[trigger] stops[i]).color.len() == channels
}

/// The colour of a stop for an image like this.
pub open spec fn stop_color_of(value: Option<Json>, d: ImageDescriptor) -> Result<Seq<u64>, Error> {
    match value {
        None => Err(stops_error(STOP_COLOR_REQUIRED)),
        Some(v) => match v.as_array() {
            None => Err(stops_error(STOP_COLOR_NOT_ARRAY).about(Detail::Given)),
            Some(items) => if items.len() != d.layout.channel_count() {
                Err(
                    stops_error(STOP_COLOR_COUNT).about(
                        Detail::Components { found: items.len() as usize, layout: d.layout },
                    ),
                )
            } else {
                components_of(items, d, stop_color_errors())
            },
        },
    }
}

/// The position of a stop.
pub open spec fn position_of(entry: Json) -> Result<u64, Error> {
    match entry.get("position"@) {
        None => Err(stops_error(POSITION_NOT_NUMBER).about(Detail::Given)),
        Some(v) => match v.as_double() {
            None => Err(stops_error(POSITION_NOT_NUMBER).about(Detail::Given)),
            Some(bits) => if in_unit(bits) {
                Ok(bits)
            } else {
                Err(stops_error(POSITION_RANGE).about(Detail::Number { value: bits }))
            },
        },
    }
}

/// The stop that an entry describes after one at `previous`.
pub open spec fn stop_of<A: Arithmetic>(entry: Json, d: ImageDescriptor, previous: u32) -> Result<
    StopView,
    Error,
> {
    if !(entry is Object) {
        Err(stops_error(STOP_NOT_OBJECT).about(Detail::Given))
    } else {
        match position_of(entry) {
            Err(e) => Err(e),
            Ok(raw) => {
                let position = narrow_of::<A>(raw);
                if sample_less(position, previous) {
                    Err(stops_error(POSITION_UNSORTED).about(Detail::Number { value: raw }))
                } else {
                    match stop_color_of(entry.get("color"@), d) {
                        Err(e) => Err(e),
                        Ok(color) => Ok(StopView { position, color: narrowed::<A>(color) }),
                    }
                }
            },
        }
    }
}

/// The position that the next stop may not be before.
pub open spec fn last_position(stops: Seq<StopView>) -> u32 {
    if stops.len() == 0 {
        SAMPLE_NEG_INFINITY
    } else {
        stops.last().position
    }
}

/// The stops that the entries describe; the first that is refused refuses the list.
pub open spec fn entries_of<A: Arithmetic>(entries: Seq<Json>, d: ImageDescriptor) -> Result<
    Seq<StopView>,
    Error,
>
    decreases entries.len(),
{
    if entries.len() == 0 {
        Ok(Seq::empty())
    } else {
        match entries_of::<A>(entries.drop_last(), d) {
            Err(e) => Err(e),
            Ok(stops) => match stop_of::<A>(entries.last(), d, last_position(stops)) {
                Err(e) => Err(e.about(e.detail.within((entries.len() - 1) as usize))),
                Ok(stop) => Ok(stops.push(stop)),
            },
        }
    }
}

/// The stops that the parameters give for an image like this.
pub open spec fn stops_of<A: Arithmetic>(params: Json, d: ImageDescriptor) -> Result<
    Seq<StopView>,
    Error,
> {
    match params.get("stops"@) {
        None => Err(stops_error(STOPS_REQUIRED)),
        Some(v) => match v.as_array() {
            None => Err(stops_error(STOPS_NOT_ARRAY).about(Detail::Given)),
            Some(entries) => if entries.len() < 2 {
                Err(stops_error(STOPS_TOO_FEW).about(Detail::Given))
            } else {
                match entries_of::<A>(entries, d) {
                    Err(e) => Err(e),
                    Ok(stops) => if stops[0].position == SAMPLE_ZERO && stops.last().position
                        == SAMPLE_ONE {
                        Ok(stops)
                    } else {
                        Err(stops_error(STOPS_SPAN).about(Detail::Given))
                    },
                }
            },
        },
    }
}

/// A result with its stops taken by their view.
pub open spec fn stops_result(r: Result<Stops, Error>) -> Result<Seq<StopView>, Error> {
    match r {
        Ok(stops) => Ok(stops@),
        Err(e) => Err(e),
    }
}

proof fn lemma_entries<A: Arithmetic>(entries: Seq<Json>, d: ImageDescriptor)
    ensures
        entries_of::<A>(entries, d) matches Ok(stops) ==> {
            &&& stops.len() == entries.len()
            &&& forall|i: int, j: int|
                0 <= i && j == i + 1 && j < stops.len() ==> !sample_less(
                    (#[trigger] stops[j]).position,
                    (#[trigger] stops[i]).position,
                )
            &&& forall|i: int|
                0 <= i < stops.len() ==> (#[trigger] stops[i]).color.len() == d.layout.channel_count()
        },
    decreases entries.len(),
{
    if entries.len() > 0 {
        lemma_entries::<A>(entries.drop_last(), d);
        match entries.last().get("color"@) {
            Some(v) => match v.as_array() {
                Some(items) => {
                    lemma_components(items, d, stop_color_errors());
                },
                None => {},
            },
            None => {},
        }
    }
}

proof fn lemma_refused_entries<A: Arithmetic>(entries: Seq<Json>, n: int, d: ImageDescriptor)
    requires
        0 <= n <= entries.len(),
        entries_of::<A>(entries.take(n), d) is Err,
    ensures
        entries_of::<A>(entries, d) == entries_of::<A>(entries.take(n), d),
    decreases entries.len() - n,
{
    if n < entries.len() {
        assert(entries.take(n + 1).drop_last() =~= entries.take(n));
        lemma_refused_entries::<A>(entries, n + 1, d);
    } else {
        assert(entries.take(n) =~= entries);
    }
}

/// Read a stop's colour.
pub fn parse_stop_color(value: Option<&serde_json::Value>, d: ImageDescriptor) -> (r: Result<
    Vec<u64>,
    Error,
>)
    ensures
        crate::params::seq_result(r) == stop_color_of(json_opt(value), d),
{
    let value: &serde_json::Value = match value {
        None => {
            return Err(stops_error(STOP_COLOR_REQUIRED));
        },
        Some(value) => value,
    };
    let items: &Vec<serde_json::Value> = match json_array(value) {
        None => {
            return Err(stops_error(STOP_COLOR_NOT_ARRAY).about(Detail::Given));
        },
        Some(items) => items,
    };
    if items.len() != d.layout.channel_count() as usize {
        return Err(
            stops_error(STOP_COLOR_COUNT).about(
                Detail::Components { found: items.len(), layout: d.layout },
            ),
        );
    }
    components(items, d, stop_color_errors())
}

/// A result with its stop taken by its view.
pub open spec fn stop_result(r: Result<Stop, Error>) -> Result<StopView, Error> {
    match r {
        Ok(stop) => Ok(stop@),
        Err(e) => Err(e),
    }
}

/// Read one stop after one at `previous`.
fn parse_stop<A: Arithmetic>(entry: &serde_json::Value, d: ImageDescriptor, previous: u32) -> (r: Result<
    Stop,
    Error,
>)
    requires
        lawful::<A>(),
    ensures
        stop_result(r) == stop_of::<A>(json_of(*entry), d, previous),
{
    if !json_is_object(entry) {
        return Err(stops_error(STOP_NOT_OBJECT).about(Detail::Given));
    }
    let raw: u64 = match json_get(entry, "position") {
        None => {
            return Err(stops_error(POSITION_NOT_NUMBER).about(Detail::Given));
        },
        Some(value) => match json_double(value) {
            None => {
                return Err(stops_error(POSITION_NOT_NUMBER).about(Detail::Given));
            },
            Some(bits) => bits,
        },
    };
    if !is_in_unit(raw) {
        return Err(stops_error(POSITION_RANGE).about(Detail::Number { value: raw }));
    }
    let position: u32 = narrow::<A>(raw);
    if is_sample_less(position, previous) {
        return Err(stops_error(POSITION_UNSORTED).about(Detail::Number { value: raw }));
    }
    match parse_stop_color(json_get(entry, "color"), d) {
        Err(e) => Err(e),
        Ok(color) => Ok(Stop { position, color: narrow_all::<A>(&color) }),
    }
}

impl Stops {
    /// Read and check the `stops` parameter for an image like this.
    pub fn resolve<A: Arithmetic>(params: &serde_json::Value, d: ImageDescriptor) -> (r: Result<
        Stops,
        Error,
    >)
        requires
            lawful::<A>(),
        ensures
            stops_result(r) == stops_of::<A>(json_of(*params), d),
            r matches Ok(stops) ==> stops_ok(stops@, d.layout.channel_count() as int),
    {
        let value: &serde_json::Value = match json_get(params, "stops") {
            None => {
                return Err(stops_error(STOPS_REQUIRED));
            },
            Some(value) => value,
        };
        let entries: &Vec<serde_json::Value> = match json_array(value) {
            None => {
                return Err(stops_error(STOPS_NOT_ARRAY).about(Detail::Given));
            },
            Some(entries) => entries,
        };
        if entries.len() < 2 {
            return Err(stops_error(STOPS_TOO_FEW).about(Detail::Given));
        }
        let ghost all = json_seq(entries@);
        let mut stops: Stops = Stops { stops: Vec::new() };
        let mut previous: u32 = SAMPLE_NEG_INFINITY;
        let mut i: usize = 0;
        assert(all.take(0) =~= Seq::empty());
        assert(stops@ =~= Seq::<StopView>::empty());
        while i < entries.len()
            invariant
                lawful::<A>(),
                json_of(*params).get("stops"@) matches Some(v) && v.as_array() == Some(all),
                all.len() >= 2,
                i <= entries@.len(),
                all == json_seq(entries@),
                previous == last_position(stops@),
                entries_of::<A>(all.take(i as int), d) == Ok::<Seq<StopView>, Error>(stops@),
            decreases entries@.len() - i,
        {
            assert(all.take(i + 1).drop_last() =~= all.take(i as int));
            assert(all.take(i + 1).last() == json_of(entries@[i as int]));
            match parse_stop::<A>(&entries[i], d, previous) {
                Err(e) => {
                    proof {
                        lemma_refused_entries::<A>(all, i + 1, d);
                    }
                    return Err(e.about(e.detail.within(i)));
                },
                Ok(stop) => {
                    let ghost before = stops@;
                    previous = stop.position;
                    let ghost added = stop@;
                    stops.stops.push(stop);
                    assert(stops@ =~= before.push(added));
                },
            }
            i = i + 1;
        }
        assert(all.take(i as int) =~= all);
        proof {
            lemma_entries::<A>(all, d);
        }
        let n: usize = stops.stops.len();
        assert(stops@[0] == stops.stops@[0]@);
        assert(stops@.last() == stops.stops@[n - 1]@);
        if stops.stops[0].position == SAMPLE_ZERO && stops.stops[n - 1].position == SAMPLE_ONE {
            Ok(stops)
        } else {
            Err(stops_error(STOPS_SPAN).about(Detail::Given))
        }
    }
}

/// The first stop from `i` on that is not before `t`; the last stop where there is none.
pub open spec fn upper_of(stops: Seq<StopView>, t: u32, i: int) -> int
    decreases stops.len() - i,
{
    if i >= stops.len() {
        stops.len() - 1
    } else if sample_at_most(t, stops[i].position) {
        i
    } else {
        upper_of(stops, t, i + 1)
    }
}

/// The colour at `t`: a stop's own at its position, else the linear interpolation of the stops on
/// either side.
pub open spec fn color_of<A: Arithmetic>(stops: Seq<StopView>, t: u32) -> Seq<u32> {
    let upper = upper_of(stops, t, 0);
    if upper == 0 || stops[upper].position == t {
        stops[upper].color
    } else {
        let lo = stops[upper - 1];
        let hi = stops[upper];
        let f = sample_over_of::<A>(
            sample_minus_of::<A>(t, lo.position),
            sample_minus_of::<A>(hi.position, lo.position),
        );
        Seq::new(
            lo.color.len(),
            |c: int|
                sample_fused_of::<A>(f, sample_minus_of::<A>(hi.color[c], lo.color[c]), lo.color[c]),
        )
    }
}

proof fn lemma_upper_in_range(stops: Seq<StopView>, t: u32, i: int)
    requires
        0 <= i <= stops.len(),
        stops.len() >= 1,
    ensures
        0 <= upper_of(stops, t, i) < stops.len(),
    decreases stops.len() - i,
{
    if i < stops.len() && !sample_at_most(t, stops[i].position) {
        lemma_upper_in_range(stops, t, i + 1);
    }
}

impl Stops {
    /// The colour at `t`.
    pub fn color_at<A: Arithmetic>(&self, t: u32, channels: usize) -> (color: Vec<u32>)
        requires
            lawful::<A>(),
            stops_ok(self@, channels as int),
        ensures
            color@ == color_of::<A>(self@, t),
            color@.len() == channels,
    {
        let n: usize = self.stops.len();
        let mut upper: usize = 0;
        while upper < n && !is_sample_at_most(t, self.stops[upper].position)
            invariant
                n == self@.len(),
                n == self.stops@.len(),
                upper <= n,
                upper_of(self@, t, 0) == upper_of(self@, t, upper as int),
            decreases n - upper,
        {
            assert(self@[upper as int] == self.stops@[upper as int]@);
            upper = upper + 1;
        }
        proof {
            lemma_upper_in_range(self@, t, 0);
            if upper < n {
                assert(self@[upper as int] == self.stops@[upper as int]@);
            }
        }
        if upper == n {
            upper = n - 1;
        }
        assert(self@[upper as int] == self.stops@[upper as int]@);
        if upper == 0 || self.stops[upper].position == t {
            let color: Vec<u32> = self.stops[upper].color.clone();
            assert(color@ =~= self.stops@[upper as int].color@);
            return color;
        }
        assert(self@[upper - 1] == self.stops@[upper - 1]@);
        let lo: &Stop = &self.stops[upper - 1];
        let hi: &Stop = &self.stops[upper];
        let f: u32 = sample_over::<A>(
            sample_minus::<A>(t, lo.position),
            sample_minus::<A>(hi.position, lo.position),
        );
        let mut color: Vec<u32> = Vec::new();
        let mut c: usize = 0;
        while c < channels
            invariant
                lawful::<A>(),
                c <= channels,
                lo.color@.len() == channels,
                hi.color@.len() == channels,
                color@.len() == c,
                forall|j: int|
                    0 <= j < c ==> #[trigger] color@[j] == sample_fused_of::<A>(
                        f,
                        sample_minus_of::<A>(hi.color@[j], lo.color@[j]),
                        lo.color@[j],
                    ),
            decreases channels - c,
        {
            color.push(
                sample_fused::<A>(f, sample_minus::<A>(hi.color[c], lo.color[c]), lo.color[c]),
            );
            c = c + 1;
        }
        assert(color@ =~= color_of::<A>(self@, t));
        color
    }
}

/// How the start of a line is refused.
#[verifier::allow_in_spec]
pub fn start_errors() -> PairErrors
    returns
        (PairErrors {
            missing: param_error(START_MISSING),
            not_array: param_error(START_NOT_ARRAY).about(Detail::Given),
            count: param_error(START_COUNT).about(Detail::Given),
            number: NumberErrors {
                not_number: param_error(START_NOT_NUMBER).about(Detail::Given),
                not_finite: param_error(START_NOT_FINITE).about(Detail::Given),
            },
        }),
{
    PairErrors {
        missing: param_error(START_MISSING),
        not_array: param_error(START_NOT_ARRAY).about(Detail::Given),
        count: param_error(START_COUNT).about(Detail::Given),
        number: NumberErrors {
            not_number: param_error(START_NOT_NUMBER).about(Detail::Given),
            not_finite: param_error(START_NOT_FINITE).about(Detail::Given),
        },
    }
}

/// How the end of a line is refused.
#[verifier::allow_in_spec]
pub fn end_errors() -> PairErrors
    returns
        (PairErrors {
            missing: param_error(END_MISSING),
            not_array: param_error(END_NOT_ARRAY).about(Detail::Given),
            count: param_error(END_COUNT).about(Detail::Given),
            number: NumberErrors {
                not_number: param_error(END_NOT_NUMBER).about(Detail::Given),
                not_finite: param_error(END_NOT_FINITE).about(Detail::Given),
            },
        }),
{
    PairErrors {
        missing: param_error(END_MISSING),
        not_array: param_error(END_NOT_ARRAY).about(Detail::Given),
        count: param_error(END_COUNT).about(Detail::Given),
        number: NumberErrors {
            not_number: param_error(END_NOT_NUMBER).about(Detail::Given),
            not_finite: param_error(END_NOT_FINITE).about(Detail::Given),
        },
    }
}

/// How the centre is refused.
#[verifier::allow_in_spec]
pub fn center_errors() -> PairErrors
    returns
        (PairErrors {
            missing: param_error(CENTER_MISSING),
            not_array: param_error(CENTER_NOT_ARRAY).about(Detail::Given),
            count: param_error(CENTER_COUNT).about(Detail::Given),
            number: NumberErrors {
                not_number: param_error(CENTER_NOT_NUMBER).about(Detail::Given),
                not_finite: param_error(CENTER_NOT_FINITE).about(Detail::Given),
            },
        }),
{
    PairErrors {
        missing: param_error(CENTER_MISSING),
        not_array: param_error(CENTER_NOT_ARRAY).about(Detail::Given),
        count: param_error(CENTER_COUNT).about(Detail::Given),
        number: NumberErrors {
            not_number: param_error(CENTER_NOT_NUMBER).about(Detail::Given),
            not_finite: param_error(CENTER_NOT_FINITE).about(Detail::Given),
        },
    }
}

/// How the radius is refused.
#[verifier::allow_in_spec]
pub fn radius_errors() -> NumberErrors
    returns
        (NumberErrors {
            not_number: param_error(RADIUS_NOT_NUMBER).about(Detail::Given),
            not_finite: param_error(RADIUS_NOT_FINITE).about(Detail::Given),
        }),
{
    NumberErrors {
        not_number: param_error(RADIUS_NOT_NUMBER).about(Detail::Given),
        not_finite: param_error(RADIUS_NOT_FINITE).about(Detail::Given),
    }
}

/// The layout that the parameters name; four channels unless given.
pub open spec fn layout_of(params: Json) -> Result<ChannelLayout, Error> {
    match params.get("layout"@) {
        None => Ok(ChannelLayout::Rgba),
        Some(v) => if v.as_text() == Some("gray"@) {
            Ok(ChannelLayout::Gray)
        } else if v.as_text() == Some("gray-a"@) {
            Ok(ChannelLayout::GrayA)
        } else if v.as_text() == Some("rgb"@) {
            Ok(ChannelLayout::Rgb)
        } else if v.as_text() == Some("rgba"@) {
            Ok(ChannelLayout::Rgba)
        } else {
            Err(param_error(LAYOUT_UNKNOWN).about(Detail::Given))
        },
    }
}

/// The colour encoding that the parameters name; sRGB unless given.
pub open spec fn encoding_of(params: Json) -> Result<ColorEncoding, Error> {
    match params.get("color"@) {
        None => Ok(ColorEncoding::Srgb),
        Some(v) => if v.as_text() == Some("srgb"@) {
            Ok(ColorEncoding::Srgb)
        } else if v.as_text() == Some("linear-srgb"@) {
            Ok(ColorEncoding::LinearSrgb)
        } else if v.as_text() == Some("raw-linear"@) {
            Ok(ColorEncoding::RawLinear)
        } else {
            Err(param_error(COLOR_UNKNOWN).about(Detail::Given))
        },
    }
}

/// The range policy that the parameters name; display-referred unless given.
pub open spec fn range_of(params: Json) -> Result<ColorRange, Error> {
    match params.get("range"@) {
        None => Ok(ColorRange::DisplayReferred),
        Some(v) => if v.as_text() == Some("display-referred"@) {
            Ok(ColorRange::DisplayReferred)
        } else if v.as_text() == Some("scene-referred"@) {
            Ok(ColorRange::SceneReferred)
        } else {
            Err(param_error(RANGE_UNKNOWN).about(Detail::Given))
        },
    }
}

/// The alpha representation that the parameters name; straight unless given.
pub open spec fn alpha_of(params: Json) -> Result<AlphaRepresentation, Error> {
    match params.get("alpha"@) {
        None => Ok(AlphaRepresentation::Straight),
        Some(v) => if v.as_text() == Some("premultiplied"@) {
            Ok(AlphaRepresentation::Premultiplied)
        } else if v.as_text() == Some("straight"@) {
            Ok(AlphaRepresentation::Straight)
        } else {
            Err(param_error(ALPHA_UNKNOWN).about(Detail::Given))
        },
    }
}

/// The image that the parameters describe at a size.
pub open spec fn descriptor_of(params: Json, extent: Extent) -> Result<ImageDescriptor, Error> {
    match layout_of(params) {
        Err(e) => Err(e),
        Ok(layout) => match encoding_of(params) {
            Err(e) => Err(e),
            Ok(color) => match range_of(params) {
                Err(e) => Err(e),
                Ok(range) => match alpha_of(params) {
                    Err(e) => Err(e),
                    Ok(alpha) => if addressable(extent, layout.channel_count()) {
                        Ok(
                            ImageDescriptor {
                                extent,
                                layout,
                                scalar: ScalarType::F32,
                                color,
                                range,
                                alpha,
                                coordinates: CoordinateConvention::PixelCenterUpperLeft,
                                semantic: SemanticRole::Color,
                            },
                        )
                    } else {
                        Err(extent_overflow())
                    },
                },
            },
        },
    }
}

/// Whether a value is the given text.
fn is_text(value: &serde_json::Value, text: &str) -> (r: bool)
    ensures
        r == (json_of(*value).as_text() == Some(text@)),
{
    match json_text(value) {
        None => false,
        Some(token) => same_text(token, text),
    }
}

fn layout_param(params: &serde_json::Value) -> (r: Result<ChannelLayout, Error>)
    ensures
        r == layout_of(json_of(*params)),
{
    match json_get(params, "layout") {
        None => Ok(ChannelLayout::Rgba),
        Some(value) => if is_text(value, "gray") {
            Ok(ChannelLayout::Gray)
        } else if is_text(value, "gray-a") {
            Ok(ChannelLayout::GrayA)
        } else if is_text(value, "rgb") {
            Ok(ChannelLayout::Rgb)
        } else if is_text(value, "rgba") {
            Ok(ChannelLayout::Rgba)
        } else {
            Err(param_error(LAYOUT_UNKNOWN).about(Detail::Given))
        },
    }
}

fn encoding_param(params: &serde_json::Value) -> (r: Result<ColorEncoding, Error>)
    ensures
        r == encoding_of(json_of(*params)),
{
    match json_get(params, "color") {
        None => Ok(ColorEncoding::Srgb),
        Some(value) => if is_text(value, "srgb") {
            Ok(ColorEncoding::Srgb)
        } else if is_text(value, "linear-srgb") {
            Ok(ColorEncoding::LinearSrgb)
        } else if is_text(value, "raw-linear") {
            Ok(ColorEncoding::RawLinear)
        } else {
            Err(param_error(COLOR_UNKNOWN).about(Detail::Given))
        },
    }
}

fn range_param(params: &serde_json::Value) -> (r: Result<ColorRange, Error>)
    ensures
        r == range_of(json_of(*params)),
{
    match json_get(params, "range") {
        None => Ok(ColorRange::DisplayReferred),
        Some(value) => if is_text(value, "display-referred") {
            Ok(ColorRange::DisplayReferred)
        } else if is_text(value, "scene-referred") {
            Ok(ColorRange::SceneReferred)
        } else {
            Err(param_error(RANGE_UNKNOWN).about(Detail::Given))
        },
    }
}

fn alpha_param(params: &serde_json::Value) -> (r: Result<AlphaRepresentation, Error>)
    ensures
        r == alpha_of(json_of(*params)),
{
    match json_get(params, "alpha") {
        None => Ok(AlphaRepresentation::Straight),
        Some(value) => if is_text(value, "premultiplied") {
            Ok(AlphaRepresentation::Premultiplied)
        } else if is_text(value, "straight") {
            Ok(AlphaRepresentation::Straight)
        } else {
            Err(param_error(ALPHA_UNKNOWN).about(Detail::Given))
        },
    }
}

/// Read the image that the parameters describe at a size.
pub fn output_descriptor(params: &serde_json::Value, extent: Extent) -> (r: Result<
    ImageDescriptor,
    Error,
>)
    ensures
        r == descriptor_of(json_of(*params), extent),
{
    let layout: ChannelLayout = match layout_param(params) {
        Err(e) => {
            return Err(e);
        },
        Ok(layout) => layout,
    };
    let color: ColorEncoding = match encoding_param(params) {
        Err(e) => {
            return Err(e);
        },
        Ok(color) => color,
    };
    let range: ColorRange = match range_param(params) {
        Err(e) => {
            return Err(e);
        },
        Ok(range) => range,
    };
    let alpha: AlphaRepresentation = match alpha_param(params) {
        Err(e) => {
            return Err(e);
        },
        Ok(alpha) => alpha,
    };
    match extent.byte_count(layout.channel_count()) {
        Err(e) => Err(e),
        Ok(_) => Ok(
            ImageDescriptor {
                extent,
                layout,
                scalar: ScalarType::F32,
                color,
                range,
                alpha,
                coordinates: CoordinateConvention::PixelCenterUpperLeft,
                semantic: SemanticRole::Color,
            },
        ),
    }
}

/// Where a gradient runs, its numbers by their binary64 patterns.
#[derive(Debug, Clone, Copy, PartialEq, Eq, Structural)]
pub enum Geometry {
    /// From `(ax, ay)` along `(dx, dy)`, whose squared length is `len_sq`.
    Linear { ax: u64, ay: u64, dx: u64, dy: u64, len_sq: u64 },
    /// Outward from `(cx, cy)` to `radius`.
    Radial { cx: u64, cy: u64, radius: u64 },
}

impl Geometry {
    /// The parameter at a point, before it is kept within `[0, 1]`: along a line the projection on
    /// the axis over the axis's squared length, about a centre the distance over the radius.
    pub open spec fn parameter_of<A: Arithmetic>(self, x: u64, y: u64) -> u64 {
        match self {
            Geometry::Linear { ax, ay, dx, dy, len_sq } => over_of::<A>(
                fused_of::<A>(
                    minus_of::<A>(x, ax),
                    dx,
                    times_of::<A>(minus_of::<A>(y, ay), dy),
                ),
                len_sq,
            ),
            Geometry::Radial { cx, cy, radius } => over_of::<A>(
                hypotenuse_of::<A>(minus_of::<A>(x, cx), minus_of::<A>(y, cy)),
                radius,
            ),
        }
    }

    /// The parameter at a point.
    pub fn parameter<A: Arithmetic>(&self, x: u64, y: u64) -> (t: u64)
        requires
            lawful::<A>(),
        ensures
            t == self.parameter_of::<A>(x, y),
    {
        match *self {
            Geometry::Linear { ax, ay, dx, dy, len_sq } => {
                let px: u64 = minus::<A>(x, ax);
                let py: u64 = minus::<A>(y, ay);
                over::<A>(fused::<A>(px, dx, times::<A>(py, dy)), len_sq)
            },
            Geometry::Radial { cx, cy, radius } => {
                over::<A>(hypotenuse::<A>(minus::<A>(x, cx), minus::<A>(y, cy)), radius)
            },
        }
    }
}

/// The line that the parameters give; refused where its ends coincide.
pub open spec fn linear_of<A: Arithmetic>(params: Json) -> Result<Geometry, Error> {
    match pair_in(params, "start_px"@, start_errors()) {
        Err(e) => Err(e),
        Ok((ax, ay)) => match pair_in(params, "end_px"@, end_errors()) {
            Err(e) => Err(e),
            Ok((bx, by)) => {
                let dx = minus_of::<A>(bx, ax);
                let dy = minus_of::<A>(by, ay);
                let len_sq = fused_of::<A>(dx, dx, times_of::<A>(dy, dy));
                if finite(len_sq) && less(ZERO, len_sq) {
                    Ok(Geometry::Linear { ax, ay, dx, dy, len_sq })
                } else {
                    Err(param_error(AXIS_DEGENERATE).about(Detail::Points { ax, ay, bx, by }))
                }
            },
        },
    }
}

/// The centre and radius that the parameters give; refused where the radius is not positive.
pub open spec fn radial_of(params: Json) -> Result<Geometry, Error> {
    match pair_in(params, "center_px"@, center_errors()) {
        Err(e) => Err(e),
        Ok((cx, cy)) => match params.get("radius_px"@) {
            None => Err(param_error(RADIUS_MISSING)),
            Some(v) => match number_in(v, radius_errors()) {
                Err(e) => Err(e),
                Ok(radius) => if at_most(radius, ZERO) {
                    Err(param_error(RADIUS_DEGENERATE).about(Detail::Number { value: radius }))
                } else {
                    Ok(Geometry::Radial { cx, cy, radius })
                },
            },
        },
    }
}

/// Read the line of a linear gradient.
pub fn resolve_linear<A: Arithmetic>(params: &serde_json::Value) -> (r: Result<Geometry, Error>)
    requires
        lawful::<A>(),
    ensures
        r == linear_of::<A>(json_of(*params)),
{
    let (ax, ay): (u64, u64) = match read_pair(params, "start_px", start_errors()) {
        Err(e) => {
            return Err(e);
        },
        Ok(p) => p,
    };
    let (bx, by): (u64, u64) = match read_pair(params, "end_px", end_errors()) {
        Err(e) => {
            return Err(e);
        },
        Ok(p) => p,
    };
    let dx: u64 = minus::<A>(bx, ax);
    let dy: u64 = minus::<A>(by, ay);
    let len_sq: u64 = fused::<A>(dx, dx, times::<A>(dy, dy));
    if is_finite(len_sq) && is_less(ZERO, len_sq) {
        Ok(Geometry::Linear { ax, ay, dx, dy, len_sq })
    } else {
        Err(param_error(AXIS_DEGENERATE).about(Detail::Points { ax, ay, bx, by }))
    }
}

/// Read the centre and radius of a radial gradient.
pub fn resolve_radial(params: &serde_json::Value) -> (r: Result<Geometry, Error>)
    ensures
        r == radial_of(json_of(*params)),
{
    let (cx, cy): (u64, u64) = match read_pair(params, "center_px", center_errors()) {
        Err(e) => {
            return Err(e);
        },
        Ok(p) => p,
    };
    let value: &serde_json::Value = match json_get(params, "radius_px") {
        None => {
            return Err(param_error(RADIUS_MISSING));
        },
        Some(value) => value,
    };
    match read_number(value, radius_errors()) {
        Err(e) => Err(e),
        Ok(radius) => if is_at_most(radius, ZERO) {
            Err(param_error(RADIUS_DEGENERATE).about(Detail::Number { value: radius }))
        } else {
            Ok(Geometry::Radial { cx, cy, radius })
        },
    }
}

/// The centre of pixel `i` along an axis.
pub open spec fn center_of<A: Arithmetic>(i: int) -> u64 {
    plus_of::<A>(whole_of::<A>(i as i64), HALF)
}

/// The parameter of pixel `(x, y)`, kept within `[0, 1]` and rounded to a sample.
pub open spec fn pixel_parameter<A: Arithmetic>(geometry: Geometry, x: int, y: int) -> u32 {
    narrow_of::<A>(
        clamped_unit(geometry.parameter_of::<A>(center_of::<A>(x), center_of::<A>(y))),
    )
}

/// The gradient's samples: at every pixel the colour of its parameter.
pub open spec fn rasterized<A: Arithmetic>(
    extent: Extent,
    channels: int,
    stops: Seq<StopView>,
    geometry: Geometry,
) -> Seq<u32> {
    raster(
        extent.width as int,
        extent.height as int,
        channels,
        |x: int, y: int, ch: int| color_of::<A>(stops, pixel_parameter::<A>(geometry, x, y))[ch],
    )
}

/// Draw a gradient.
pub fn rasterize<A: Arithmetic>(extent: Extent, channels: u32, stops: &Stops, geometry: Geometry) -> (out: Vec<
    u32,
>)
    requires
        lawful::<A>(),
        stops_ok(stops@, channels as int),
        channels >= 1,
        addressable(extent, channels),
    ensures
        out@ == rasterized::<A>(extent, channels as int, stops@, geometry),
{
    let w: usize = extent.width as usize;
    let h: usize = extent.height as usize;
    let stride: usize = channels as usize;
    let ghost all = rasterized::<A>(extent, channels as int, stops@, geometry);
    let mut out: Vec<u32> = Vec::new();
    proof {
        assert(w * h * stride >= 0) by (nonlinear_arith)
            requires
                w >= 0,
                h >= 0,
                stride >= 0,
        ;
        assert(0 <= w * h <= w * h * stride) by (nonlinear_arith)
            requires
                w >= 0,
                h >= 0,
                stride >= 1,
        ;
    }
    let pixels: usize = w * h;
    let mut p: usize = 0;
    assert(0 * stride == 0);
    while p < pixels
        invariant
            lawful::<A>(),
            stops_ok(stops@, channels as int),
            stride == channels,
            w == extent.width,
            h == extent.height,
            pixels == w * h,
            all == rasterized::<A>(extent, channels as int, stops@, geometry),
            all.len() == pixels * stride,
            p <= pixels,
            out@.len() == p * stride,
            forall|i: int| 0 <= i < p * stride ==> #[trigger] out@[i] == all[i],
        decreases pixels - p,
    {
        proof {
            lemma_at_of(p as int, w as int, h as int);
        }
        let x: u64 = plus::<A>(whole::<A>((p % w) as i64), HALF);
        let y: u64 = plus::<A>(whole::<A>((p / w) as i64), HALF);
        let t: u32 = narrow::<A>(clamp_unit(geometry.parameter::<A>(x, y)));
        let color: Vec<u32> = stops.color_at::<A>(t, stride);
        let mut c: usize = 0;
        while c < stride
            invariant
                stride == channels,
                w == extent.width,
                h == extent.height,
                pixels == w * h,
                p < pixels,
                0 <= p % w < w,
                all == rasterized::<A>(extent, channels as int, stops@, geometry),
                all.len() == pixels * stride,
                c <= stride,
                color@.len() == stride,
                color@ == color_of::<A>(
                    stops@,
                    pixel_parameter::<A>(geometry, p as int % w as int, p as int / w as int),
                ),
                out@.len() == p * stride + c,
                forall|i: int| 0 <= i < p * stride + c ==> #[trigger] out@[i] == all[i],
            decreases stride - c,
        {
            proof {
                lemma_at_bounds(c as int, p as int, stride as int, pixels as int);
                lemma_at_inverse(c as int, p as int, stride as int);
                assert(stride * pixels == pixels * stride) by (nonlinear_arith);
            }
            out.push(color[c]);
            c = c + 1;
        }
        proof {
            assert((p + 1) * stride == p * stride + stride) by (nonlinear_arith);
        }
        p = p + 1;
    }
    assert(out@ =~= all);
    out
}

/// Which gradient an operation draws.
#[derive(Debug, Clone, Copy, PartialEq, Eq, Structural)]
pub enum Shape {
    Linear,
    Radial,
}

/// The geometry that the parameters give for a shape.
pub open spec fn geometry_of<A: Arithmetic>(shape: Shape, params: Json) -> Result<Geometry, Error> {
    match shape {
        Shape::Linear => linear_of::<A>(params),
        Shape::Radial => radial_of(params),
    }
}

/// Read the geometry of a shape.
fn resolve_geometry<A: Arithmetic>(shape: Shape, params: &serde_json::Value) -> (r: Result<
    Geometry,
    Error,
>)
    requires
        lawful::<A>(),
    ensures
        r == geometry_of::<A>(shape, json_of(*params)),
{
    match shape {
        Shape::Linear => resolve_linear::<A>(params),
        Shape::Radial => resolve_radial(params),
    }
}

/// The error of an absent input value.
#[verifier::allow_in_spec]
pub fn value_missing(shape: Shape) -> Error
    returns
        (Error::new(
            ErrorClass::Reference,
            E_GRADIENT_INPUT,
            match shape {
                Shape::Linear => LINEAR_VALUE_REQUIRED,
                Shape::Radial => RADIAL_VALUE_REQUIRED,
            },
        )),
{
    Error::new(
        ErrorClass::Reference,
        E_GRADIENT_INPUT,
        match shape {
            Shape::Linear => LINEAR_VALUE_REQUIRED,
            Shape::Radial => RADIAL_VALUE_REQUIRED,
        },
    )
}

/// The size of the input that gives it.
pub open spec fn extent_of(inputs: Map<Seq<char>, ResourceDescriptor>) -> Result<Extent, Error> {
    match port(inputs, "extent_from"@) {
        None => Err(Error::new(ErrorClass::Reference, E_GRADIENT_INPUT, INPUT_REQUIRED)),
        Some(d) => Ok(d.extent()),
    }
}

/// The image that a gradient produces at a size, with its geometry and stops.
pub open spec fn plan_of<A: Arithmetic>(shape: Shape, params: Json, extent: Extent) -> Result<
    (ImageDescriptor, Geometry, Seq<StopView>),
    Error,
> {
    match descriptor_of(params, extent) {
        Err(e) => Err(e),
        Ok(d) => match geometry_of::<A>(shape, params) {
            Err(e) => Err(e),
            Ok(geometry) => match stops_of::<A>(params, d) {
                Err(e) => Err(e),
                Ok(stops) => Ok((d, geometry, stops)),
            },
        },
    }
}

/// What a gradient operation produces.
pub open spec fn inferred<A: Arithmetic>(
    shape: Shape,
    inputs: Map<Seq<char>, ResourceDescriptor>,
    params: Json,
) -> Result<ResourceDescriptor, Error> {
    match extent_of(inputs) {
        Err(e) => Err(e),
        Ok(extent) => match plan_of::<A>(shape, params, extent) {
            Err(e) => Err(e),
            Ok((d, _, _)) => Ok(ResourceDescriptor::Image(d)),
        },
    }
}

/// What a gradient operation makes.
pub open spec fn drawn<A: Arithmetic>(
    shape: Shape,
    inputs: Map<Seq<char>, ResourceValue>,
    params: Json,
) -> Result<ValueView, Error> {
    match port_view(inputs, "extent_from"@) {
        None => Err(value_missing(shape)),
        Some(source) => match plan_of::<A>(shape, params, source.descriptor.extent()) {
            Err(e) => Err(e),
            Ok((d, geometry, stops)) => Ok(
                ValueView {
                    descriptor: ResourceDescriptor::Image(d),
                    channels: d.layout.channel_count(),
                    samples: rasterized::<A>(
                        d.extent,
                        d.layout.channel_count() as int,
                        stops,
                        geometry,
                    ),
                },
            ),
        },
    }
}

/// A plan with its stops taken by their view.
pub open spec fn plan_result(r: Result<(ImageDescriptor, Geometry, Stops), Error>) -> Result<
    (ImageDescriptor, Geometry, Seq<StopView>),
    Error,
> {
    match r {
        Ok((d, geometry, stops)) => Ok((d, geometry, stops@)),
        Err(e) => Err(e),
    }
}

/// Read everything that a gradient needs.
fn resolve_plan<A: Arithmetic>(shape: Shape, params: &serde_json::Value, extent: Extent) -> (r: Result<
    (ImageDescriptor, Geometry, Stops),
    Error,
>)
    requires
        lawful::<A>(),
    ensures
        plan_result(r) == plan_of::<A>(shape, json_of(*params), extent),
        r matches Ok((d, _, stops)) ==> {
            &&& stops_ok(stops@, d.layout.channel_count() as int)
            &&& d.extent == extent
            &&& addressable(extent, d.layout.channel_count())
        },
{
    let d: ImageDescriptor = match output_descriptor(params, extent) {
        Err(e) => {
            return Err(e);
        },
        Ok(d) => d,
    };
    let geometry: Geometry = match resolve_geometry::<A>(shape, params) {
        Err(e) => {
            return Err(e);
        },
        Ok(geometry) => geometry,
    };
    match Stops::resolve::<A>(params, d) {
        Err(e) => Err(e),
        Ok(stops) => Ok((d, geometry, stops)),
    }
}

/// Infer the output of a gradient.
fn infer_gradient<A: Arithmetic>(
    shape: Shape,
    inputs: &Ports<ResourceDescriptor>,
    params: &serde_json::Value,
) -> (r: Result<Ports<ResourceDescriptor>, Error>)
    requires
        lawful::<A>(),
    ensures
        gives_port(r, "image"@, inferred::<A>(shape, inputs@, json_of(*params))),
{
    let extent: Extent = match inputs.get("extent_from") {
        None => {
            return Err(Error::new(ErrorClass::Reference, E_GRADIENT_INPUT, INPUT_REQUIRED));
        },
        Some(d) => d.extent(),
    };
    match resolve_plan::<A>(shape, params, extent) {
        Err(e) => Err(e),
        Ok((d, _, _)) => Ok(one_port("image", ResourceDescriptor::Image(d))),
    }
}

/// Make the output of a gradient.
fn draw_gradient<A: Arithmetic>(
    shape: Shape,
    inputs: &Ports<ResourceValue>,
    params: &serde_json::Value,
) -> (r: Result<Ports<ResourceValue>, Error>)
    requires
        lawful::<A>(),
    ensures
        gives_value(r, "image"@, drawn::<A>(shape, inputs@, json_of(*params))),
{
    let extent: Extent = match inputs.get("extent_from") {
        None => {
            return Err(value_missing(shape));
        },
        Some(source) => source.extent(),
    };
    match resolve_plan::<A>(shape, params, extent) {
        Err(e) => Err(e),
        Ok((d, geometry, stops)) => {
            let channels: u32 = d.layout.channel_count();
            let samples: Vec<u32> = rasterize::<A>(extent, channels, &stops, geometry);
            proof {
                let n = extent.width * extent.height * channels;
                assert(n >= 0) by (nonlinear_arith)
                    requires
                        n == extent.width * extent.height * channels,
                        extent.width >= 0,
                        extent.height >= 0,
                        channels >= 0,
                ;
            }
            let value: Result<ResourceValue, usize> = ResourceValue::new(
                ResourceDescriptor::Image(d),
                channels,
                samples,
            );
            Ok(one_port("image", value.unwrap()))
        },
    }
}

/// The regions that a gradient needs: none of the pixels of the input that gives the size.
pub open spec fn size_only(inputs: Map<Seq<char>, ResourceDescriptor>) -> Map<Seq<char>, Rect> {
    if inputs.dom().contains("extent_from"@) {
        Map::empty().insert("extent_from"@, Rect { x0: 0, y0: 0, x1: 0, y1: 0 })
    } else {
        Map::empty()
    }
}

/// The empty region of the input that gives the size.
pub fn extent_only_regions(inputs: &Ports<ResourceDescriptor>) -> (r: Ports<Rect>)
    ensures
        r@ == size_only(inputs@),
{
    match inputs.get("extent_from") {
        None => Ports::new(),
        Some(_) => one_port("extent_from", Rect { x0: 0, y0: 0, x1: 0, y1: 0 }),
    }
}

/// The linear gradient.
#[derive(Debug, Clone, Copy)]
pub struct LinearGradient;

/// The radial gradient.
#[derive(Debug, Clone, Copy)]
pub struct RadialGradient;

impl Default for LinearGradient {
    /// The operation.
    fn default() -> (r: Self)
        ensures
            r == LinearGradient,
    {
        LinearGradient
    }
}

impl LinearGradient {
    /// The operation.
    pub fn new() -> (r: Self)
        ensures
            r == LinearGradient,
    {
        LinearGradient
    }

    /// The input ports and their kinds.
    pub fn declared_inputs(&self) -> (r: Vec<(&'static str, ResourceKind)>)
        ensures
            r@ == seq![("extent_from", ResourceKind::Image)],
    {
        vec![("extent_from", ResourceKind::Image)]
    }

    /// The output ports and their kinds.
    pub fn declared_outputs(&self) -> (r: Vec<(&'static str, ResourceKind)>)
        ensures
            r@ == seq![("image", ResourceKind::Image)],
    {
        vec![("image", ResourceKind::Image)]
    }

    /// What the operation produces of inputs like these.
    pub fn infer_outputs<A: Arithmetic>(
        &self,
        inputs: &Ports<ResourceDescriptor>,
        params: &serde_json::Value,
    ) -> (r: Result<Ports<ResourceDescriptor>, Error>)
        requires
            lawful::<A>(),
        ensures
            gives_port(r, "image"@, inferred::<A>(Shape::Linear, inputs@, json_of(*params))),
    {
        infer_gradient::<A>(Shape::Linear, inputs, params)
    }

    /// Which regions of the inputs the output needs.
    pub fn required_inputs(
        &self,
        _requested_outputs: &Ports<Rect>,
        inputs: &Ports<ResourceDescriptor>,
        _params: &serde_json::Value,
    ) -> (r: Result<Ports<Rect>, Error>)
        ensures
            r matches Ok(regions) && regions@ == size_only(inputs@),
    {
        Ok(extent_only_regions(inputs))
    }

    /// Whether the produced resource is an image.
    pub fn validate_postconditions(
        &self,
        outputs: &Ports<ResourceDescriptor>,
        _params: &serde_json::Value,
    ) -> (r: Result<Vec<AssertionResult>, Error>)
        ensures
            r matches Ok(v) && v@ == seq![image_outcome(outputs@)],
    {
        Ok(vec![check_image_output(outputs)])
    }

    /// Draw the gradient.
    pub fn compute<A: Arithmetic>(
        &self,
        inputs: &Ports<ResourceValue>,
        params: &serde_json::Value,
    ) -> (r: Result<Ports<ResourceValue>, Error>)
        requires
            lawful::<A>(),
        ensures
            gives_value(r, "image"@, drawn::<A>(Shape::Linear, inputs@, json_of(*params))),
    {
        draw_gradient::<A>(Shape::Linear, inputs, params)
    }
}

impl Default for RadialGradient {
    /// The operation.
    fn default() -> (r: Self)
        ensures
            r == RadialGradient,
    {
        RadialGradient
    }
}

impl RadialGradient {
    /// The operation.
    pub fn new() -> (r: Self)
        ensures
            r == RadialGradient,
    {
        RadialGradient
    }

    /// The input ports and their kinds.
    pub fn declared_inputs(&self) -> (r: Vec<(&'static str, ResourceKind)>)
        ensures
            r@ == seq![("extent_from", ResourceKind::Image)],
    {
        vec![("extent_from", ResourceKind::Image)]
    }

    /// The output ports and their kinds.
    pub fn declared_outputs(&self) -> (r: Vec<(&'static str, ResourceKind)>)
        ensures
            r@ == seq![("image", ResourceKind::Image)],
    {
        vec![("image", ResourceKind::Image)]
    }

    /// What the operation produces of inputs like these.
    pub fn infer_outputs<A: Arithmetic>(
        &self,
        inputs: &Ports<ResourceDescriptor>,
        params: &serde_json::Value,
    ) -> (r: Result<Ports<ResourceDescriptor>, Error>)
        requires
            lawful::<A>(),
        ensures
            gives_port(r, "image"@, inferred::<A>(Shape::Radial, inputs@, json_of(*params))),
    {
        infer_gradient::<A>(Shape::Radial, inputs, params)
    }

    /// Which regions of the inputs the output needs.
    pub fn required_inputs(
        &self,
        _requested_outputs: &Ports<Rect>,
        inputs: &Ports<ResourceDescriptor>,
        _params: &serde_json::Value,
    ) -> (r: Result<Ports<Rect>, Error>)
        ensures
            r matches Ok(regions) && regions@ == size_only(inputs@),
    {
        Ok(extent_only_regions(inputs))
    }

    /// Whether the produced resource is an image.
    pub fn validate_postconditions(
        &self,
        outputs: &Ports<ResourceDescriptor>,
        _params: &serde_json::Value,
    ) -> (r: Result<Vec<AssertionResult>, Error>)
        ensures
            r matches Ok(v) && v@ == seq![image_outcome(outputs@)],
    {
        Ok(vec![check_image_output(outputs)])
    }

    /// Draw the gradient.
    pub fn compute<A: Arithmetic>(
        &self,
        inputs: &Ports<ResourceValue>,
        params: &serde_json::Value,
    ) -> (r: Result<Ports<ResourceValue>, Error>)
        requires
            lawful::<A>(),
        ensures
            gives_value(r, "image"@, drawn::<A>(Shape::Radial, inputs@, json_of(*params))),
    {
        draw_gradient::<A>(Shape::Radial, inputs, params)
    }
}

/// At a stop's own position, where every earlier stop lies before it, the colour is the stop's, bit
/// for bit.
pub proof fn law_stop_exactness<A: Arithmetic>(stops: Seq<StopView>, k: int)
    requires
        0 <= k < stops.len(),
        !sample_nan(stops[k].position),
        forall|j: int| 0 <= j < k ==> sample_less((#[trigger] stops[j]).position, stops[k].position),
    ensures
        color_of::<A>(stops, stops[k].position) == stops[k].color,
{
    lemma_upper_is(stops, stops[k].position, 0, k);
}

proof fn lemma_upper_is(stops: Seq<StopView>, t: u32, i: int, k: int)
    requires
        0 <= i <= k < stops.len(),
        sample_at_most(t, stops[k].position),
        forall|j: int| i <= j < k ==> !sample_at_most(t, (#[trigger] stops[j]).position),
    ensures
        upper_of(stops, t, i) == k,
    decreases k - i,
{
    if i < k {
        lemma_upper_is(stops, t, i + 1, k);
    }
}

/// At and before the first stop's position the colour is the first stop's.
pub proof fn law_first_stop_rules_below<A: Arithmetic>(stops: Seq<StopView>, t: u32)
    requires
        stops.len() >= 1,
        sample_at_most(t, stops[0].position),
    ensures
        color_of::<A>(stops, t) == stops[0].color,
{
}

/// Moving the line and the point together, so that the arithmetic gives the same offset between
/// them, leaves the parameter as it is.
pub proof fn law_linear_translation<A: Arithmetic>(
    ax: u64,
    ay: u64,
    bx: u64,
    by: u64,
    dx: u64,
    dy: u64,
    len_sq: u64,
    x: u64,
    y: u64,
    moved_x: u64,
    moved_y: u64,
)
    requires
        minus_of::<A>(moved_x, bx) == minus_of::<A>(x, ax),
        minus_of::<A>(moved_y, by) == minus_of::<A>(y, ay),
    ensures
        (Geometry::Linear { ax: bx, ay: by, dx, dy, len_sq }).parameter_of::<A>(moved_x, moved_y) == (
        Geometry::Linear { ax, ay, dx, dy, len_sq }).parameter_of::<A>(x, y),
{
}

} // verus!
