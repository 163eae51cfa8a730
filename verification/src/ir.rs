//! The shared vocabulary of the operations: sizes, regions, descriptors and errors.
use vstd::prelude::*;

verus! {

/// A two-dimensional size in pixels.
#[derive(Clone, Copy, Debug, PartialEq, Eq, Structural)]
pub struct Extent {
    pub width: u32,
    pub height: u32,
}

impl Extent {
    /// The extent `width` by `height`.
    #[verifier::allow_in_spec]
    pub fn new(width: u32, height: u32) -> Self
        returns
            (Extent { width, height }),
    {
        Extent { width, height }
    }

    /// The number of pixels.
    pub open spec fn area(self) -> int {
        self.width * self.height
    }

    /// The region of all pixels.
    pub open spec fn region(self) -> Rect {
        Rect { x0: 0, y0: 0, x1: self.width as i64, y1: self.height as i64 }
    }

    /// The region of all pixels.
    pub fn full_rect(self) -> (r: Rect)
        ensures
            r == self.region(),
    {
        Rect { x0: 0, y0: 0, x1: self.width as i64, y1: self.height as i64 }
    }

    /// The pixels of `[x0, x1) x [y0, y1)` that lie inside; empty where none do.
    pub open spec fn clip(self, x0: int, y0: int, x1: int, y1: int) -> Rect {
        let left = larger(x0, 0);
        let top = larger(y0, 0);
        Rect {
            x0: left as i64,
            y0: top as i64,
            x1: larger(left, smaller(x1, self.width as int)) as i64,
            y1: larger(top, smaller(y1, self.height as int)) as i64,
        }
    }

    /// The pixels of a rectangle with edges of any size that lie inside.
    pub fn clipped(self, x0: i128, y0: i128, x1: i128, y1: i128) -> (r: Rect)
        requires
            x0 <= i64::MAX,
            y0 <= i64::MAX,
        ensures
            r == self.clip(x0 as int, y0 as int, x1 as int, y1 as int),
            r.is_valid(),
            forall|x: int, y: int|
                r.covers(x, y) <==> x0 <= x < x1 && y0 <= y < y1 && 0 <= x < self.width && 0 <= y
                    < self.height,
    {
        let left: i64 = if x0 < 0 {
            0
        } else {
            x0 as i64
        };
        let top: i64 = if y0 < 0 {
            0
        } else {
            y0 as i64
        };
        let right: i128 = if x1 < self.width as i128 {
            x1
        } else {
            self.width as i128
        };
        let bottom: i128 = if y1 < self.height as i128 {
            y1
        } else {
            self.height as i128
        };
        Rect {
            x0: left,
            y0: top,
            x1: if right < left as i128 {
                left
            } else {
                right as i64
            },
            y1: if bottom < top as i128 {
                top
            } else {
                bottom as i64
            },
        }
    }
}

/// A half-open rectangle `[x0, x1) x [y0, y1)` in pixel space.
#[derive(Clone, Copy, Debug, PartialEq, Eq, Structural)]
pub struct Rect {
    pub x0: i64,
    pub y0: i64,
    pub x1: i64,
    pub y1: i64,
}

/// The greater of two integers.
pub open spec fn larger(a: int, b: int) -> int {
    if a >= b {
        a
    } else {
        b
    }
}

/// The lesser of two integers.
pub open spec fn smaller(a: int, b: int) -> int {
    if a <= b {
        a
    } else {
        b
    }
}

impl Rect {
    /// The rectangle `[x0, x1) x [y0, y1)`.
    #[verifier::allow_in_spec]
    pub fn new(x0: i64, y0: i64, x1: i64, y1: i64) -> Self
        returns
            (Rect { x0, y0, x1, y1 }),
    {
        Rect { x0, y0, x1, y1 }
    }

    /// No upper edge is before its lower edge.
    #[verifier::allow_in_spec]
    pub fn is_valid(self) -> bool
        returns
            self.x1 >= self.x0 && self.y1 >= self.y0,
    {
        self.x1 >= self.x0 && self.y1 >= self.y0
    }

    /// The pixel `(x, y)` lies in the rectangle.
    pub open spec fn covers(self, x: int, y: int) -> bool {
        self.x0 <= x < self.x1 && self.y0 <= y < self.y1
    }

    /// The rectangle of the pixels in both; empty where they share none.
    pub open spec fn meet(self, other: Rect) -> Rect {
        let x0 = larger(self.x0 as int, other.x0 as int);
        let y0 = larger(self.y0 as int, other.y0 as int);
        Rect {
            x0: x0 as i64,
            y0: y0 as i64,
            x1: larger(x0, smaller(self.x1 as int, other.x1 as int)) as i64,
            y1: larger(y0, smaller(self.y1 as int, other.y1 as int)) as i64,
        }
    }

    /// The rectangle of the pixels in both; empty where they share none.
    pub fn intersect(self, other: Rect) -> (r: Rect)
        ensures
            r == self.meet(other),
            r.is_valid(),
            forall|x: int, y: int| r.covers(x, y) <==> self.covers(x, y) && other.covers(x, y),
    {
        let x0: i64 = if self.x0 >= other.x0 {
            self.x0
        } else {
            other.x0
        };
        let y0: i64 = if self.y0 >= other.y0 {
            self.y0
        } else {
            other.y0
        };
        let x1: i64 = if self.x1 <= other.x1 {
            self.x1
        } else {
            other.x1
        };
        let y1: i64 = if self.y1 <= other.y1 {
            self.y1
        } else {
            other.y1
        };
        Rect {
            x0,
            y0,
            x1: if x1 >= x0 {
                x1
            } else {
                x0
            },
            y1: if y1 >= y0 {
                y1
            } else {
                y0
            },
        }
    }

    /// The least rectangle that holds both.
    pub open spec fn join(self, other: Rect) -> Rect {
        Rect {
            x0: smaller(self.x0 as int, other.x0 as int) as i64,
            y0: smaller(self.y0 as int, other.y0 as int) as i64,
            x1: larger(self.x1 as int, other.x1 as int) as i64,
            y1: larger(self.y1 as int, other.y1 as int) as i64,
        }
    }

    /// The least rectangle that holds both.
    pub fn union(self, other: Rect) -> (r: Rect)
        ensures
            r == self.join(other),
    {
        Rect {
            x0: if self.x0 <= other.x0 {
                self.x0
            } else {
                other.x0
            },
            y0: if self.y0 <= other.y0 {
                self.y0
            } else {
                other.y0
            },
            x1: if self.x1 >= other.x1 {
                self.x1
            } else {
                other.x1
            },
            y1: if self.y1 >= other.y1 {
                self.y1
            } else {
                other.y1
            },
        }
    }
}

/// What kind of request an error refuses.
#[derive(Clone, Copy, Debug, PartialEq, Eq, Structural)]
pub enum ErrorClass {
    Schema,
    Reference,
    Type,
    Semantic,
    Policy,
    Execution,
}

/// What a refusal is about, besides what its sentence says: the offending values, and what was expected.
#[derive(Clone, Copy, Debug, PartialEq, Eq, Structural)]
pub enum Detail {
    /// Nothing more.
    Nothing,
    /// The parameter that the sentence names, as it was given.
    Given,
    /// An item of the list that the sentence names, as it was given.
    Item { index: usize },
    /// A number, by its binary64 pattern.
    Number { value: u64 },
    /// A number of a list, by its binary64 pattern.
    NumberAt { index: usize, value: u64 },
    /// A number, and the greatest that is taken, by their binary64 patterns.
    NumberBeyond { value: u64, greatest: u64 },
    /// A whole number.
    Whole { value: u64 },
    /// A whole number, and the greatest that is taken.
    WholeBeyond { value: u64, greatest: u64 },
    /// How many were found, and how many are expected.
    Count { found: usize, expected: u64 },
    /// How many components were found, and the channels that they are for.
    Components { found: usize, layout: ChannelLayout },
    /// An item of a list in a list, as it was given.
    ItemIn { list: usize, index: usize },
    /// A number of a list in a list, by its binary64 pattern.
    NumberIn { list: usize, index: usize, value: u64 },
    /// How many components a list in a list has, and the channels that they are for.
    ComponentsIn { list: usize, found: usize, layout: ChannelLayout },
    /// A size.
    Size { width: u32, height: u32 },
    /// A place, and the size that it is to lie in.
    Origin { x: u32, y: u32, width: u32, height: u32 },
    /// A rectangle.
    Edges { rect: Rect },
    /// A rectangle, and the size that it is to lie in.
    Outside { rect: Rect, extent: Extent },
    /// Two sizes that are to be the same.
    Extents { first: Extent, second: Extent },
    /// Two layouts that are to be the same.
    Layouts { one: ChannelLayout, other: ChannelLayout },
    /// Two planes that are to have the same size and channels.
    Planes { first: Extent, first_channels: u32, second: Extent, second_channels: u32 },
    /// The kind of a resource.
    Kind { kind: ResourceKind },
    /// Two points, by the binary64 patterns of their coordinates.
    Points { ax: u64, ay: u64, bx: u64, by: u64 },
    /// A range of samples.
    Range { range: ValidRange },
}

impl Detail {
    /// The same of something in item `list` of a list.
    #[verifier::allow_in_spec]
    pub fn within(self, list: usize) -> Self
        returns
            (match self {
                Detail::Item { index } => Detail::ItemIn { list, index },
                Detail::Number { value } => Detail::NumberAt { index: list, value },
                Detail::NumberAt { index, value } => Detail::NumberIn { list, index, value },
                Detail::Components { found, layout } => Detail::ComponentsIn { list, found, layout },
                _ => Detail::Item { index: list },
            }),
    {
        match self {
            Detail::Item { index } => Detail::ItemIn { list, index },
            Detail::Number { value } => Detail::NumberAt { index: list, value },
            Detail::NumberAt { index, value } => Detail::NumberIn { list, index, value },
            Detail::Components { found, layout } => Detail::ComponentsIn { list, found, layout },
            _ => Detail::Item { index: list },
        }
    }
}

/// A refusal: its class, its stable code, a sentence for people, and what it is about.
#[derive(Clone, Copy, Debug)]
pub struct Error {
    pub class: ErrorClass,
    pub code: &'static str,
    pub message: &'static str,
    pub detail: Detail,
}

impl Error {
    /// An error of `class` with `code`.
    #[verifier::allow_in_spec]
    pub fn new(class: ErrorClass, code: &'static str, message: &'static str) -> Self
        returns
            (Error { class, code, message, detail: Detail::Nothing }),
    {
        Error { class, code, message, detail: Detail::Nothing }
    }

    /// The same error about something.
    #[verifier::allow_in_spec]
    pub fn about(self, detail: Detail) -> Self
        returns
            (Error { detail, ..self }),
    {
        Error { detail, ..self }
    }
}

/// The samples of a plane are more than can be addressed.
pub const E_EXTENT_OVERFLOW: &'static str = "E_EXTENT_OVERFLOW";

/// The error of a plane too large to address.
#[verifier::allow_in_spec]
pub fn extent_overflow() -> Error
    returns
        (Error::new(ErrorClass::Semantic, E_EXTENT_OVERFLOW, "the extent's samples are more bytes than can be addressed")),
{
    Error::new(ErrorClass::Semantic, E_EXTENT_OVERFLOW, "the extent's samples are more bytes than can be addressed")
}

/// The bytes of a plane can be addressed.
pub open spec fn addressable(extent: Extent, channels: u32) -> bool {
    extent.area() * channels * 4 <= usize::MAX
}

impl Extent {
    /// The bytes of a plane of four-byte samples, if they can be addressed.
    pub fn byte_count(self, channels: u32) -> (r: Result<usize, Error>)
        ensures
            match r {
                Ok(n) => addressable(self, channels) && n == self.area() * channels * 4,
                Err(e) => !addressable(self, channels) && e == extent_overflow(),
            },
    {
        let w: u128 = self.width as u128;
        let h: u128 = self.height as u128;
        let c: u128 = channels as u128;
        assert(0 <= w * h <= 0xffff_ffff_ffff_ffff) by (nonlinear_arith)
            requires
                0 <= w <= 0xffff_ffff,
                0 <= h <= 0xffff_ffff,
        ;
        let area: u128 = w * h;
        assert(0 <= area * c <= 0xffff_ffff_ffff_ffff_ffff_ffff) by (nonlinear_arith)
            requires
                0 <= area <= 0xffff_ffff_ffff_ffff,
                0 <= c <= 0xffff_ffff,
        ;
        let bytes: u128 = area * c * 4;
        if bytes <= usize::MAX as u128 {
            Ok(bytes as usize)
        } else {
            Err(extent_overflow())
        }
    }
}

/// The channels of an image, in order.
#[derive(Clone, Copy, Debug, PartialEq, Eq, Structural)]
pub enum ChannelLayout {
    Gray,
    GrayA,
    Rgb,
    Rgba,
}

impl ChannelLayout {
    /// The number of channels.
    #[verifier::allow_in_spec]
    pub fn channel_count(self) -> u32
        returns
            (match self {
                ChannelLayout::Gray => 1u32,
                ChannelLayout::GrayA => 2u32,
                ChannelLayout::Rgb => 3u32,
                ChannelLayout::Rgba => 4u32,
            }),
    {
        match self {
            ChannelLayout::Gray => 1,
            ChannelLayout::GrayA => 2,
            ChannelLayout::Rgb => 3,
            ChannelLayout::Rgba => 4,
        }
    }

    /// The last channel is alpha.
    #[verifier::allow_in_spec]
    pub fn has_alpha(self) -> bool
        returns
            (self == ChannelLayout::GrayA || self == ChannelLayout::Rgba),
    {
        match self {
            ChannelLayout::GrayA | ChannelLayout::Rgba => true,
            _ => false,
        }
    }
}

/// How colour values are encoded.
#[derive(Clone, Copy, Debug, PartialEq, Eq, Structural)]
pub enum ColorEncoding {
    Srgb,
    LinearSrgb,
    RawLinear,
}

/// Whether colour values are bound to the display's range.
#[derive(Clone, Copy, Debug, PartialEq, Eq, Structural)]
pub enum ColorRange {
    DisplayReferred,
    SceneReferred,
}

/// How colour relates to alpha.
#[derive(Clone, Copy, Debug, PartialEq, Eq, Structural)]
pub enum AlphaRepresentation {
    Straight,
    Premultiplied,
}

/// The storage type of a sample.
#[derive(Clone, Copy, Debug, PartialEq, Eq, Structural)]
pub enum ScalarType {
    F32,
}

/// What the samples mean.
#[derive(Clone, Copy, Debug, PartialEq, Eq, Structural)]
pub enum SemanticRole {
    Color,
    Material,
    Distance,
    Flow,
}

/// Where a pixel's sample lies and which way the axes run.
#[derive(Clone, Copy, Debug, PartialEq, Eq, Structural)]
pub enum CoordinateConvention {
    PixelCenterUpperLeft,
}

/// How many components a field has.
#[derive(Clone, Copy, Debug, PartialEq, Eq, Structural)]
pub enum FieldArity {
    Field1,
    Field2,
    Field3,
}

/// The range of a mask's samples, its ends by their binary64 patterns.
#[derive(Clone, Copy, Debug, PartialEq, Eq, Structural)]
pub enum ValidRange {
    Bounded { min: u64, max: u64 },
}

/// What a mask's samples mean.
#[derive(Clone, Copy, Debug, PartialEq, Eq, Structural)]
pub enum MaskMeaning {
    Coverage,
}

/// How odd lengths are halved between pyramid levels.
#[derive(Clone, Copy, Debug, PartialEq, Eq, Structural)]
pub enum PyramidPhase {
    Floor,
    Ceil,
}

impl PyramidPhase {
    /// Half of an axis length: rounded as the phase says, and one pixel at least of an axis that has
    /// a pixel.
    #[verifier::allow_in_spec]
    pub fn child_axis(self, n: u32) -> u32
        returns
            (if n <= 1 {
                n
            } else {
                match self {
                    PyramidPhase::Floor => n / 2,
                    PyramidPhase::Ceil => (n / 2 + n % 2) as u32,
                }
            }),
    {
        if n <= 1 {
            n
        } else {
            match self {
                PyramidPhase::Floor => n / 2,
                PyramidPhase::Ceil => n / 2 + n % 2,
            }
        }
    }
}

/// The greatest number of levels of a pyramid.
pub const MAX_PYRAMID_LEVELS: u32 = 32;

/// The extent of the level below one of extent `parent`.
#[verifier::allow_in_spec]
pub fn child_extent(parent: Extent, phase: PyramidPhase) -> Extent
    returns
        (Extent { width: phase.child_axis(parent.width), height: phase.child_axis(parent.height) }),
{
    Extent { width: phase.child_axis(parent.width), height: phase.child_axis(parent.height) }
}

/// The extent of level `l` of a pyramid over `base`.
pub open spec fn level_extent(base: Extent, phase: PyramidPhase, l: nat) -> Extent
    decreases l,
{
    if l == 0 {
        base
    } else {
        child_extent(level_extent(base, phase, (l - 1) as nat), phase)
    }
}

/// The number of samples in the first `levels` levels of a pyramid.
pub open spec fn pyramid_len(base: Extent, phase: PyramidPhase, channels: u32, levels: nat) -> int
    decreases levels,
{
    if levels == 0 {
        0
    } else {
        pyramid_len(base, phase, channels, (levels - 1) as nat) + level_extent(
            base,
            phase,
            (levels - 1) as nat,
        ).area() * channels
    }
}

/// The number of samples of one plane.
pub fn plane_count(extent: Extent, channels: u32) -> (r: u128)
    ensures
        r == extent.area() * channels,
        r <= 0xffff_ffff_ffff_ffff_ffff_ffff,
{
    let w: u128 = extent.width as u128;
    let h: u128 = extent.height as u128;
    let c: u128 = channels as u128;
    assert(w * h <= 0xffff_ffff_ffff_ffff) by (nonlinear_arith)
        requires
            0 <= w <= 0xffff_ffff,
            0 <= h <= 0xffff_ffff,
    ;
    assert(0 <= w * h) by (nonlinear_arith)
        requires
            0 <= w,
            0 <= h,
    ;
    let area: u128 = w * h;
    assert(area * c <= 0xffff_ffff_ffff_ffff_ffff_ffff) by (nonlinear_arith)
        requires
            0 <= area <= 0xffff_ffff_ffff_ffff,
            0 <= c <= 0xffff_ffff,
    ;
    area * c
}

/// A pyramid with more levels holds no fewer samples.
pub proof fn lemma_pyramid_len_grows(
    base: Extent,
    phase: PyramidPhase,
    channels: u32,
    few: nat,
    many: nat,
)
    requires
        few <= many,
    ensures
        0 <= pyramid_len(base, phase, channels, few) <= pyramid_len(base, phase, channels, many),
    decreases many,
{
    if many > 0 {
        let last = level_extent(base, phase, (many - 1) as nat);
        assert(last.area() * channels >= 0) by (nonlinear_arith)
            requires
                last.area() == last.width * last.height,
                last.width >= 0,
                last.height >= 0,
                channels >= 0,
        ;
        if few < many {
            lemma_pyramid_len_grows(base, phase, channels, few, (many - 1) as nat);
        } else {
            lemma_pyramid_len_grows(base, phase, channels, (many - 1) as nat, (many - 1) as nat);
        }
    }
}

/// The extent has no pixels.
pub const E_EXTENT_EMPTY: &'static str = "E_EXTENT_EMPTY";

/// The error of a resource without pixels.
#[verifier::allow_in_spec]
pub fn extent_empty() -> Error
    returns
        (Error::new(ErrorClass::Semantic, E_EXTENT_EMPTY, "the extent has no pixels")),
{
    Error::new(ErrorClass::Semantic, E_EXTENT_EMPTY, "the extent has no pixels")
}

/// The ratio between neighbouring pyramid levels.
#[derive(Clone, Copy, Debug, PartialEq, Eq, Structural)]
pub enum DownsampleFactor {
    Half,
}

/// An image.
#[derive(Clone, Copy, Debug, PartialEq, Eq, Structural)]
pub struct ImageDescriptor {
    pub extent: Extent,
    pub layout: ChannelLayout,
    pub scalar: ScalarType,
    pub color: ColorEncoding,
    pub range: ColorRange,
    pub alpha: AlphaRepresentation,
    pub coordinates: CoordinateConvention,
    pub semantic: SemanticRole,
}

/// A scalar or vector field. The last three members are wire tokens that operations carry along.
#[derive(Clone, Copy, Debug, PartialEq, Eq)]
pub struct FieldDescriptor {
    pub arity: FieldArity,
    pub extent: Extent,
    pub scalar: ScalarType,
    pub semantic: SemanticRole,
    pub coordinates: CoordinateConvention,
    pub space: Option<&'static str>,
    pub normalization: Option<&'static str>,
    pub encoding: Option<&'static str>,
}

/// A mask.
#[derive(Clone, Copy, Debug, PartialEq, Eq, Structural)]
pub struct MaskDescriptor {
    pub extent: Extent,
    pub scalar: ScalarType,
    pub range: ValidRange,
    pub meaning: MaskMeaning,
    pub coordinates: CoordinateConvention,
}

/// A frequency spectrum: two samples, real and imaginary, per channel and bin.
#[derive(Clone, Copy, Debug, PartialEq, Eq, Structural)]
pub struct SpectrumDescriptor {
    pub extent: Extent,
    pub channels: u32,
    pub scalar: ScalarType,
    pub coordinates: CoordinateConvention,
}

/// A pyramid of planes, finest first.
#[derive(Clone, Copy, Debug, PartialEq, Eq, Structural)]
pub struct PyramidDescriptor {
    pub base_extent: Extent,
    pub levels: u32,
    pub channels: u32,
    pub scalar: ScalarType,
    pub factor: DownsampleFactor,
    pub phase: PyramidPhase,
    pub coordinates: CoordinateConvention,
}

impl SpectrumDescriptor {
    /// The spectrum has bins, and its bytes can be addressed.
    pub open spec fn validity(self) -> Result<(), Error> {
        if self.extent.width == 0 || self.extent.height == 0 {
            Err(extent_empty())
        } else if self.extent.area() * self.channels * 2 * 4 > usize::MAX {
            Err(extent_overflow())
        } else {
            Ok(())
        }
    }

    /// Check that the spectrum has bins and that its bytes can be addressed.
    pub fn validate(self) -> (r: Result<(), Error>)
        ensures
            r == self.validity(),
    {
        if self.extent.width == 0 || self.extent.height == 0 {
            return Err(extent_empty());
        }
        let bytes: u128 = plane_count(self.extent, self.channels) * 2 * 4;
        if bytes > usize::MAX as u128 {
            Err(extent_overflow())
        } else {
            Ok(())
        }
    }
}

impl PyramidDescriptor {
    /// The pyramid has pixels, and the bytes of all its levels can be addressed.
    pub open spec fn validity(self) -> Result<(), Error> {
        if self.base_extent.width == 0 || self.base_extent.height == 0 {
            Err(extent_empty())
        } else if pyramid_len(self.base_extent, self.phase, self.channels, self.levels as nat) * 4
            > usize::MAX {
            Err(extent_overflow())
        } else {
            Ok(())
        }
    }

    /// Check that the pyramid has pixels and that its bytes can be addressed.
    pub fn validate(self) -> (r: Result<(), Error>)
        ensures
            r == self.validity(),
    {
        if self.base_extent.width == 0 || self.base_extent.height == 0 {
            return Err(extent_empty());
        }
        let mut extent: Extent = self.base_extent;
        let mut total: u128 = 0;
        let mut l: u32 = 0;
        while l < self.levels
            invariant
                l <= self.levels,
                self.base_extent.width > 0 && self.base_extent.height > 0,
                extent == level_extent(self.base_extent, self.phase, l as nat),
                total == pyramid_len(self.base_extent, self.phase, self.channels, l as nat),
                total * 4 <= usize::MAX,
            decreases self.levels - l,
        {
            total = total + plane_count(extent, self.channels);
            extent = child_extent(extent, self.phase);
            l = l + 1;
            if total * 4 > usize::MAX as u128 {
                proof {
                    lemma_pyramid_len_grows(
                        self.base_extent,
                        self.phase,
                        self.channels,
                        l as nat,
                        self.levels as nat,
                    );
                }
                return Err(extent_overflow());
            }
        }
        Ok(())
    }
}

/// A report on a resource of this size.
#[derive(Clone, Copy, Debug, PartialEq, Eq, Structural)]
pub struct ReportDescriptor {
    pub extent: Extent,
    pub channels: u32,
}

/// The kinds of resources.
#[derive(Clone, Copy, Debug, PartialEq, Eq, Structural)]
pub enum ResourceKind {
    Image,
    Mask,
    SdfMask,
    Field1,
    Field2,
    Field3,
    Pyramid,
    Spectrum,
    Report,
}

/// What a resource is, without its samples.
#[derive(Clone, Copy, Debug, PartialEq, Eq)]
pub enum ResourceDescriptor {
    Image(ImageDescriptor),
    Mask(MaskDescriptor),
    SdfMask(MaskDescriptor),
    Field1(FieldDescriptor),
    Field2(FieldDescriptor),
    Field3(FieldDescriptor),
    Pyramid(PyramidDescriptor),
    Spectrum(SpectrumDescriptor),
    Report(ReportDescriptor),
}

impl ResourceDescriptor {
    /// The kind of the resource.
    #[verifier::allow_in_spec]
    pub fn kind(self) -> ResourceKind
        returns
            (match self {
                ResourceDescriptor::Image(_) => ResourceKind::Image,
                ResourceDescriptor::Mask(_) => ResourceKind::Mask,
                ResourceDescriptor::SdfMask(_) => ResourceKind::SdfMask,
                ResourceDescriptor::Field1(_) => ResourceKind::Field1,
                ResourceDescriptor::Field2(_) => ResourceKind::Field2,
                ResourceDescriptor::Field3(_) => ResourceKind::Field3,
                ResourceDescriptor::Pyramid(_) => ResourceKind::Pyramid,
                ResourceDescriptor::Spectrum(_) => ResourceKind::Spectrum,
                ResourceDescriptor::Report(_) => ResourceKind::Report,
            }),
    {
        match self {
            ResourceDescriptor::Image(_) => ResourceKind::Image,
            ResourceDescriptor::Mask(_) => ResourceKind::Mask,
            ResourceDescriptor::SdfMask(_) => ResourceKind::SdfMask,
            ResourceDescriptor::Field1(_) => ResourceKind::Field1,
            ResourceDescriptor::Field2(_) => ResourceKind::Field2,
            ResourceDescriptor::Field3(_) => ResourceKind::Field3,
            ResourceDescriptor::Pyramid(_) => ResourceKind::Pyramid,
            ResourceDescriptor::Spectrum(_) => ResourceKind::Spectrum,
            ResourceDescriptor::Report(_) => ResourceKind::Report,
        }
    }

    /// The size of the resource; of a pyramid, that of its finest level.
    #[verifier::allow_in_spec]
    pub fn extent(self) -> Extent
        returns
            (match self {
                ResourceDescriptor::Image(d) => d.extent,
                ResourceDescriptor::Mask(d) => d.extent,
                ResourceDescriptor::SdfMask(d) => d.extent,
                ResourceDescriptor::Field1(d) => d.extent,
                ResourceDescriptor::Field2(d) => d.extent,
                ResourceDescriptor::Field3(d) => d.extent,
                ResourceDescriptor::Pyramid(d) => d.base_extent,
                ResourceDescriptor::Spectrum(d) => d.extent,
                ResourceDescriptor::Report(d) => d.extent,
            }),
    {
        match self {
            ResourceDescriptor::Image(d) => d.extent,
            ResourceDescriptor::Mask(d) => d.extent,
            ResourceDescriptor::SdfMask(d) => d.extent,
            ResourceDescriptor::Field1(d) => d.extent,
            ResourceDescriptor::Field2(d) => d.extent,
            ResourceDescriptor::Field3(d) => d.extent,
            ResourceDescriptor::Pyramid(d) => d.base_extent,
            ResourceDescriptor::Spectrum(d) => d.extent,
            ResourceDescriptor::Report(d) => d.extent,
        }
    }
}

/// Whether a declared property of an output held.
#[derive(Clone, Copy, Debug, PartialEq, Eq, Structural)]
pub enum AssertionStatus {
    Pass,
    Fail,
}

/// The outcome of checking a declared property.
#[derive(Clone, Copy, Debug)]
pub struct AssertionResult {
    pub name: &'static str,
    pub status: AssertionStatus,
    pub detail: &'static str,
    pub about: Detail,
}

impl AssertionResult {
    /// The property `name` held.
    #[verifier::allow_in_spec]
    pub fn pass(name: &'static str) -> Self
        returns
            (AssertionResult { name, status: AssertionStatus::Pass, detail: "", about: Detail::Nothing }),
    {
        AssertionResult { name, status: AssertionStatus::Pass, detail: "", about: Detail::Nothing }
    }

    /// The property `name` did not hold.
    #[verifier::allow_in_spec]
    pub fn fail(name: &'static str, detail: &'static str) -> Self
        returns
            (AssertionResult { name, status: AssertionStatus::Fail, detail, about: Detail::Nothing }),
    {
        AssertionResult { name, status: AssertionStatus::Fail, detail, about: Detail::Nothing }
    }

    /// The same outcome about something.
    #[verifier::allow_in_spec]
    pub fn with(self, about: Detail) -> Self
        returns
            (AssertionResult { about, ..self }),
    {
        AssertionResult { about, ..self }
    }
}

} // verus!
