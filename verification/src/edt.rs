//! The exact Euclidean distance transform of a binary grid.
//!
//! For every cell of a grid the transform gives the squared distance, between cell centres, to
//! the nearest cell that is set. Squared distances are exact integers; a grid without a set cell
//! has no distance anywhere (`None`).
use crate::arithmetic::{
    lawful, narrow, narrow_of, sample_root, sample_root_of, tally, tally_of, Arithmetic,
};
use crate::binary::SAMPLE_INFINITY;
use crate::ir::Extent;
use crate::lattice::{at, lemma_at_bounds, lemma_at_injective, lemma_at_of, position};
use vstd::prelude::*;

verus! {

/// A binary `width` by `height` grid over a borrowed row-major membership slice.
#[derive(Debug, Clone, Copy)]
pub struct BinaryGrid<'a> {
    width: u32,
    height: u32,
    set: &'a [bool],
}

/// A membership slice whose length is not that of the grid it should fill.
#[derive(Debug, Clone, Copy, PartialEq, Eq, Structural)]
pub struct GridShapeError {
    pub width: u32,
    pub height: u32,
    pub expected: usize,
    pub actual: usize,
}

/// What a grid is: its size, and which cells are set, row by row.
pub ghost struct GridView {
    pub width: int,
    pub height: int,
    pub set: Seq<bool>,
}

impl GridView {
    /// The cells fill the grid.
    pub open spec fn well_formed(self) -> bool {
        &&& 0 <= self.width <= u32::MAX
        &&& 0 <= self.height <= u32::MAX
        &&& self.set.len() == self.width * self.height
    }

    /// `(x, y)` is a cell of the grid.
    pub open spec fn has_cell(self, x: int, y: int) -> bool {
        0 <= x < self.width && 0 <= y < self.height
    }

    /// `(x, y)` is a cell of the grid that is set.
    pub open spec fn is_set(self, x: int, y: int) -> bool {
        self.has_cell(x, y) && self.set[at(x, y, self.width)]
    }
}

impl<'a> View for BinaryGrid<'a> {
    type V = GridView;

    closed spec fn view(&self) -> GridView {
        GridView { width: self.width as int, height: self.height as int, set: self.set@ }
    }
}

/// The square of `d`.
pub open spec fn square(d: int) -> int {
    d * d
}

/// The squared distance between two cell centres.
pub open spec fn sq_distance(x: int, y: int, sx: int, sy: int) -> int {
    square(x - sx) + square(y - sy)
}

/// `d` is the squared distance from `(x, y)` to the nearest set cell of `g`: none where no cell is
/// set, else a distance to some set cell that no set cell undercuts.
pub open spec fn is_nearest_sq(g: GridView, x: int, y: int, d: Option<u128>) -> bool {
    match d {
        None => forall|sx: int, sy: int| !g.is_set(sx, sy),
        Some(v) => {
            &&& exists|sx: int, sy: int| g.is_set(sx, sy) && v == sq_distance(x, y, sx, sy)
            &&& forall|sx: int, sy: int| g.is_set(sx, sy) ==> v <= sq_distance(x, y, sx, sy)
        },
    }
}

/// `out` holds, row by row, the squared distance of every cell of `g`.
pub open spec fn is_transform(g: GridView, out: Seq<Option<u128>>) -> bool {
    &&& out.len() == g.set.len()
    &&& forall|x: int, y: int|
        g.has_cell(x, y) ==> is_nearest_sq(g, x, y, #[trigger] out[at(x, y, g.width)])
}

impl<'a> BinaryGrid<'a> {
    #[verifier::type_invariant]
    closed spec fn fills(self) -> bool {
        self.set@.len() == self.width * self.height
    }

    /// Borrow a membership slice as a grid; refused unless the slice has one entry per cell.
    pub fn new(extent: Extent, set: &'a [bool]) -> (r: Result<Self, GridShapeError>)
        ensures
            r is Ok <==> set@.len() == extent.area(),
            r matches Ok(g) ==> {
                &&& g@ == (GridView {
                    width: extent.width as int,
                    height: extent.height as int,
                    set: set@,
                })
                &&& g@.well_formed()
            },
            r matches Err(e) ==> {
                &&& e.width == extent.width
                &&& e.height == extent.height
                &&& e.expected == (if extent.area() <= usize::MAX { extent.area() } else { usize::MAX as int })
                &&& e.actual == set@.len()
            },
    {
        proof {
            lemma_area_fits(extent.width, extent.height);
        }
        let area: u64 = (extent.width as u64) * (extent.height as u64);
        if set.len() as u64 == area {
            Ok(BinaryGrid { width: extent.width, height: extent.height, set })
        } else {
            let expected: usize = if area <= usize::MAX as u64 {
                area as usize
            } else {
                usize::MAX
            };
            Err(
                GridShapeError {
                    width: extent.width,
                    height: extent.height,
                    expected,
                    actual: set.len(),
                },
            )
        }
    }

    /// The grid's size.
    pub fn extent(&self) -> (r: Extent)
        ensures
            r.width == self@.width,
            r.height == self@.height,
    {
        Extent::new(self.width, self.height)
    }

    /// The grid's width in cells.
    pub fn width(&self) -> (r: u32)
        ensures
            r == self@.width,
    {
        self.width
    }

    /// The grid's height in cells.
    pub fn height(&self) -> (r: u32)
        ensures
            r == self@.height,
    {
        self.height
    }

    /// The number of cells.
    pub fn len(&self) -> (r: usize)
        ensures
            r == self@.set.len(),
            r == self@.width * self@.height,
    {
        proof {
            use_type_invariant(self);
        }
        self.set.len()
    }

    /// The grid has no cell.
    pub fn is_empty(&self) -> (r: bool)
        ensures
            r == (self@.width == 0 || self@.height == 0),
    {
        proof {
            use_type_invariant(self);
            if self.width > 0 && self.height > 0 {
                lemma_at_bounds(0, 0, self.width as int, self.height as int);
            } else {
                assert(self.width * self.height == 0) by (nonlinear_arith)
                    requires
                        self.width == 0 || self.height == 0,
                ;
            }
        }
        self.set.len() == 0
    }

    /// The cell `(x, y)` exists and is set.
    pub fn is_set(&self, x: u32, y: u32) -> (r: bool)
        ensures
            r == self@.is_set(x as int, y as int),
    {
        if x >= self.width || y >= self.height {
            return false;
        }
        proof {
            use_type_invariant(self);
            lemma_at_bounds(x as int, y as int, self.width as int, self.height as int);
        }
        let count: usize = self.set.len();
        assert(at(x as int, y as int, self.width as int) < count);
        self.set[position(x as usize, y as usize, self.width as usize)]
    }
}

/// A grid's cell count is within the address range.
proof fn lemma_area_fits(w: u32, h: u32)
    ensures
        0 <= w * h <= u64::MAX,
{
    assert(0 <= w * h <= 0xffff_ffff * 0xffff_ffff) by (nonlinear_arith)
        requires
            0 <= w <= 0xffff_ffff,
            0 <= h <= 0xffff_ffff,
    ;
}

/// `v` is a sample of `f` that holds a value.
pub open spec fn is_site(f: Seq<Option<u128>>, v: int) -> bool {
    0 <= v < f.len() && f[v] is Some
}

/// The height at `q` of the parabola rooted at sample `v`.
pub open spec fn parabola(f: Seq<Option<u128>>, v: int, q: int) -> int {
    square(q - v) + f[v]->0
}

/// `d` is the one-dimensional squared distance transform of `f` at `q`: the least height there of
/// the parabolas of all sites, none where there is no site.
pub open spec fn is_min_1d(f: Seq<Option<u128>>, q: int, d: Option<u128>) -> bool {
    match d {
        None => forall|v: int| !is_site(f, v),
        Some(m) => {
            &&& exists|v: int| is_site(f, v) && m == parabola(f, v, q)
            &&& forall|v: int| is_site(f, v) ==> m <= parabola(f, v, q)
        },
    }
}

/// The largest height a line may hold: every squared distance along one axis is within it.
pub const MAX_LINE_VALUE: u128 = 0xffff_fffe_0000_0001;

/// Twice the gap between two roots times the place where their parabolas cross.
spec fn cross_numer(f: Seq<Option<u128>>, a: int, b: int) -> int {
    (f[b]->0 + square(b)) - (f[a]->0 + square(a))
}

/// The parabolas of `a` and `b` cross strictly before those of `b` and `c`.
spec fn crosses_before(f: Seq<Option<u128>>, a: int, b: int, c: int) -> bool {
    cross_numer(f, a, b) * (c - b) < cross_numer(f, b, c) * (b - a)
}

/// Some root of `roots` is at `x` as low as the parabola of `u`.
spec fn covers(f: Seq<Option<u128>>, roots: Seq<usize>, u: int, x: int) -> bool {
    exists|i: int|
        0 <= i < roots.len() && #[trigger] parabola(f, roots[i] as int, x) <= parabola(f, u, x)
}

/// `roots` lists sites below `limit` in order, and neighbouring parabolas cross in order.
spec fn is_envelope(f: Seq<Option<u128>>, roots: Seq<usize>, limit: int) -> bool {
    &&& forall|i: int| 0 <= i < roots.len() ==> is_site(f, #[trigger] roots[i] as int)
    &&& forall|i: int| 0 <= i < roots.len() ==> #[trigger] roots[i] < limit
    &&& forall|i: int, j: int| 0 <= i < j < roots.len() ==> roots[i] < roots[j]
    &&& forall|i: int, j: int, k: int|
        0 <= i && j == i + 1 && k == j + 1 && k < roots.len() ==> crosses_before(
            f,
            #[trigger] roots[i] as int,
            #[trigger] roots[j] as int,
            #[trigger] roots[k] as int,
        )
}

proof fn lemma_cross(f: Seq<Option<u128>>, a: int, b: int, x: int)
    ensures
        parabola(f, a, x) - parabola(f, b, x) == 2 * (b - a) * x - cross_numer(f, a, b),
{
    assert(square(x - a) - square(x - b) == 2 * (b - a) * x + square(a) - square(b))
        by (nonlinear_arith)
        requires
            square(x - a) == (x - a) * (x - a),
            square(x - b) == (x - b) * (x - b),
            square(a) == a * a,
            square(b) == b * b,
    ;
}

/// A parabola rooted further right that is as low at `q` stays as low at `q + 1`.
proof fn lemma_stays_below(f: Seq<Option<u128>>, a: int, b: int, q: int)
    requires
        a < b,
        parabola(f, b, q) <= parabola(f, a, q),
    ensures
        parabola(f, b, q + 1) <= parabola(f, a, q + 1),
{
    lemma_cross(f, a, b, q);
    lemma_cross(f, a, b, q + 1);
    assert(2 * (b - a) * (q + 1) == 2 * (b - a) * q + 2 * (b - a)) by (nonlinear_arith);
}

/// The middle of three parabolas whose crossings are out of order is nowhere the lowest.
proof fn lemma_hidden(f: Seq<Option<u128>>, a: int, b: int, c: int, x: int)
    requires
        a < b < c,
        !crosses_before(f, a, b, c),
    ensures
        parabola(f, a, x) <= parabola(f, b, x) || parabola(f, c, x) <= parabola(f, b, x),
{
    lemma_cross(f, a, b, x);
    lemma_cross(f, b, c, x);
    let n1 = cross_numer(f, a, b);
    let n2 = cross_numer(f, b, c);
    if parabola(f, a, x) > parabola(f, b, x) {
        let l = 2 * (b - a) * x;
        let m = 2 * (c - b) * x;
        assert(l * (c - b) == m * (b - a)) by (nonlinear_arith)
            requires
                l == 2 * (b - a) * x,
                m == 2 * (c - b) * x,
        ;
        assert(l * (c - b) > n1 * (c - b)) by (nonlinear_arith)
            requires
                l > n1,
                c - b > 0,
        ;
        assert(m > n2) by (nonlinear_arith)
            requires
                m * (b - a) > n2 * (b - a),
                b - a > 0,
        ;
    }
}

/// Where crossings are in order, a parabola that is above its left neighbour is below its right.
proof fn lemma_rising(f: Seq<Option<u128>>, a: int, b: int, c: int, x: int)
    requires
        a < b < c,
        crosses_before(f, a, b, c),
        parabola(f, a, x) <= parabola(f, b, x),
    ensures
        parabola(f, b, x) <= parabola(f, c, x),
{
    lemma_cross(f, a, b, x);
    lemma_cross(f, b, c, x);
    let n1 = cross_numer(f, a, b);
    let n2 = cross_numer(f, b, c);
    let l = 2 * (b - a) * x;
    let m = 2 * (c - b) * x;
    assert(l * (c - b) == m * (b - a)) by (nonlinear_arith)
        requires
            l == 2 * (b - a) * x,
            m == 2 * (c - b) * x,
    ;
    assert(l * (c - b) <= n1 * (c - b)) by (nonlinear_arith)
        requires
            l <= n1,
            c - b > 0,
    ;
    assert(m < n2) by (nonlinear_arith)
        requires
            m * (b - a) < n2 * (b - a),
            b - a > 0,
    ;
}

/// A root that every earlier neighbour pair descends to is the lowest of the roots so far.
proof fn lemma_lowest_left(f: Seq<Option<u128>>, roots: Seq<usize>, i: int, k: int, x: int)
    requires
        0 <= i <= k < roots.len(),
        forall|j: int|
            0 < j <= k ==> parabola(f, #[trigger] roots[j] as int, x) <= parabola(
                f,
                roots[j - 1] as int,
                x,
            ),
    ensures
        parabola(f, roots[k] as int, x) <= parabola(f, roots[i] as int, x),
    decreases k - i,
{
    if i < k {
        lemma_lowest_left(f, roots, i, k - 1, x);
    }
}

/// A root below its right neighbour is below every root to the right.
proof fn lemma_lowest_right(
    f: Seq<Option<u128>>,
    roots: Seq<usize>,
    limit: int,
    k: int,
    i: int,
    x: int,
)
    requires
        is_envelope(f, roots, limit),
        0 <= k < i < roots.len(),
        parabola(f, roots[k] as int, x) <= parabola(f, roots[k + 1] as int, x),
    ensures
        parabola(f, roots[k] as int, x) <= parabola(f, roots[i] as int, x),
        parabola(f, roots[i - 1] as int, x) <= parabola(f, roots[i] as int, x),
    decreases i - k,
{
    if i > k + 1 {
        lemma_lowest_right(f, roots, limit, k, i - 1, x);
        let a = roots[i - 2] as int;
        let b = roots[i - 1] as int;
        let c = roots[i] as int;
        lemma_rising(f, a, b, c, x);
    }
}

/// Whether the parabola of `b` is hidden by those of `a` and `c`: their crossings are out of order.
fn hides(f: &[Option<u128>], a: usize, b: usize, c: usize) -> (r: bool)
    requires
        a < b < c < f@.len() <= u32::MAX,
        is_site(f@, a as int),
        is_site(f@, b as int),
        is_site(f@, c as int),
        forall|v: int| is_site(f@, v) ==> (#[trigger] f@[v])->0 <= MAX_LINE_VALUE,
    ensures
        r == !crosses_before(f@, a as int, b as int, c as int),
{
    let left: i128 = crossing(f, a, b);
    let right: i128 = crossing(f, b, c);
    let near: i128 = (b - a) as i128;
    let far: i128 = (c - b) as i128;
    proof {
        lemma_product_fits(left as int, far as int);
        lemma_product_fits(right as int, near as int);
    }
    left * far >= right * near
}

proof fn lemma_product_fits(n: int, d: int)
    requires
        -0x4_0000_0000_0000_0000 <= n <= 0x4_0000_0000_0000_0000,
        0 <= d <= 0xffff_ffff,
    ensures
        i128::MIN <= n * d <= i128::MAX,
{
    assert(-0x4_0000_0000_0000_0000 * 0xffff_ffff <= n * d <= 0x4_0000_0000_0000_0000 * 0xffff_ffff)
        by (nonlinear_arith)
        requires
            -0x4_0000_0000_0000_0000 <= n <= 0x4_0000_0000_0000_0000,
            0 <= d <= 0xffff_ffff,
    ;
}

proof fn lemma_square_fits(d: int)
    requires
        -0xffff_ffff <= d <= 0xffff_ffff,
    ensures
        0 <= square(d) <= MAX_LINE_VALUE,
{
    assert(0 <= d * d <= 0xffff_ffff * 0xffff_ffff) by (nonlinear_arith)
        requires
            -0xffff_ffff <= d <= 0xffff_ffff,
    ;
}

/// The scaled place where the parabolas of `a` and `b` cross.
fn crossing(f: &[Option<u128>], a: usize, b: usize) -> (r: i128)
    requires
        a < b < f@.len() <= u32::MAX,
        is_site(f@, a as int),
        is_site(f@, b as int),
        forall|v: int| is_site(f@, v) ==> (#[trigger] f@[v])->0 <= MAX_LINE_VALUE,
    ensures
        r == cross_numer(f@, a as int, b as int),
        -0x4_0000_0000_0000_0000 <= r <= 0x4_0000_0000_0000_0000,
{
    let fa: i128 = f[a].unwrap() as i128;
    let fb: i128 = f[b].unwrap() as i128;
    proof {
        lemma_square_fits(a as int);
        lemma_square_fits(b as int);
    }
    let ia: i128 = a as i128;
    let ib: i128 = b as i128;
    (fb + ib * ib) - (fa + ia * ia)
}

/// The exact one-dimensional squared distance transform of a line: at every `q` the least
/// `(q - v)^2 + sampled[v]` over the samples that hold a value.
///
/// One sweep keeps the lower envelope of the parabolas as a stack of roots; a second walks it.
#[verifier::rlimit(30)]
pub fn dt_1d(sampled: &[Option<u128>]) -> (out: Vec<Option<u128>>)
    requires
        sampled@.len() <= u32::MAX,
        forall|v: int| is_site(sampled@, v) ==> (#[trigger] sampled@[v])->0 <= MAX_LINE_VALUE,
    ensures
        out@.len() == sampled@.len(),
        forall|q: int| 0 <= q < out@.len() ==> is_min_1d(sampled@, q, #[trigger] out@[q]),
{
    let n: usize = sampled.len();
    let roots: Vec<usize> = envelope(sampled);
    let mut out: Vec<Option<u128>> = Vec::new();
    if roots.len() == 0 {
        let mut q: usize = 0;
        while q < n
            invariant
                q <= n == sampled@.len(),
                out@.len() == q,
                forall|u: int| !is_site(sampled@, u),
                forall|i: int| 0 <= i < q ==> (#[trigger] out@[i]) is None,
            decreases n - q,
        {
            out.push(None);
            q = q + 1;
        }
        return out;
    }
    let mut k: usize = 0;
    let mut q: usize = 0;
    while q < n
        invariant
            n == sampled@.len() <= u32::MAX,
            forall|v: int| is_site(sampled@, v) ==> (#[trigger] sampled@[v])->0 <= MAX_LINE_VALUE,
            is_envelope(sampled@, roots@, n as int),
            forall|u: int, x: int| is_site(sampled@, u) ==> #[trigger] covers(sampled@, roots@, u, x),
            q <= n,
            k < roots@.len(),
            out@.len() == q,
            forall|j: int|
                0 < j <= k ==> parabola(sampled@, #[trigger] roots@[j] as int, q as int) <= parabola(
                    sampled@,
                    roots@[j - 1] as int,
                    q as int,
                ),
            forall|i: int| 0 <= i < q ==> is_min_1d(sampled@, i, #[trigger] out@[i]),
        decreases n - q,
    {
        let mut searching: bool = true;
        while searching
            invariant
                n == sampled@.len() <= u32::MAX,
                forall|v: int| is_site(sampled@, v) ==> (#[trigger] sampled@[v])->0 <= MAX_LINE_VALUE,
                is_envelope(sampled@, roots@, n as int),
                q < n,
                k < roots@.len(),
                forall|j: int|
                    0 < j <= k ==> parabola(sampled@, #[trigger] roots@[j] as int, q as int)
                        <= parabola(sampled@, roots@[j - 1] as int, q as int),
                !searching && k + 1 < roots@.len() ==> parabola(
                    sampled@,
                    roots@[k as int] as int,
                    q as int,
                ) <= parabola(sampled@, roots@[k + 1] as int, q as int),
            decreases roots@.len() - k, searching as int,
        {
            if roots.len() - k > 1 {
                let a: usize = roots[k];
                let b: usize = roots[k + 1];
                assert(is_site(sampled@, a as int) && is_site(sampled@, b as int));
                proof {
                    lemma_product_fits(b - a, q as int);
                    lemma_product_fits(2 * (b - a), q as int);
                    lemma_cross(sampled@, a as int, b as int, q as int);
                }
                let gap: i128 = 2 * ((b - a) as i128);
                if crossing(sampled, a, b) < gap * (q as i128) {
                    k = k + 1;
                } else {
                    searching = false;
                }
            } else {
                searching = false;
            }
        }
        let root: usize = roots[k];
        assert(is_site(sampled@, root as int));
        let delta: i128 = q as i128 - root as i128;
        proof {
            lemma_square_fits(delta as int);
        }
        let height: u128 = (delta * delta) as u128 + sampled[root].unwrap();
        proof {
            let x = q as int;
            assert(height == parabola(sampled@, root as int, x));
            assert forall|u: int| is_site(sampled@, u) implies height <= parabola(sampled@, u, x) by {
                assert(covers(sampled@, roots@, u, x));
                let i = choose|i: int|
                    0 <= i < roots@.len() && #[trigger] parabola(sampled@, roots@[i] as int, x)
                        <= parabola(sampled@, u, x);
                if i <= k {
                    lemma_lowest_left(sampled@, roots@, i, k as int, x);
                } else {
                    lemma_lowest_right(sampled@, roots@, n as int, k as int, i, x);
                }
            }
            assert forall|j: int| 0 < j <= k implies parabola(
                sampled@,
                #[trigger] roots@[j] as int,
                x + 1,
            ) <= parabola(sampled@, roots@[j - 1] as int, x + 1) by {
                lemma_stays_below(sampled@, roots@[j - 1] as int, roots@[j] as int, x);
            }
        }
        out.push(Some(height));
        q = q + 1;
    }
    out
}

/// The roots of the parabolas that form the lower envelope of a line, from left to right.
fn envelope(sampled: &[Option<u128>]) -> (roots: Vec<usize>)
    requires
        sampled@.len() <= u32::MAX,
        forall|v: int| is_site(sampled@, v) ==> (#[trigger] sampled@[v])->0 <= MAX_LINE_VALUE,
    ensures
        is_envelope(sampled@, roots@, sampled@.len() as int),
        forall|u: int, x: int| is_site(sampled@, u) ==> #[trigger] covers(sampled@, roots@, u, x),
        roots@.len() == 0 ==> forall|u: int| !is_site(sampled@, u),
{
    let n: usize = sampled.len();
    let mut roots: Vec<usize> = Vec::new();
    let mut q: usize = 0;
    while q < n
        invariant
            n == sampled@.len() <= u32::MAX,
            forall|v: int| is_site(sampled@, v) ==> (#[trigger] sampled@[v])->0 <= MAX_LINE_VALUE,
            q <= n,
            is_envelope(sampled@, roots@, q as int),
            forall|u: int, x: int|
                is_site(sampled@, u) && u < q ==> #[trigger] covers(sampled@, roots@, u, x),
        decreases n - q,
    {
        if sampled[q].is_some() {
            assert(is_site(sampled@, q as int));
            let mut placing: bool = true;
            while placing
                invariant
                    n == sampled@.len() <= u32::MAX,
                    forall|v: int|
                        is_site(sampled@, v) ==> (#[trigger] sampled@[v])->0 <= MAX_LINE_VALUE,
                    q < n,
                    is_site(sampled@, q as int),
                    is_envelope(sampled@, roots@, q as int),
                    forall|u: int, x: int|
                        is_site(sampled@, u) && u < q ==> (#[trigger] covers(sampled@, roots@, u, x)
                            || parabola(sampled@, q as int, x) <= parabola(sampled@, u, x)),
                    !placing && roots@.len() >= 2 ==> crosses_before(
                        sampled@,
                        roots@[roots@.len() - 2] as int,
                        roots@[roots@.len() - 1] as int,
                        q as int,
                    ),
                decreases roots@.len(), placing as int,
            {
                let m: usize = roots.len();
                if m >= 2 {
                    let a: usize = roots[m - 2];
                    let b: usize = roots[m - 1];
                    assert(is_site(sampled@, a as int) && is_site(sampled@, b as int));
                    if hides(sampled, a, b, q) {
                        let ghost before = roots@;
                        let _ = roots.pop();
                        proof {
                            let f = sampled@;
                            assert(roots@ =~= before.subrange(0, m - 1));
                            assert forall|u: int, x: int| is_site(f, u) && u < q implies (
                            #[trigger] covers(f, roots@, u, x) || parabola(f, q as int, x)
                                <= parabola(f, u, x)) by {
                                assert(covers(f, before, u, x) || parabola(f, q as int, x)
                                    <= parabola(f, u, x));
                                if covers(f, before, u, x) {
                                    let i = choose|i: int|
                                        0 <= i < before.len() && #[trigger] parabola(
                                            f,
                                            before[i] as int,
                                            x,
                                        ) <= parabola(f, u, x);
                                    if i < m - 1 {
                                        assert(roots@[i] == before[i]);
                                    } else {
                                        lemma_hidden(f, a as int, b as int, q as int, x);
                                        assert(roots@[m - 2] == a);
                                    }
                                }
                            }
                        }
                    } else {
                        placing = false;
                    }
                } else {
                    placing = false;
                }
            }
            let ghost before = roots@;
            roots.push(q);
            proof {
                let f = sampled@;
                assert forall|u: int, x: int| is_site(f, u) && u < q + 1 implies #[trigger] covers(
                    f,
                    roots@,
                    u,
                    x,
                ) by {
                    assert(roots@[before.len() as int] == q);
                    if u < q {
                        if covers(f, before, u, x) {
                            let i = choose|i: int|
                                0 <= i < before.len() && #[trigger] parabola(f, before[i] as int, x)
                                    <= parabola(f, u, x);
                            assert(roots@[i] == before[i]);
                        }
                    }
                }
            }
        }
        q = q + 1;
    }
    proof {
        if roots@.len() == 0 {
            assert forall|u: int| !is_site(sampled@, u) by {
                if is_site(sampled@, u) {
                    assert(covers(sampled@, roots@, u, 0));
                }
            }
        }
    }
    roots
}

/// The exact squared distance from each cell to the nearest set cell, by exhaustive search.
pub fn brute_force_sq(grid: &BinaryGrid<'_>) -> (out: Vec<Option<u128>>)
    ensures
        is_transform(grid@, out@),
{
    proof {
        use_type_invariant(grid);
    }
    let seeds: Vec<(u32, u32)> = seed_list(grid);
    let mut out: Vec<Option<u128>> = Vec::new();
    let ghost g = grid@;
    let mut y: u32 = 0;
    while y < grid.height
        invariant
            g == grid@,
            g.well_formed(),
            y <= grid.height,
            out@.len() == y * g.width,
            forall|x: int, sy: int|
                g.is_set(x, sy) <==> seeds@.contains((x as u32, sy as u32)) && g.has_cell(x, sy),
            forall|i: int| 0 <= i < seeds@.len() ==> g.is_set(
                (#[trigger] seeds@[i]).0 as int,
                seeds@[i].1 as int,
            ),
            forall|cx: int, cy: int|
                0 <= cx < g.width && 0 <= cy < y ==> is_nearest_sq(
                    g,
                    cx,
                    cy,
                    #[trigger] out@[at(cx, cy, g.width)],
                ),
        decreases grid.height - y,
    {
        let mut x: u32 = 0;
        while x < grid.width
            invariant
                g == grid@,
                g.well_formed(),
                y < grid.height,
                x <= grid.width,
                out@.len() == at(x as int, y as int, g.width),
                forall|x: int, sy: int|
                    g.is_set(x, sy) <==> seeds@.contains((x as u32, sy as u32)) && g.has_cell(x, sy),
                forall|i: int| 0 <= i < seeds@.len() ==> g.is_set(
                    (#[trigger] seeds@[i]).0 as int,
                    seeds@[i].1 as int,
                ),
                forall|cx: int, cy: int|
                    0 <= cx < g.width && 0 <= cy && (cy < y || cy == y && cx < x) ==> is_nearest_sq(
                        g,
                        cx,
                        cy,
                        #[trigger] out@[at(cx, cy, g.width)],
                    ),
            decreases grid.width - x,
        {
            let best: Option<u128> = nearest_of(&seeds, x, y);
            proof {
                lemma_nearest_of_seeds(g, seeds@, x as int, y as int, best);
                let before = out@;
                assert forall|cx: int, cy: int|
                    0 <= cx < g.width && 0 <= cy && (cy < y || cy == y && cx < x + 1) implies is_nearest_sq(
                    g,
                    cx,
                    cy,
                    #[trigger] before.push(best)[at(cx, cy, g.width)],
                ) by {
                    if cy < y {
                        lemma_at_bounds(cx, cy, g.width, y as int);
                        assert(g.width * y == y * g.width) by (nonlinear_arith);
                    }
                    assert(cy < y || cx < x ==> 0 <= at(cx, cy, g.width) < before.len()) by {
                        if cy == y && cx < x {
                            lemma_at_bounds(cx, cy, g.width, y + 1);
                        }
                    }
                    if !(cy == y && cx == x) {
                        assert(before.push(best)[at(cx, cy, g.width)] == before[at(cx, cy, g.width)]);
                    }
                }
            }
            out.push(best);
            x = x + 1;
        }
        proof {
            assert((y + 1) * g.width == y * g.width + g.width) by (nonlinear_arith);
        }
        y = y + 1;
    }
    proof {
        assert(g.height * g.width == g.width * g.height) by (nonlinear_arith);
    }
    out
}

/// The set cells of a grid, row by row.
fn seed_list(grid: &BinaryGrid<'_>) -> (seeds: Vec<(u32, u32)>)
    ensures
        grid@.well_formed(),
        forall|i: int| 0 <= i < seeds@.len() ==> grid@.is_set(
            (#[trigger] seeds@[i]).0 as int,
            seeds@[i].1 as int,
        ),
        forall|x: int, y: int|
            grid@.is_set(x, y) <==> seeds@.contains((x as u32, y as u32)) && grid@.has_cell(x, y),
{
    proof {
        use_type_invariant(grid);
    }
    let ghost g = grid@;
    let mut seeds: Vec<(u32, u32)> = Vec::new();
    let mut y: u32 = 0;
    while y < grid.height
        invariant
            g == grid@,
            g.well_formed(),
            y <= grid.height,
            forall|i: int| 0 <= i < seeds@.len() ==> g.is_set(
                (#[trigger] seeds@[i]).0 as int,
                seeds@[i].1 as int,
            ),
            forall|cx: int, cy: int|
                g.is_set(cx, cy) && cy < y ==> seeds@.contains((cx as u32, cy as u32)),
        decreases grid.height - y,
    {
        let mut x: u32 = 0;
        while x < grid.width
            invariant
                g == grid@,
                g.well_formed(),
                y < grid.height,
                x <= grid.width,
                forall|i: int| 0 <= i < seeds@.len() ==> g.is_set(
                    (#[trigger] seeds@[i]).0 as int,
                    seeds@[i].1 as int,
                ),
                forall|cx: int, cy: int|
                    g.is_set(cx, cy) && (cy < y || cy == y && cx < x) ==> seeds@.contains(
                        (cx as u32, cy as u32),
                    ),
            decreases grid.width - x,
        {
            if grid.is_set(x, y) {
                let ghost before = seeds@;
                seeds.push((x, y));
                proof {
                    assert(seeds@[before.len() as int] == (x, y));
                    assert forall|cx: int, cy: int|
                        g.is_set(cx, cy) && (cy < y || cy == y && cx < x + 1) implies seeds@.contains(
                        (cx as u32, cy as u32),
                    ) by {
                        if !(cx == x && cy == y) {
                            assert(before.contains((cx as u32, cy as u32)));
                            let i = choose|i: int|
                                0 <= i < before.len() && before[i] == (cx as u32, cy as u32);
                            assert(seeds@[i] == before[i]);
                        }
                    }
                }
            }
            x = x + 1;
        }
        y = y + 1;
    }
    seeds
}

/// The least squared distance from `(x, y)` to a listed cell.
fn nearest_of(seeds: &Vec<(u32, u32)>, x: u32, y: u32) -> (best: Option<u128>)
    ensures
        best is None <==> seeds@.len() == 0,
        best matches Some(v) ==> {
            &&& exists|i: int|
                0 <= i < seeds@.len() && v == sq_distance(
                    x as int,
                    y as int,
                    (#[trigger] seeds@[i]).0 as int,
                    seeds@[i].1 as int,
                )
            &&& forall|i: int|
                0 <= i < seeds@.len() ==> v <= sq_distance(
                    x as int,
                    y as int,
                    (#[trigger] seeds@[i]).0 as int,
                    seeds@[i].1 as int,
                )
        },
{
    let mut best: Option<u128> = None;
    let mut i: usize = 0;
    while i < seeds.len()
        invariant
            i <= seeds@.len(),
            best is None <==> i == 0,
            best matches Some(v) ==> {
                &&& exists|j: int|
                    0 <= j < i && v == sq_distance(
                        x as int,
                        y as int,
                        (#[trigger] seeds@[j]).0 as int,
                        seeds@[j].1 as int,
                    )
                &&& forall|j: int|
                    0 <= j < i ==> v <= sq_distance(
                        x as int,
                        y as int,
                        (#[trigger] seeds@[j]).0 as int,
                        seeds@[j].1 as int,
                    )
            },
        decreases seeds@.len() - i,
    {
        let (sx, sy): (u32, u32) = seeds[i];
        let dx: i128 = x as i128 - sx as i128;
        let dy: i128 = y as i128 - sy as i128;
        proof {
            lemma_square_fits(dx as int);
            lemma_square_fits(dy as int);
        }
        let d2: u128 = (dx * dx) as u128 + (dy * dy) as u128;
        let closer: bool = match best {
            Some(v) => d2 < v,
            None => true,
        };
        if closer {
            best = Some(d2);
        }
        i = i + 1;
    }
    best
}

proof fn lemma_nearest_of_seeds(
    g: GridView,
    seeds: Seq<(u32, u32)>,
    x: int,
    y: int,
    best: Option<u128>,
)
    requires
        g.well_formed(),
        forall|i: int| 0 <= i < seeds.len() ==> g.is_set(
            (#[trigger] seeds[i]).0 as int,
            seeds[i].1 as int,
        ),
        forall|sx: int, sy: int|
            g.is_set(sx, sy) <==> seeds.contains((sx as u32, sy as u32)) && g.has_cell(sx, sy),
        best is None <==> seeds.len() == 0,
        best matches Some(v) ==> {
            &&& exists|i: int|
                0 <= i < seeds.len() && v == sq_distance(
                    x,
                    y,
                    (#[trigger] seeds[i]).0 as int,
                    seeds[i].1 as int,
                )
            &&& forall|i: int|
                0 <= i < seeds.len() ==> v <= sq_distance(
                    x,
                    y,
                    (#[trigger] seeds[i]).0 as int,
                    seeds[i].1 as int,
                )
        },
    ensures
        is_nearest_sq(g, x, y, best),
{
    match best {
        None => {
            assert forall|sx: int, sy: int| !g.is_set(sx, sy) by {}
        },
        Some(v) => {
            assert forall|sx: int, sy: int| g.is_set(sx, sy) implies v <= sq_distance(x, y, sx, sy) by {
                let i = choose|i: int| 0 <= i < seeds.len() && seeds[i] == (sx as u32, sy as u32);
            }
            let i = choose|i: int|
                0 <= i < seeds.len() && v == sq_distance(
                    x,
                    y,
                    (#[trigger] seeds[i]).0 as int,
                    seeds[i].1 as int,
                );
        },
    }
}

/// The seeds of column `x` as a line: height zero where the cell is set, no value elsewhere.
spec fn column_of(g: GridView, x: int) -> Seq<Option<u128>> {
    Seq::new(
        g.height as nat,
        |y: int|
            if g.is_set(x, y) {
                Some(0u128)
            } else {
                None
            },
    )
}

/// Row `y` of a row-major buffer that is `w` wide.
spec fn row_of(field: Seq<Option<u128>>, y: int, w: int) -> Seq<Option<u128>> {
    Seq::new(w as nat, |x: int| field[at(x, y, w)])
}

/// `field` holds, at every cell, the squared distance to the nearest set cell of its column.
spec fn is_column_pass(g: GridView, field: Seq<Option<u128>>) -> bool {
    &&& field.len() == g.set.len()
    &&& forall|x: int, y: int|
        g.has_cell(x, y) ==> is_min_1d(column_of(g, x), y, #[trigger] field[at(x, y, g.width)])
}

/// The exact squared distance from each cell to the nearest set cell, in time linear in the cells:
/// the one-dimensional transform down every column, then across every row of what that gave.
pub fn transform_sq(grid: &BinaryGrid<'_>) -> (out: Vec<Option<u128>>)
    ensures
        is_transform(grid@, out@),
{
    let field: Vec<Option<u128>> = column_pass(grid);
    row_pass(grid, &field)
}

/// Transform every column of a grid's seeds.
fn column_pass(grid: &BinaryGrid<'_>) -> (field: Vec<Option<u128>>)
    ensures
        grid@.well_formed(),
        is_column_pass(grid@, field@),
{
    proof {
        use_type_invariant(grid);
    }
    let ghost g = grid@;
    let cells: usize = grid.set.len();
    let width: usize = grid.width as usize;
    let mut field: Vec<Option<u128>> = vec![None; cells];
    let mut x: u32 = 0;
    while x < grid.width
        invariant
            g == grid@,
            g.well_formed(),
            width == grid.width,
            x <= grid.width,
            field@.len() == g.set.len(),
            forall|cx: int, y: int|
                0 <= cx < x && 0 <= y < g.height ==> is_min_1d(
                    column_of(g, cx),
                    y,
                    #[trigger] field@[at(cx, y, g.width)],
                ),
        decreases grid.width - x,
    {
        let column: Vec<Option<u128>> = seed_column(grid, x);
        let line: Vec<Option<u128>> = dt_1d(column.as_slice());
        let ghost before = field@;
        let mut y: u32 = 0;
        while y < grid.height
            invariant
                g == grid@,
                g.well_formed(),
                width == grid.width,
                x < grid.width,
                y <= grid.height,
                field@.len() == g.set.len() == before.len(),
                line@.len() == g.height,
                forall|q: int|
                    0 <= q < line@.len() ==> is_min_1d(column_of(g, x as int), q, #[trigger] line@[q]),
                forall|cx: int, cy: int|
                    g.has_cell(cx, cy) ==> #[trigger] field@[at(cx, cy, g.width)] == (if cx == x && cy
                        < y {
                        line@[cy]
                    } else {
                        before[at(cx, cy, g.width)]
                    }),
            decreases grid.height - y,
        {
            let ghost previous = field@;
            proof {
                lemma_at_bounds(x as int, y as int, g.width, g.height);
            }
            let count: usize = field.len();
            assert(at(x as int, y as int, g.width) < count);
            let index: usize = position(x as usize, y as usize, width);
            field.set(index, line[y as usize]);
            proof {
                assert forall|cx: int, cy: int| g.has_cell(cx, cy) implies #[trigger] field@[at(
                    cx,
                    cy,
                    g.width,
                )] == (if cx == x && cy < y + 1 {
                    line@[cy]
                } else {
                    before[at(cx, cy, g.width)]
                }) by {
                    lemma_at_bounds(cx, cy, g.width, g.height);
                    assert(previous[at(cx, cy, g.width)] == (if cx == x && cy < y {
                        line@[cy]
                    } else {
                        before[at(cx, cy, g.width)]
                    }));
                    if at(cx, cy, g.width) == index {
                        lemma_at_injective(cx, cy, x as int, y as int, g.width);
                    }
                }
            }
            y = y + 1;
        }
        x = x + 1;
    }
    field
}

/// One column of a grid's seeds as a line.
fn seed_column(grid: &BinaryGrid<'_>, x: u32) -> (column: Vec<Option<u128>>)
    requires
        x < grid@.width,
    ensures
        column@ == column_of(grid@, x as int),
        column@.len() <= u32::MAX,
        forall|v: int| is_site(column@, v) ==> (#[trigger] column@[v])->0 <= MAX_LINE_VALUE,
{
    let mut column: Vec<Option<u128>> = Vec::new();
    let mut y: u32 = 0;
    while y < grid.height
        invariant
            y <= grid.height,
            column@.len() == y,
            forall|i: int| 0 <= i < y ==> #[trigger] column@[i] == column_of(grid@, x as int)[i],
        decreases grid.height - y,
    {
        if grid.is_set(x, y) {
            column.push(Some(0));
        } else {
            column.push(None);
        }
        y = y + 1;
    }
    column
}

/// Transform every row of a column result.
fn row_pass(grid: &BinaryGrid<'_>, field: &Vec<Option<u128>>) -> (out: Vec<Option<u128>>)
    requires
        grid@.well_formed(),
        is_column_pass(grid@, field@),
    ensures
        is_transform(grid@, out@),
{
    let ghost g = grid@;
    let mut out: Vec<Option<u128>> = Vec::new();
    let mut y: u32 = 0;
    while y < grid.height
        invariant
            g == grid@,
            g.well_formed(),
            is_column_pass(g, field@),
            y <= grid.height,
            out@.len() == y * g.width,
            forall|cx: int, cy: int|
                0 <= cx < g.width && 0 <= cy < y ==> is_nearest_sq(
                    g,
                    cx,
                    cy,
                    #[trigger] out@[at(cx, cy, g.width)],
                ),
        decreases grid.height - y,
    {
        let row: Vec<Option<u128>> = field_row(grid, field, y);
        let line: Vec<Option<u128>> = dt_1d(row.as_slice());
        let ghost before = out@;
        let mut x: u32 = 0;
        while x < grid.width
            invariant
                g == grid@,
                g.well_formed(),
                y < grid.height,
                x <= grid.width,
                line@.len() == g.width,
                out@.len() == at(x as int, y as int, g.width),
                before.len() == y * g.width,
                forall|i: int| 0 <= i < before.len() ==> #[trigger] out@[i] == before[i],
                forall|i: int| 0 <= i < x ==> #[trigger] out@[before.len() + i] == line@[i],
            decreases grid.width - x,
        {
            out.push(line[x as usize]);
            x = x + 1;
        }
        proof {
            assert((y + 1) * g.width == y * g.width + g.width) by (nonlinear_arith);
            assert forall|cx: int, cy: int| 0 <= cx < g.width && 0 <= cy < y + 1 implies is_nearest_sq(
                g,
                cx,
                cy,
                #[trigger] out@[at(cx, cy, g.width)],
            ) by {
                if cy < y {
                    lemma_at_bounds(cx, cy, g.width, y as int);
                    assert(g.width * y == y * g.width) by (nonlinear_arith);
                    assert(out@[at(cx, cy, g.width)] == before[at(cx, cy, g.width)]);
                } else {
                    assert(out@[before.len() + cx] == line@[cx]);
                    lemma_two_passes(g, field@, cx, cy, line@[cx]);
                }
            }
        }
        y = y + 1;
    }
    proof {
        assert(g.height * g.width == g.width * g.height) by (nonlinear_arith);
    }
    out
}

/// One row of a column result as a line.
fn field_row(grid: &BinaryGrid<'_>, field: &Vec<Option<u128>>, y: u32) -> (row: Vec<Option<u128>>)
    requires
        grid@.well_formed(),
        is_column_pass(grid@, field@),
        y < grid@.height,
    ensures
        row@ == row_of(field@, y as int, grid@.width),
        row@.len() <= u32::MAX,
        forall|v: int| is_site(row@, v) ==> (#[trigger] row@[v])->0 <= MAX_LINE_VALUE,
{
    let ghost g = grid@;
    let mut row: Vec<Option<u128>> = Vec::new();
    let count: usize = field.len();
    let width: usize = grid.width as usize;
    let mut x: u32 = 0;
    while x < grid.width
        invariant
            g == grid@,
            g.well_formed(),
            width == grid.width,
            y < g.height,
            x <= grid.width,
            field@.len() == g.set.len() == count,
            row@.len() == x,
            forall|i: int| 0 <= i < x ==> #[trigger] row@[i] == row_of(field@, y as int, g.width)[i],
        decreases grid.width - x,
    {
        proof {
            lemma_at_bounds(x as int, y as int, g.width, g.height);
        }
        let index: usize = position(x as usize, y as usize, width);
        row.push(field[index]);
        x = x + 1;
    }
    proof {
        assert forall|v: int| is_site(row@, v) implies (#[trigger] row@[v])->0 <= MAX_LINE_VALUE by {
            let d = field@[at(v, y as int, g.width)];
            let c = choose|c: int| is_site(column_of(g, v), c) && d->0 == parabola(column_of(g, v), c, y as int);
            lemma_square_fits(y - c);
        }
    }
    row
}

/// The least over a row of the least over each of its columns is the least over all set cells.
proof fn lemma_two_passes(g: GridView, field: Seq<Option<u128>>, x: int, y: int, d: Option<u128>)
    requires
        g.well_formed(),
        is_column_pass(g, field),
        g.has_cell(x, y),
        is_min_1d(row_of(field, y, g.width), x, d),
    ensures
        is_nearest_sq(g, x, y, d),
{
    let row = row_of(field, y, g.width);
    assert forall|sx: int, sy: int| g.is_set(sx, sy) implies is_site(row, sx) && parabola(row, sx, x)
        <= sq_distance(x, y, sx, sy) by {
        let column = column_of(g, sx);
        assert(is_site(column, sy));
        assert(is_min_1d(column, y, field[at(sx, y, g.width)]));
        assert(row[sx] == field[at(sx, y, g.width)]);
        assert(row[sx] is Some);
        assert(row[sx]->0 <= parabola(column, sy, y));
    }
    match d {
        None => {
            assert forall|sx: int, sy: int| !g.is_set(sx, sy) by {
                if g.is_set(sx, sy) {
                    assert(is_site(row, sx));
                }
            }
        },
        Some(v) => {
            let sx = choose|sx: int| is_site(row, sx) && v == parabola(row, sx, x);
            let column = column_of(g, sx);
            assert(row[sx] == field[at(sx, y, g.width)]);
            assert(is_min_1d(column, y, field[at(sx, y, g.width)]));
            let sy = choose|sy: int| is_site(column, sy) && row[sx]->0 == parabola(column, sy, y);
            assert(g.is_set(sx, sy));
            assert(v == sq_distance(x, y, sx, sy));
        },
    }
}

/// A cell has one squared distance.
pub proof fn lemma_nearest_sq_unique(g: GridView, x: int, y: int, a: Option<u128>, b: Option<u128>)
    requires
        is_nearest_sq(g, x, y, a),
        is_nearest_sq(g, x, y, b),
    ensures
        a == b,
{
    match (a, b) {
        (Some(u), Some(v)) => {
            let (sx, sy) = choose|sx: int, sy: int| g.is_set(sx, sy) && u == sq_distance(x, y, sx, sy);
            let (tx, ty) = choose|tx: int, ty: int| g.is_set(tx, ty) && v == sq_distance(x, y, tx, ty);
        },
        (Some(u), None) => {
            let (sx, sy) = choose|sx: int, sy: int| g.is_set(sx, sy) && u == sq_distance(x, y, sx, sy);
        },
        (None, Some(v)) => {
            let (tx, ty) = choose|tx: int, ty: int| g.is_set(tx, ty) && v == sq_distance(x, y, tx, ty);
        },
        (None, None) => {},
    }
}

/// The linear-time transform and the exhaustive search give one buffer: a grid has exactly one
/// transform.
pub proof fn law_transform_is_brute_force(g: GridView, fast: Seq<Option<u128>>, slow: Seq<Option<u128>>)
    requires
        g.well_formed(),
        is_transform(g, fast),
        is_transform(g, slow),
    ensures
        fast == slow,
{
    assert forall|i: int| 0 <= i < fast.len() implies fast[i] == slow[i] by {
        lemma_at_of(i, g.width, g.height);
        lemma_nearest_sq_unique(g, i % g.width, i / g.width, fast[i], slow[i]);
    }
}

/// Without a set cell there is no distance anywhere.
pub proof fn law_empty_set_has_no_distance(g: GridView, out: Seq<Option<u128>>, i: int)
    requires
        g.well_formed(),
        is_transform(g, out),
        forall|x: int, y: int| !g.is_set(x, y),
        0 <= i < out.len(),
    ensures
        out[i] is None,
{
    lemma_at_of(i, g.width, g.height);
}

/// The distance is zero exactly at the set cells.
pub proof fn law_zero_exactly_on_set_cells(g: GridView, out: Seq<Option<u128>>, x: int, y: int)
    requires
        g.well_formed(),
        is_transform(g, out),
        g.has_cell(x, y),
    ensures
        out[at(x, y, g.width)] == Some(0u128) <==> g.is_set(x, y),
{
    let d = out[at(x, y, g.width)];
    if g.is_set(x, y) {
        assert(sq_distance(x, y, x, y) == 0);
    }
    if d == Some(0u128) {
        let (sx, sy) = choose|sx: int, sy: int| g.is_set(sx, sy) && 0 == sq_distance(x, y, sx, sy);
        assert(square(x - sx) >= 0 && square(y - sy) >= 0 && (square(x - sx) == 0 ==> x == sx) && (
        square(y - sy) == 0 ==> y == sy)) by (nonlinear_arith)
            requires
                square(x - sx) == (x - sx) * (x - sx),
                square(y - sy) == (y - sy) * (y - sy),
        ;
    }
}

/// Where a cell is set, every distance is a number.
pub proof fn law_nonempty_set_has_distances(
    g: GridView,
    out: Seq<Option<u128>>,
    sx: int,
    sy: int,
    x: int,
    y: int,
)
    requires
        g.well_formed(),
        is_transform(g, out),
        g.is_set(sx, sy),
        g.has_cell(x, y),
    ensures
        out[at(x, y, g.width)] matches Some(d) && d <= sq_distance(x, y, sx, sy),
{
}

/// With a single set cell the distance is that to it.
pub proof fn law_single_cell(
    g: GridView,
    out: Seq<Option<u128>>,
    sx: int,
    sy: int,
    x: int,
    y: int,
)
    requires
        g.well_formed(),
        is_transform(g, out),
        forall|cx: int, cy: int| g.is_set(cx, cy) <==> cx == sx && cy == sy,
        g.has_cell(x, y),
    ensures
        out[at(x, y, g.width)] matches Some(d) && d == sq_distance(x, y, sx, sy),
{
    assert(is_nearest_sq(g, x, y, out[at(x, y, g.width)]));
    assert(g.is_set(sx, sy));
}

/// Turning the set cells a quarter turn, `(x, y)` to `(height - 1 - y, x)`, turns the distances the
/// same way.
pub proof fn law_quarter_turn(
    g: GridView,
    turned: GridView,
    out: Seq<Option<u128>>,
    turned_out: Seq<Option<u128>>,
    x: int,
    y: int,
)
    requires
        g.well_formed(),
        turned.well_formed(),
        turned.width == g.height,
        turned.height == g.width,
        forall|cx: int, cy: int|
            g.has_cell(cx, cy) ==> (#[trigger] g.is_set(cx, cy) <==> turned.is_set(
                g.height - 1 - cy,
                cx,
            )),
        is_transform(g, out),
        is_transform(turned, turned_out),
        g.has_cell(x, y),
    ensures
        turned_out[at(g.height - 1 - y, x, turned.width)] == out[at(x, y, g.width)],
{
    let d = out[at(x, y, g.width)];
    let tx = g.height - 1 - y;
    let ty = x;
    let t = turned_out[at(tx, ty, turned.width)];
    assert forall|cx: int, cy: int| g.is_set(cx, cy) implies sq_distance(x, y, cx, cy)
        == sq_distance(tx, ty, g.height - 1 - cy, cx) by {
        assert(square(y - cy) == square(cy - y)) by (nonlinear_arith)
            requires
                square(y - cy) == (y - cy) * (y - cy),
                square(cy - y) == (cy - y) * (cy - y),
        ;
    }
    assert forall|ux: int, uy: int| turned.is_set(ux, uy) implies g.is_set(uy, g.height - 1 - ux) by {
        assert(g.is_set(uy, g.height - 1 - ux) <==> turned.is_set(
            g.height - 1 - (g.height - 1 - ux),
            uy,
        ));
    }
    assert(is_nearest_sq(turned, tx, ty, d)) by {
        match d {
            None => {},
            Some(v) => {
                let (sx, sy) = choose|sx: int, sy: int| g.is_set(sx, sy) && v == sq_distance(x, y, sx, sy);
                assert forall|ux: int, uy: int| turned.is_set(ux, uy) implies v <= sq_distance(
                    tx,
                    ty,
                    ux,
                    uy,
                ) by {
                    assert(sq_distance(x, y, uy, g.height - 1 - ux) == sq_distance(
                        tx,
                        ty,
                        g.height - 1 - (g.height - 1 - ux),
                        uy,
                    ));
                }
            },
        }
    }
    lemma_nearest_sq_unique(turned, tx, ty, d, t);
}

/// A squared distance as a sample: infinite where there is none.
pub open spec fn squared_sample<A: Arithmetic>(d: Option<u128>) -> u32 {
    match d {
        None => SAMPLE_INFINITY,
        Some(v) => narrow_of::<A>(tally_of::<A>(v as u64)),
    }
}

/// Squared distances as samples.
pub fn squared_samples<A: Arithmetic>(squared: &Vec<Option<u128>>) -> (out: Vec<u32>)
    requires
        lawful::<A>(),
        forall|i: int| 0 <= i < squared@.len() ==> (#[trigger] squared@[i] matches Some(v) ==> v <= u64::MAX),
    ensures
        out@ == squared@.map_values(|d: Option<u128>| squared_sample::<A>(d)),
{
    let mut out: Vec<u32> = Vec::new();
    let mut i: usize = 0;
    while i < squared.len()
        invariant
            lawful::<A>(),
            forall|j: int| 0 <= j < squared@.len() ==> (#[trigger] squared@[j] matches Some(v) ==> v <= u64::MAX),
            i <= squared@.len(),
            out@.len() == i,
            forall|j: int| 0 <= j < i ==> #[trigger] out@[j] == squared_sample::<A>(squared@[j]),
        decreases squared@.len() - i,
    {
        out.push(
            match squared[i] {
                None => SAMPLE_INFINITY,
                Some(v) => narrow::<A>(tally::<A>(v as u64)),
            },
        );
        i = i + 1;
    }
    out
}

/// The square roots of samples.
pub open spec fn rooted<A: Arithmetic>(squared: Seq<u32>) -> Seq<u32> {
    squared.map_values(|d2: u32| sample_root_of::<A>(d2))
}

/// Distances from squared distances: the square root of every sample.
pub fn distance<A: Arithmetic>(squared: &Vec<u32>) -> (out: Vec<u32>)
    requires
        lawful::<A>(),
    ensures
        out@ == squared@.map_values(|d2: u32| sample_root_of::<A>(d2)),
        out@ == rooted::<A>(squared@),
{
    let mut out: Vec<u32> = Vec::new();
    let mut i: usize = 0;
    while i < squared.len()
        invariant
            lawful::<A>(),
            i <= squared@.len(),
            out@.len() == i,
            forall|j: int| 0 <= j < i ==> #[trigger] out@[j] == sample_root_of::<A>(squared@[j]),
        decreases squared@.len() - i,
    {
        out.push(sample_root::<A>(squared[i]));
        i = i + 1;
    }
    out
}

/// No squared distance is greater than that of opposite corners.
pub proof fn law_distance_is_bounded(g: GridView, out: Seq<Option<u128>>, x: int, y: int)
    requires
        g.well_formed(),
        is_transform(g, out),
        g.has_cell(x, y),
    ensures
        out[at(x, y, g.width)] matches Some(v) ==> v <= square(g.width - 1) + square(g.height - 1),
{
    if let Some(v) = out[at(x, y, g.width)] {
        let (sx, sy) = choose|sx: int, sy: int|
            #[trigger] g.is_set(sx, sy) && v == sq_distance(x, y, sx, sy);
        assert((x - sx) * (x - sx) <= (g.width - 1) * (g.width - 1)) by (nonlinear_arith)
            requires
                0 <= x < g.width,
                0 <= sx < g.width,
        ;
        assert((y - sy) * (y - sy) <= (g.height - 1) * (g.height - 1)) by (nonlinear_arith)
            requires
                0 <= y < g.height,
                0 <= sy < g.height,
        ;
    }
}

} // verus!
