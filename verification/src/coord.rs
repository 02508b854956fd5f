//! Tile and pixel coordinate types.
//!
//! Coordinates use a top-left origin with +y down. Tiles live on an infinite
//! signed grid; negative tile coordinates are valid. All tile math uses floored
//! division so negative coordinates round toward negative infinity, not toward
//! zero.
use vstd::prelude::*;

use crate::tile::TILE_SIZE;

verus! {

/// An integer pixel position.
#[derive(Clone, Copy, Debug, PartialEq, Eq, Hash, Structural)]
pub struct IVec2 {
    /// Horizontal coordinate.
    pub x: i32,
    /// Vertical coordinate.
    pub y: i32,
}

/// A point with binary32 coordinates, given by their bit patterns.
#[derive(Clone, Copy, Debug)]
pub struct Vec2 {
    /// X coordinate.
    pub x: u32,
    /// Y coordinate.
    pub y: u32,
}

impl IVec2 {
    /// A position from its two coordinates.
    pub fn new(x: i32, y: i32) -> (r: Self)
        ensures
            r == (IVec2 { x, y }),
    {
        IVec2 { x, y }
    }

    /// The origin.
    pub fn zero() -> (r: Self)
        ensures
            r == (IVec2 { x: 0, y: 0 }),
    {
        IVec2 { x: 0, y: 0 }
    }

    /// The smaller of each coordinate.
    pub fn min(self, other: Self) -> (r: Self)
        ensures
            r.x == min_int(self.x as int, other.x as int),
            r.y == min_int(self.y as int, other.y as int),
    {
        IVec2 {
            x: if self.x <= other.x { self.x } else { other.x },
            y: if self.y <= other.y { self.y } else { other.y },
        }
    }

    /// The larger of each coordinate.
    pub fn max(self, other: Self) -> (r: Self)
        ensures
            r.x == max_int(self.x as int, other.x as int),
            r.y == max_int(self.y as int, other.y as int),
    {
        IVec2 {
            x: if self.x >= other.x { self.x } else { other.x },
            y: if self.y >= other.y { self.y } else { other.y },
        }
    }
}

/// The smaller of two integers.
pub open spec fn min_int(a: int, b: int) -> int {
    if a <= b { a } else { b }
}

/// The larger of two integers.
pub open spec fn max_int(a: int, b: int) -> int {
    if a >= b { a } else { b }
}

/// `v` brought into the range of an `i32`.
pub open spec fn clamp_i32(v: int) -> int {
    if v < i32::MIN { i32::MIN as int } else if v > i32::MAX { i32::MAX as int } else { v }
}

/// A length brought into the range of a `u32`.
pub open spec fn clamp_len(v: int) -> int {
    if v > u32::MAX { u32::MAX as int } else { v }
}

/// True if `v` fits in an `i32`.
pub open spec fn fits_i32(v: int) -> bool {
    i32::MIN <= v <= i32::MAX
}

fn min_i64(a: i64, b: i64) -> (r: i64)
    ensures
        r == min_int(a as int, b as int),
{
    if a <= b { a } else { b }
}

fn max_i64(a: i64, b: i64) -> (r: i64)
    ensures
        r == max_int(a as int, b as int),
{
    if a >= b { a } else { b }
}

fn clamp_to_i32(v: i64) -> (r: i64)
    ensures
        r == clamp_i32(v as int),
{
    if v < -0x8000_0000 { -0x8000_0000 } else if v > 0x7fff_ffff { 0x7fff_ffff } else { v }
}

fn clamp_to_len(v: i64) -> (r: u32)
    requires
        0 <= v,
    ensures
        r == clamp_len(v as int),
{
    if v > 0xffff_ffff { u32::MAX } else { v as u32 }
}

/// Tile side length as an `i32`.
pub fn tile_size_i() -> (r: i32)
    ensures
        r == TILE_SIZE,
{
    TILE_SIZE as i32
}

/// A tile coordinate on the infinite signed grid.
#[derive(Clone, Copy, Debug, PartialEq, Eq, Hash, Structural)]
pub struct TileCoord {
    /// Horizontal tile index.
    pub x: i32,
    /// Vertical tile index.
    pub y: i32,
}

/// An axis-aligned integer rectangle.
///
/// `(x, y)` is the top-left corner (inclusive); `w` and `h` are the width and
/// height in pixels. An empty rectangle has `w == 0` or `h == 0`.
#[derive(Clone, Copy, Debug, PartialEq, Eq, Structural)]
pub struct Rect {
    /// Left edge, inclusive.
    pub x: i32,
    /// Top edge, inclusive.
    pub y: i32,
    /// Width in pixels.
    pub w: u32,
    /// Height in pixels.
    pub h: u32,
}

/// The tile that holds the pixel at `p`.
pub open spec fn tile_of(p: IVec2) -> TileCoord {
    TileCoord { x: (p.x as int / 256) as i32, y: (p.y as int / 256) as i32 }
}

/// The index along one axis, inside its tile, of document coordinate `v`.
pub open spec fn local_index(v: int) -> int {
    v % 256
}

/// The document coordinate of local index `l` in the tile with index `c`, along
/// one axis.
pub open spec fn doc_index(c: int, l: int) -> int {
    c * 256 + l
}

/// Map a pixel coordinate to its containing tile and local tile pixel.
///
/// Uses floored division so negative document coordinates map to the correct
/// tile and local index (e.g. `(-1, -1)` is local `(255, 255)` of tile `(-1, -1)`).
pub fn pixel_to_tile(p: IVec2) -> (r: (TileCoord, usize, usize))
    ensures
        r.0 == tile_of(p),
        r.0.x == p.x as int / 256,
        r.0.y == p.y as int / 256,
        r.1 == local_index(p.x as int),
        r.2 == local_index(p.y as int),
        r.1 < TILE_SIZE,
        r.2 < TILE_SIZE,
{
    let t: i32 = tile_size_i();
    let tx: i32 = p.x.checked_div_euclid(t).unwrap();
    let ty: i32 = p.y.checked_div_euclid(t).unwrap();
    let lx: usize = p.x.checked_rem_euclid(t).unwrap() as usize;
    let ly: usize = p.y.checked_rem_euclid(t).unwrap() as usize;
    (TileCoord { x: tx, y: ty }, lx, ly)
}

/// Map a tile coordinate and local pixel index back to a document pixel
/// coordinate.
///
/// Returns `None` if the resulting coordinate does not fit in an `i32`.
pub fn tile_to_pixel(c: TileCoord, lx: usize, ly: usize) -> (r: Option<IVec2>)
    ensures
        r is Some <==> fits_i32(doc_index(c.x as int, lx as int)) && fits_i32(
            doc_index(c.y as int, ly as int),
        ),
        r matches Some(p) ==> p.x == doc_index(c.x as int, lx as int) && p.y == doc_index(
            c.y as int,
            ly as int,
        ),
{
    let x: i128 = c.x as i128 * 256 + lx as i128;
    let y: i128 = c.y as i128 * 256 + ly as i128;
    if x < -0x8000_0000 || x > 0x7fff_ffff || y < -0x8000_0000 || y > 0x7fff_ffff {
        None
    } else {
        Some(IVec2::new(x as i32, y as i32))
    }
}

/// Splitting any position into tile and local index, and joining the two
/// again, gives the position back.
pub proof fn tile_to_pixel_inverts_pixel_to_tile(p: IVec2)
    ensures
        doc_index(tile_of(p).x as int, local_index(p.x as int)) == p.x,
        doc_index(tile_of(p).y as int, local_index(p.y as int)) == p.y,
        0 <= local_index(p.x as int) < TILE_SIZE,
        0 <= local_index(p.y as int) < TILE_SIZE,
{
}

/// A tile and local index name one position only: splitting the position gives
/// the same tile and local index back.
pub proof fn pixel_to_tile_inverts_tile_to_pixel(c: TileCoord, lx: int, ly: int, p: IVec2)
    requires
        0 <= lx < TILE_SIZE,
        0 <= ly < TILE_SIZE,
        p.x == doc_index(c.x as int, lx),
        p.y == doc_index(c.y as int, ly),
    ensures
        tile_of(p) == c,
        local_index(p.x as int) == lx,
        local_index(p.y as int) == ly,
{
}

/// The pixel rectangle occupied by a single tile.
///
/// Returns `None` if the tile's origin does not fit in an `i32`.
pub fn tile_rect(c: TileCoord) -> (r: Option<Rect>)
    ensures
        r == tile_rect_spec(c),
{
    let x: i64 = c.x as i64 * 256;
    let y: i64 = c.y as i64 * 256;
    if x < -0x8000_0000 || x > 0x7fff_ffff || y < -0x8000_0000 || y > 0x7fff_ffff {
        return None;
    }
    Some(Rect::new(x as i32, y as i32, TILE_SIZE as u32, TILE_SIZE as u32))
}

/// The pixel rectangle of a tile whose origin fits in an `i32`.
pub open spec fn tile_rect_spec(c: TileCoord) -> Option<Rect> {
    if fits_i32(c.x * 256) && fits_i32(c.y * 256) {
        Some(Rect { x: (c.x * 256) as i32, y: (c.y * 256) as i32, w: 256, h: 256 })
    } else {
        None
    }
}

/// Convert a document-space coordinate to layer-local space given the layer
/// `offset` (`doc = local + offset`), returning `None` on `i32` overflow.
pub fn local_coord(doc_p: IVec2, offset: IVec2) -> (r: Option<IVec2>)
    ensures
        r == local_coord_spec(doc_p, offset),
{
    match (doc_p.x.checked_sub(offset.x), doc_p.y.checked_sub(offset.y)) {
        (Some(x), Some(y)) => Some(IVec2::new(x, y)),
        _ => None,
    }
}

/// Document position `doc_p` seen from a layer placed at `offset`.
pub open spec fn local_coord_spec(doc_p: IVec2, offset: IVec2) -> Option<IVec2> {
    if fits_i32(doc_p.x - offset.x) && fits_i32(doc_p.y - offset.y) {
        Some(IVec2 { x: (doc_p.x - offset.x) as i32, y: (doc_p.y - offset.y) as i32 })
    } else {
        None
    }
}

impl Rect {
    /// The exclusive right edge.
    pub open spec fn right_edge(self) -> int {
        self.x + self.w
    }

    /// The exclusive bottom edge.
    pub open spec fn bottom_edge(self) -> int {
        self.y + self.h
    }

    /// The set of points of the rectangle.
    pub open spec fn has(self, x: int, y: int) -> bool {
        self.x <= x < self.right_edge() && self.y <= y < self.bottom_edge()
    }

    /// True if the rectangle has no points.
    pub open spec fn empty(self) -> bool {
        self.w == 0 || self.h == 0
    }

    /// The first and last tile column, and the first and last tile row, that a
    /// non-empty rectangle touches.
    pub open spec fn tile_span(self) -> (int, int, int, int) {
        (
            self.x as int / 256,
            (self.right_edge() - 1) / 256,
            self.y as int / 256,
            (self.bottom_edge() - 1) / 256,
        )
    }

    /// Number of tile columns touched.
    pub open spec fn tile_cols(self) -> int {
        if self.empty() { 0 } else { self.tile_span().1 - self.tile_span().0 + 1 }
    }

    /// Number of tile rows touched.
    pub open spec fn tile_rows(self) -> int {
        if self.empty() { 0 } else { self.tile_span().3 - self.tile_span().2 + 1 }
    }

    /// True if the rectangle touches tile `c`.
    pub open spec fn touches(self, c: TileCoord) -> bool {
        !self.empty() && self.tile_span().0 <= c.x <= self.tile_span().1 && self.tile_span().2
            <= c.y <= self.tile_span().3
    }

    /// Create a rectangle from origin and size.
    pub fn new(x: i32, y: i32, w: u32, h: u32) -> (r: Self)
        ensures
            r == (Rect { x, y, w, h }),
    {
        Self { x, y, w, h }
    }

    /// Create the smallest rectangle containing both integer corners, inclusive.
    ///
    /// Overflowing dimensions are clamped to `u32::MAX`.
    pub fn from_corners(a: IVec2, b: IVec2) -> (r: Self)
        ensures
            r == Rect::from_corners_spec(a, b),
    {
        let left: i64 = min_i64(a.x as i64, b.x as i64);
        let top: i64 = min_i64(a.y as i64, b.y as i64);
        let right: i64 = max_i64(a.x as i64, b.x as i64) + 1;
        let bottom: i64 = max_i64(a.y as i64, b.y as i64) + 1;
        let w: u32 = clamp_to_len(right - left);
        let h: u32 = clamp_to_len(bottom - top);
        Self::new(left as i32, top as i32, w, h)
    }

    /// The smallest rectangle containing both integer corners.
    pub open spec fn from_corners_spec(a: IVec2, b: IVec2) -> Rect {
        let left = min_int(a.x as int, b.x as int);
        let top = min_int(a.y as int, b.y as int);
        Rect {
            x: left as i32,
            y: top as i32,
            w: clamp_len(max_int(a.x as int, b.x as int) + 1 - left) as u32,
            h: clamp_len(max_int(a.y as int, b.y as int) + 1 - top) as u32,
        }
    }

    /// Exclusive right edge (`x + w`).
    pub fn right(self) -> (r: i64)
        ensures
            r == self.right_edge(),
    {
        self.x as i64 + self.w as i64
    }

    /// Exclusive bottom edge (`y + h`).
    pub fn bottom(self) -> (r: i64)
        ensures
            r == self.bottom_edge(),
    {
        self.y as i64 + self.h as i64
    }

    /// True if the rectangle contains no pixels.
    pub fn is_empty(self) -> (r: bool)
        ensures
            r == self.empty(),
    {
        self.w == 0 || self.h == 0
    }

    /// Number of pixels in the rectangle, as `u64` to avoid overflow.
    pub fn area(self) -> (r: u64)
        ensures
            r == self.w * self.h,
    {
        assert(self.w * self.h <= 0xffff_ffff * 0xffff_ffff) by (nonlinear_arith)
            requires
                self.w <= 0xffff_ffff,
                self.h <= 0xffff_ffff,
        ;
        self.w as u64 * self.h as u64
    }

    /// True if the rectangle contains the point.
    pub fn contains(self, p: IVec2) -> (r: bool)
        ensures
            r == self.has(p.x as int, p.y as int),
    {
        let px: i64 = p.x as i64;
        let py: i64 = p.y as i64;
        px >= self.x as i64 && px < self.right() && py >= self.y as i64 && py < self.bottom()
    }

    /// The overlap of two rectangles: left, top, right and bottom edge.
    pub open spec fn overlap(self, other: Self) -> (int, int, int, int) {
        (
            max_int(self.x as int, other.x as int),
            max_int(self.y as int, other.y as int),
            min_int(self.right_edge(), other.right_edge()),
            min_int(self.bottom_edge(), other.bottom_edge()),
        )
    }

    /// The intersection of two rectangles, if they overlap.
    pub open spec fn intersect_spec(self, other: Self) -> Option<Rect> {
        let (l, t, r, b) = self.overlap(other);
        if l < r && t < b {
            Some(Rect { x: l as i32, y: t as i32, w: (r - l) as u32, h: (b - t) as u32 })
        } else {
            None
        }
    }

    /// Intersection of two rectangles, or `None` if they do not overlap.
    pub fn intersect(self, other: Self) -> (r: Option<Self>)
        ensures
            r == self.intersect_spec(other),
    {
        let left: i64 = max_i64(self.x as i64, other.x as i64);
        let top: i64 = max_i64(self.y as i64, other.y as i64);
        let right: i64 = min_i64(self.right(), other.right());
        let bottom: i64 = min_i64(self.bottom(), other.bottom());
        if left >= right || top >= bottom {
            return None;
        }
        Some(Self::new(left as i32, top as i32, (right - left) as u32, (bottom - top) as u32))
    }

    /// The smallest rectangle containing both, with its sides clamped.
    pub open spec fn union_spec(self, other: Self) -> Rect {
        let l = min_int(self.x as int, other.x as int);
        let t = min_int(self.y as int, other.y as int);
        Rect {
            x: l as i32,
            y: t as i32,
            w: clamp_len(max_int(self.right_edge(), other.right_edge()) - l) as u32,
            h: clamp_len(max_int(self.bottom_edge(), other.bottom_edge()) - t) as u32,
        }
    }

    /// Smallest rectangle containing both rectangles.
    ///
    /// Overflowing dimensions are clamped to `u32::MAX`.
    pub fn union(self, other: Self) -> (r: Self)
        ensures
            r == self.union_spec(other),
    {
        let left: i64 = min_i64(self.x as i64, other.x as i64);
        let top: i64 = min_i64(self.y as i64, other.y as i64);
        let right: i64 = max_i64(self.right(), other.right());
        let bottom: i64 = max_i64(self.bottom(), other.bottom());
        let w: u32 = clamp_to_len(right - left);
        let h: u32 = clamp_to_len(bottom - top);
        Self::new(left as i32, top as i32, w, h)
    }

    /// The rectangle with every edge moved outwards by `m` (inwards if `m` is
    /// negative), each edge clamped to the `i32` range.
    pub open spec fn outset(self, m: int) -> Rect {
        if self.empty() {
            self
        } else {
            let l = clamp_i32(self.x - m);
            let t = clamp_i32(self.y - m);
            let r = clamp_i32(self.right_edge() + m);
            let b = clamp_i32(self.bottom_edge() + m);
            if r <= l || b <= t {
                Rect { x: l as i32, y: t as i32, w: 0, h: 0 }
            } else {
                Rect { x: l as i32, y: t as i32, w: (r - l) as u32, h: (b - t) as u32 }
            }
        }
    }

    fn moved_edges(self, m: i64) -> (r: Self)
        requires
            -0x8000_0000 <= m <= 0x8000_0000,
        ensures
            r == self.outset(m as int),
    {
        if self.is_empty() {
            return self;
        }
        let left: i64 = clamp_to_i32(self.x as i64 - m);
        let top: i64 = clamp_to_i32(self.y as i64 - m);
        let right: i64 = clamp_to_i32(self.right() + m);
        let bottom: i64 = clamp_to_i32(self.bottom() + m);
        if right <= left || bottom <= top {
            return Self::new(left as i32, top as i32, 0, 0);
        }
        Self::new(left as i32, top as i32, (right - left) as u32, (bottom - top) as u32)
    }

    /// Expand this rectangle by `margin` pixels on all sides.
    ///
    /// Overflowing coordinates are clamped to `i32` range. An empty rectangle
    /// is returned unchanged.
    pub fn expand(self, margin: i32) -> (r: Self)
        ensures
            r == self.outset(margin as int),
    {
        self.moved_edges(margin as i64)
    }

    /// Shrink this rectangle by `margin` pixels on all sides.
    ///
    /// If the margin is larger than half the rectangle's size, an empty
    /// rectangle is returned. Overflowing coordinates are clamped to `i32` range.
    pub fn shrink(self, margin: i32) -> (r: Self)
        ensures
            r == self.outset(-(margin as int)),
    {
        self.moved_edges(-(margin as i64))
    }

    /// Every tile coordinate touched by this rectangle, row by row.
    pub fn tiles_covered(self) -> (out: Vec<TileCoord>)
        ensures
            out@.len() == self.tile_cols() * self.tile_rows(),
            forall|i: int, j: int|
                #![trigger out@[i * self.tile_cols() + j]]
                0 <= i < self.tile_rows() && 0 <= j < self.tile_cols() ==> out@[i
                    * self.tile_cols() + j] == (TileCoord {
                    x: (self.tile_span().0 + j) as i32,
                    y: (self.tile_span().2 + i) as i32,
                }),
            forall|k: int| 0 <= k < out@.len() ==> self.touches(#[trigger] out@[k]),
            forall|c: TileCoord| #[trigger] out@.contains(c) <==> self.touches(c),
            out@.no_duplicates(),
    {
        let mut out: Vec<TileCoord> = Vec::new();
        if self.is_empty() {
            assert(0 * self.tile_rows() == 0);
            assert(self.tile_cols() * self.tile_rows() == 0);
            return out;
        }
        let t: i64 = tile_size_i() as i64;
        let tx_start: i64 = (self.x as i64).checked_div_euclid(t).unwrap();
        let tx_end: i64 = (self.right() - 1).checked_div_euclid(t).unwrap();
        let ty_start: i64 = (self.y as i64).checked_div_euclid(t).unwrap();
        let ty_end: i64 = (self.bottom() - 1).checked_div_euclid(t).unwrap();
        let ghost cols = self.tile_cols();
        let ghost rows = self.tile_rows();
        assert(cols == tx_end - tx_start + 1);
        let mut ty: i64 = ty_start;
        while ty <= ty_end
            invariant
                !self.empty(),
                self.tile_span() == (tx_start as int, tx_end as int, ty_start as int, ty_end as int),
                cols == self.tile_cols(),
                rows == self.tile_rows(),
                cols == tx_end - tx_start + 1,
                rows == ty_end - ty_start + 1,
                ty_start <= ty <= ty_end + 1,
                -0x100_0000 <= tx_start <= tx_end <= 0x200_0000,
                -0x100_0000 <= ty_start <= ty_end <= 0x200_0000,
                out@.len() == (ty - ty_start) * cols,
                grid_filled(out@, self, cols, ty - ty_start, 0),
            decreases ty_end + 1 - ty,
        {
            let mut tx: i64 = tx_start;
            let ghost i = ty - ty_start;
            while tx <= tx_end
                invariant
                    !self.empty(),
                    self.tile_span() == (
                        tx_start as int,
                        tx_end as int,
                        ty_start as int,
                        ty_end as int,
                    ),
                    cols == self.tile_cols(),
                    rows == self.tile_rows(),
                    cols == tx_end - tx_start + 1,
                    rows == ty_end - ty_start + 1,
                    ty_start <= ty <= ty_end,
                    tx_start <= tx <= tx_end + 1,
                    -0x100_0000 <= tx_start <= tx_end <= 0x200_0000,
                    -0x100_0000 <= ty_start <= ty_end <= 0x200_0000,
                    i == ty - ty_start,
                    out@.len() == i * cols + (tx - tx_start),
                    grid_filled(out@, self, cols, i, tx - tx_start),
                decreases tx_end + 1 - tx,
            {
                let ghost before = out@;
                out.push(TileCoord { x: tx as i32, y: ty as i32 });
                proof {
                    let j = tx - tx_start;
                    assert forall|a: int, b: int|
                        #![trigger out@[a * cols + b]]
                        0 <= b < cols && 0 <= a && (a < i || (a == i && b < j + 1)) implies out@[a
                        * cols + b] == (TileCoord {
                        x: (self.tile_span().0 + b) as i32,
                        y: (self.tile_span().2 + a) as i32,
                    }) && a * cols + b < out@.len() by {
                        if a < i {
                            assert((a + 1) * cols <= i * cols) by (nonlinear_arith)
                                requires
                                    a < i,
                                    cols >= 0,
                            ;
                            assert((a + 1) * cols == a * cols + cols) by (nonlinear_arith);
                            assert(before[a * cols + b] == out@[a * cols + b]) by {
                                assert(0 <= a * cols) by (nonlinear_arith)
                                    requires
                                        0 <= a,
                                        cols >= 0,
                                ;
                            }
                        } else {
                            assert(0 <= i * cols) by (nonlinear_arith)
                                requires
                                    0 <= i,
                                    cols >= 0,
                            ;
                            if b < j {
                                assert(before[a * cols + b] == out@[a * cols + b]);
                            }
                        }
                    }
                }
                tx = tx + 1;
            }
            proof {
                assert(i * cols + cols == (i + 1) * cols) by (nonlinear_arith);
                assert forall|a: int, b: int|
                    #![trigger out@[a * cols + b]]
                    0 <= b < cols && 0 <= a && (a < i + 1 || (a == i + 1 && b < 0)) implies out@[a
                    * cols + b] == (TileCoord {
                    x: (self.tile_span().0 + b) as i32,
                    y: (self.tile_span().2 + a) as i32,
                }) && a * cols + b < out@.len() by {}
            }
            ty = ty + 1;
        }
        proof {
            lemma_grid(out@, self);
        }
        out
    }
}

/// The first `rows` rows of the tile grid of `r`, and `extra` tiles of the next
/// row, stand in `s`.
spec fn grid_filled(s: Seq<TileCoord>, r: Rect, cols: int, rows: int, extra: int) -> bool {
    forall|a: int, b: int|
        #![trigger s[a * cols + b]]
        0 <= b < cols && 0 <= a && (a < rows || (a == rows && b < extra)) ==> s[a * cols + b] == (
        TileCoord { x: (r.tile_span().0 + b) as i32, y: (r.tile_span().2 + a) as i32 }) && a * cols
            + b < s.len()
}

proof fn lemma_grid(s: Seq<TileCoord>, r: Rect)
    requires
        !r.empty(),
        s.len() == r.tile_rows() * r.tile_cols(),
        grid_filled(s, r, r.tile_cols(), r.tile_rows(), 0),
    ensures
        s.len() == r.tile_cols() * r.tile_rows(),
        forall|k: int| 0 <= k < s.len() ==> r.touches(#[trigger] s[k]),
        forall|c: TileCoord| #[trigger] s.contains(c) <==> r.touches(c),
        s.no_duplicates(),
{
    let cols = r.tile_cols();
    let rows = r.tile_rows();
    assert(rows * cols == cols * rows) by (nonlinear_arith);
    assert forall|k: int| 0 <= k < s.len() implies r.touches(#[trigger] s[k]) && s[k].x
        == r.tile_span().0 + k % cols && s[k].y == r.tile_span().2 + k / cols by {
        lemma_split(k, cols, rows);
        assert(s[(k / cols) * cols + k % cols] == s[k]);
    }
    assert forall|c: TileCoord| r.touches(c) implies #[trigger] s.contains(c) by {
        let a = c.y - r.tile_span().2;
        let b = c.x - r.tile_span().0;
        assert(s[a * cols + b] == c);
        assert(0 <= a * cols) by (nonlinear_arith)
            requires
                a >= 0,
                cols >= 0,
        ;
        assert(0 <= a * cols + b < s.len());
    }
    assert forall|i: int, j: int| 0 <= i < s.len() && 0 <= j < s.len() && i != j implies s[i]
        != s[j] by {
        lemma_split(i, cols, rows);
        lemma_split(j, cols, rows);
        assert(r.touches(s[i]) && r.touches(s[j]));
    }
}

proof fn lemma_split(k: int, cols: int, rows: int)
    by (nonlinear_arith)
    requires
        cols > 0,
        0 <= k < rows * cols,
    ensures
        k == (k / cols) * cols + k % cols,
        0 <= k % cols < cols,
        0 <= k / cols < rows,
{
}

/// A point lies in the intersection of two rectangles exactly if it lies in
/// both, and there is no intersection exactly if no point lies in both.
pub proof fn intersect_is_the_common_points(a: Rect, b: Rect, x: int, y: int)
    ensures
        a.has(x, y) && b.has(x, y) <==> (a.intersect_spec(b) matches Some(r) && r.has(x, y)),
        a.intersect_spec(b) is None <==> forall|u: int, v: int| !(a.has(u, v) && b.has(u, v)),
        a.intersect_spec(b) == b.intersect_spec(a),
        a.intersect_spec(b) matches Some(r) ==> !r.empty(),
{
    let (l, t, r, bo) = a.overlap(b);
    if l < r && t < bo {
        assert(a.has(l, t) && b.has(l, t));
    }
}

/// Both rectangles lie in their union, as far as the union's sides are not
/// clamped.
pub proof fn union_covers_both(a: Rect, b: Rect, x: int, y: int)
    requires
        max_int(a.right_edge(), b.right_edge()) - min_int(a.x as int, b.x as int) <= u32::MAX,
        max_int(a.bottom_edge(), b.bottom_edge()) - min_int(a.y as int, b.y as int) <= u32::MAX,
        a.has(x, y) || b.has(x, y),
    ensures
        a.union_spec(b).has(x, y),
        a.union_spec(b) == b.union_spec(a),
{
}

/// A pixel lies in a rectangle only if the rectangle touches the pixel's tile.
pub proof fn pixels_lie_in_touched_tiles(r: Rect, p: IVec2)
    requires
        r.has(p.x as int, p.y as int),
    ensures
        r.touches(tile_of(p)),
        tile_rect_spec(tile_of(p)) matches Some(t) && t.has(p.x as int, p.y as int),
{
}

} // verus!
