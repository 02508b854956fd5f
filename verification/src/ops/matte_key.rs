//! Detecting a background matte from the border of a layer.
use vstd::prelude::*;

use crate::buffer::{pixel_at, TiledBuffer};
use crate::buffer_region::{pixel_or_clear, rect_slot};
use crate::coord::{IVec2, Rect};
use crate::float_bits::{at_most, is_at_most, magnitude, F_SIGN};
use crate::ops::grid::slot_in;
use crate::ops::matte_math::MatteKernel;
use crate::pixel::{sanitize, sanitized, Rgba32F};

verus! {

/// Fraction of border pixels that must match for a solid matte: `0.9`.
pub const SOLID_COVERAGE: u32 = 0x3f66_6666;

/// Fraction of border pixels that must match the reconstructed checkerboard:
/// `0.95`.
pub const CHECKER_COVERAGE: u32 = 0x3f73_3333;

/// The gap between one and the next larger number: `2⁻²³`.
pub const F_EPSILON: u32 = 0x3400_0000;

/// The pixels of a rectangle.
pub struct Block {
    rect: Rect,
    data: Vec<Rgba32F>,
}

impl Block {
    /// There is one pixel per place of the rectangle.
    pub closed spec fn wf(&self) -> bool {
        &&& self.rect.w * self.rect.h <= u32::MAX
        &&& self.data@.len() == self.rect.w * self.rect.h
    }

    /// The rectangle.
    pub closed spec fn area(&self) -> Rect {
        self.rect
    }

    /// The pixel at `p`.
    pub closed spec fn px(&self, p: IVec2) -> Rgba32F {
        self.data@[rect_slot(self.rect, p.x as int, p.y as int)]
    }

    /// The block holds the pixels of a buffer.
    pub open spec fn shows(&self, m: Map<(i32, i32), Seq<Rgba32F>>) -> bool {
        forall|p: IVec2|
            self.area().has(p.x as int, p.y as int) ==> #[trigger] self.px(p) == pixel_at(m, p)
    }

    /// Read the pixels of a rectangle.
    pub fn read(buffer: &TiledBuffer, rect: Rect) -> (b: Self)
        requires
            buffer.wf(),
            rect.w * rect.h <= u32::MAX,
        ensures
            b.wf(),
            b.area() == rect,
            b.shows(buffer@),
    {
        let data: Vec<Rgba32F> = buffer.read_rect(rect);
        let b = Block { rect, data };
        proof {
            assert forall|p: IVec2| b.area().has(p.x as int, p.y as int) implies #[trigger] b.px(p)
                == pixel_at(buffer@, p) by {
                let i = rect_slot(rect, p.x as int, p.y as int);
                assert(b.data@[i] == pixel_or_clear(buffer@, p.x as int, p.y as int));
            }
        }
        b
    }

    /// The pixel at a position of the rectangle.
    pub fn get(&self, p: IVec2) -> (r: Rgba32F)
        requires
            self.wf(),
            self.area().has(p.x as int, p.y as int),
        ensures
            r == self.px(p),
    {
        self.data[slot_in(self.rect, p)]
    }

    /// The rectangle.
    pub fn bounds(&self) -> (r: Rect)
        ensures
            r == self.area(),
    {
        self.rect
    }
}

/// A detected background matte, in layer-local coordinates.
#[derive(Clone, Copy, Debug)]
pub enum MatteKey {
    /// Uniform background fill.
    Solid(Rgba32F),
    /// Transparency checkerboard: two colors on a regular grid of cells of `tile`
    /// pixels. `c_even` is the color of cells with even parity relative to
    /// `origin`.
    Checker {
        /// The color of even cells.
        c_even: Rgba32F,
        /// The color of odd cells.
        c_odd: Rgba32F,
        /// The side of a cell.
        tile: i64,
        /// The corner of an even cell.
        origin: IVec2,
    },
}

/// `p` lies in an even cell of the grid of `tile`-sized cells at `origin`.
pub open spec fn even_cell(origin: IVec2, tile: int, p: IVec2) -> bool {
    ((p.x - origin.x) / tile + (p.y - origin.y) / tile) % 2 == 0
}

impl MatteKey {
    /// The cells of a checkerboard are not empty.
    pub open spec fn wf(self) -> bool {
        self matches MatteKey::Checker { tile, .. } ==> 0 < tile <= u32::MAX
    }

    /// The background color the matte predicts at `p`.
    pub open spec fn color(self, p: IVec2) -> Rgba32F {
        match self {
            MatteKey::Solid(c) => c,
            MatteKey::Checker { c_even, c_odd, tile, origin } => if even_cell(
                origin,
                tile as int,
                p,
            ) {
                c_even
            } else {
                c_odd
            },
        }
    }
}

fn floor_div(a: i64, d: i64) -> (q: i64)
    requires
        0 < d <= u32::MAX,
        -0x1_0000_0000 <= a <= 0x1_0000_0000,
    ensures
        q == a as int / d as int,
        -0x1_0000_0000 <= q <= 0x1_0000_0000,
{
    if a >= 0 {
        let q: u64 = a as u64 / d as u64;
        assert(0 <= a as int / d as int <= a) by (nonlinear_arith)
            requires
                a >= 0,
                d > 0,
        ;
        q as i64
    } else {
        let n: u64 = (-a - 1) as u64;
        let q: u64 = n / d as u64;
        let r: i64 = -(q as i64) - 1;
        proof {
            let (ai, di, ni, qi) = (a as int, d as int, n as int, q as int);
            assert(ni == di * qi + ni % di && 0 <= ni % di < di) by (nonlinear_arith)
                requires
                    qi == ni / di,
                    di > 0,
            ;
            let rest = di - ni % di - 1;
            assert(ai == (-qi - 1) * di + rest) by (nonlinear_arith)
                requires
                    ai == -ni - 1,
                    ni == di * qi + ni % di,
                    rest == di - ni % di - 1,
            ;
            vstd::arithmetic::div_mod::lemma_fundamental_div_mod_converse(ai, di, -qi - 1, rest);
            assert(0 <= qi <= ni) by (nonlinear_arith)
                requires
                    qi == ni / di,
                    di > 0,
                    ni >= 0,
            ;
        }
        r
    }
}

fn is_even_cell(origin: IVec2, tile: i64, p: IVec2) -> (r: bool)
    requires
        0 < tile <= u32::MAX,
    ensures
        r == even_cell(origin, tile as int, p),
{
    let jx: i64 = floor_div(p.x as i64 - origin.x as i64, tile);
    let jy: i64 = floor_div(p.y as i64 - origin.y as i64, tile);
    let s: i64 = jx + jy;
    let n: u64 = (s + 0x4_0000_0000) as u64;
    n % 2 == 0
}

/// The background color the matte predicts at a layer-local pixel.
pub fn key_at(key: &MatteKey, p: IVec2) -> (c: Rgba32F)
    requires
        key.wf(),
    ensures
        c == key.color(p),
{
    match key {
        MatteKey::Solid(c) => *c,
        MatteKey::Checker { c_even, c_odd, tile, origin } => if is_even_cell(*origin, *tile, p) {
            *c_even
        } else {
            *c_odd
        },
    }
}

/// Entry `n` of the border ring of a rectangle: the top and bottom pixels of each
/// column, then the left and right pixels of each row.
pub open spec fn ring_at(r: Rect, n: int) -> IVec2 {
    if n < 2 * r.w {
        IVec2 {
            x: (r.x + n / 2) as i32,
            y: (if n % 2 == 0 { r.y as int } else { r.y + r.h - 1 }) as i32,
        }
    } else {
        let k = n - 2 * r.w;
        IVec2 {
            x: (if k % 2 == 0 { r.x as int } else { r.x + r.w - 1 }) as i32,
            y: (r.y + k / 2) as i32,
        }
    }
}

/// The border ring with its colors.
pub open spec fn border(m: Map<(i32, i32), Seq<Rgba32F>>, r: Rect) -> Seq<(IVec2, Rgba32F)> {
    Seq::new(
        (2 * (r.w + r.h)) as nat,
        |n: int| (ring_at(r, n), sanitized(pixel_at(m, ring_at(r, n)))),
    )
}

/// A rectangle that is not empty, small enough to be read, and within the `i32`
/// coordinates.
pub open spec fn readable(r: Rect) -> bool {
    &&& r.w > 0
    &&& r.h > 0
    &&& r.w * r.h <= u32::MAX
    &&& r.right_edge() <= 0x8000_0000
    &&& r.bottom_edge() <= 0x8000_0000
}

fn border_entry(block: &Block, p: IVec2) -> (e: (IVec2, Rgba32F))
    requires
        block.wf(),
        block.area().has(p.x as int, p.y as int),
    ensures
        e == (p, sanitized(block.px(p))),
{
    (p, sanitize(block.get(p)))
}

/// Collect the border ring as `(layer-local coordinate, color)` pairs.
pub(crate) fn border_pixels(
    block: &Block,
    Ghost(m): Ghost<Map<(i32, i32), Seq<Rgba32F>>>,
) -> (out: Vec<(IVec2, Rgba32F)>)
    requires
        block.wf(),
        block.shows(m),
        readable(block.area()),
    ensures
        out@ == border(m, block.area()),
{
    let r: Rect = block.bounds();
    let ghost b = border(m, r);
    let mut out: Vec<(IVec2, Rgba32F)> = Vec::new();
    let right: i32 = (r.right() - 1) as i32;
    let bottom: i32 = (r.bottom() - 1) as i32;
    let mut i: u32 = 0;
    while i < r.w
        invariant
            block.wf(),
            block.shows(m),
            r == block.area(),
            readable(r),
            b == border(m, r),
            bottom == r.bottom_edge() - 1,
            i <= r.w,
            out@ =~= b.take(2 * i),
        decreases r.w - i,
    {
        let x: i32 = (r.x as i64 + i as i64) as i32;
        let e0: (IVec2, Rgba32F) = border_entry(block, IVec2::new(x, r.y));
        let e1: (IVec2, Rgba32F) = border_entry(block, IVec2::new(x, bottom));
        proof {
            assert((2 * i) / 2 == i && (2 * i + 1) / 2 == i && (2 * i) % 2 == 0 && (2 * i + 1) % 2
                == 1);
            assert(b[2 * i] == e0);
            assert(b[2 * i + 1] == e1);
        }
        out.push(e0);
        out.push(e1);
        i = i + 1;
    }
    let mut j: u32 = 0;
    while j < r.h
        invariant
            block.wf(),
            block.shows(m),
            r == block.area(),
            readable(r),
            b == border(m, r),
            right == r.right_edge() - 1,
            j <= r.h,
            out@ =~= b.take(2 * r.w + 2 * j),
        decreases r.h - j,
    {
        let y: i32 = (r.y as i64 + j as i64) as i32;
        let e0: (IVec2, Rgba32F) = border_entry(block, IVec2::new(r.x, y));
        let e1: (IVec2, Rgba32F) = border_entry(block, IVec2::new(right, y));
        proof {
            assert((2 * j) / 2 == j && (2 * j + 1) / 2 == j && (2 * j) % 2 == 0 && (2 * j + 1) % 2
                == 1);
            assert(b[2 * r.w + 2 * j] == e0);
            assert(b[2 * r.w + 2 * j + 1] == e1);
        }
        out.push(e0);
        out.push(e1);
        j = j + 1;
    }
    assert(out@ =~= b);
    out
}

/// The colors of border entries.
pub open spec fn colors(b: Seq<(IVec2, Rgba32F)>) -> Seq<Rgba32F> {
    b.map_values(|e: (IVec2, Rgba32F)| e.1)
}

fn colors_of(b: &Vec<(IVec2, Rgba32F)>) -> (v: Vec<Rgba32F>)
    ensures
        v@ == colors(b@),
{
    let mut v: Vec<Rgba32F> = Vec::new();
    let mut i: usize = 0;
    while i < b.len()
        invariant
            i <= b@.len(),
            v@ =~= colors(b@).take(i as int),
        decreases b@.len() - i,
    {
        v.push(b[i].1);
        i = i + 1;
    }
    assert(v@ =~= colors(b@));
    v
}

/// The colors whose squared distance from `key` is at most `limit`.
pub open spec fn inliers<M: MatteKernel>(
    math: &M,
    cs: Seq<Rgba32F>,
    key: Rgba32F,
    limit: u32,
) -> Seq<Rgba32F>
    decreases cs.len(),
{
    if cs.len() == 0 {
        Seq::empty()
    } else {
        let rest = inliers(math, cs.drop_last(), key, limit);
        if at_most(math.apart(cs.last(), key), limit) { rest.push(cs.last()) } else { rest }
    }
}

fn inliers_of<M: MatteKernel>(
    math: &M,
    cs: &Vec<Rgba32F>,
    key: Rgba32F,
    limit: u32,
) -> (v: Vec<Rgba32F>)
    requires
        math.wf(),
    ensures
        v@ == inliers(math, cs@, key, limit),
{
    let mut v: Vec<Rgba32F> = Vec::new();
    let mut i: usize = 0;
    while i < cs.len()
        invariant
            math.wf(),
            i <= cs@.len(),
            v@ == inliers(math, cs@.take(i as int), key, limit),
        decreases cs@.len() - i,
    {
        let c: Rgba32F = cs[i];
        proof {
            assert(cs@.take(i + 1).drop_last() =~= cs@.take(i as int));
            assert(cs@.take(i + 1).last() == c);
        }
        if is_at_most(math.distance(c, key), limit) {
            v.push(c);
        }
        i = i + 1;
    }
    assert(cs@.take(i as int) =~= cs@);
    v
}

/// A key refined by averaging the colors near it, at most `n` times.
pub open spec fn refined<M: MatteKernel>(
    math: &M,
    cs: Seq<Rgba32F>,
    key: Rgba32F,
    limit: u32,
    n: nat,
) -> Rgba32F
    decreases n,
{
    if n == 0 {
        key
    } else {
        let next = math.mean_of(inliers(math, cs, key, limit));
        if at_most(math.apart(next, key), F_EPSILON) {
            next
        } else {
            refined(math, cs, next, limit, (n - 1) as nat)
        }
    }
}

/// The uniform matte of a border, if there is one.
pub open spec fn solid_key<M: MatteKernel>(
    math: &M,
    b: Seq<(IVec2, Rgba32F)>,
    tolerance: u32,
) -> Option<MatteKey> {
    let cs = colors(b);
    let limit = math.times(tolerance, tolerance);
    let key = refined(math, cs, math.mean_of(cs), limit, 4);
    if math.is_share(
        inliers(math, cs, key, limit).len() as usize,
        cs.len() as usize,
        SOLID_COVERAGE,
    ) {
        Some(MatteKey::Solid(key))
    } else {
        None
    }
}

/// Detect a uniform matte: the mean of the border, re-averaged over its inliers a
/// few times so that outliers do not skew it.
pub fn detect_solid<M: MatteKernel>(
    math: &M,
    border: &Vec<(IVec2, Rgba32F)>,
    tolerance: u32,
) -> (r: Option<MatteKey>)
    requires
        math.wf(),
    ensures
        r == solid_key(math, border@, tolerance),
{
    let cs: Vec<Rgba32F> = colors_of(border);
    let limit: u32 = math.product(tolerance, tolerance);
    let mut key: Rgba32F = math.mean(&cs);
    let ghost goal = refined(math, cs@, key, limit, 4);
    let mut n: usize = 4;
    let mut settled: bool = false;
    while n > 0 && !settled
        invariant
            math.wf(),
            n <= 4,
            goal == (if settled { key } else { refined(math, cs@, key, limit, n as nat) }),
        decreases n,
    {
        let near: Vec<Rgba32F> = inliers_of(math, &cs, key, limit);
        let next: Rgba32F = math.mean(&near);
        settled = is_at_most(math.distance(next, key), F_EPSILON);
        key = next;
        n = n - 1;
    }
    let near: Vec<Rgba32F> = inliers_of(math, &cs, key, limit);
    if math.reaches(near.len(), cs.len(), SOLID_COVERAGE) {
        Some(MatteKey::Solid(key))
    } else {
        None
    }
}

/// The place of a number in the total order of all patterns.
pub open spec fn total_rank(b: u32) -> int {
    if b >= F_SIGN { -magnitude(b) - 1 } else { magnitude(b) }
}

fn total_rank_of(b: u32) -> (r: i64)
    ensures
        r == total_rank(b),
{
    if b >= F_SIGN { -((b - F_SIGN) as i64) - 1 } else { b as i64 }
}

/// The first darkest color.
pub open spec fn darkest<M: MatteKernel>(math: &M, cs: Seq<Rgba32F>) -> Rgba32F
    decreases cs.len(),
{
    if cs.len() <= 1 {
        cs[0]
    } else {
        let d = darkest(math, cs.drop_last());
        if total_rank(math.brightness(cs.last())) < total_rank(math.brightness(d)) {
            cs.last()
        } else {
            d
        }
    }
}

/// The last lightest color.
pub open spec fn lightest<M: MatteKernel>(math: &M, cs: Seq<Rgba32F>) -> Rgba32F
    decreases cs.len(),
{
    if cs.len() <= 1 {
        cs[0]
    } else {
        let d = lightest(math, cs.drop_last());
        if total_rank(math.brightness(cs.last())) >= total_rank(math.brightness(d)) {
            cs.last()
        } else {
            d
        }
    }
}

fn extremes<M: MatteKernel>(math: &M, cs: &Vec<Rgba32F>) -> (r: (Rgba32F, Rgba32F))
    requires
        math.wf(),
        cs@.len() > 0,
    ensures
        r == (darkest(math, cs@), lightest(math, cs@)),
{
    let mut lo: Rgba32F = cs[0];
    let mut hi: Rgba32F = cs[0];
    let mut i: usize = 1;
    assert(cs@.take(1)[0] == cs@[0]);
    while i < cs.len()
        invariant
            math.wf(),
            1 <= i <= cs@.len(),
            lo == darkest(math, cs@.take(i as int)),
            hi == lightest(math, cs@.take(i as int)),
        decreases cs@.len() - i,
    {
        let c: Rgba32F = cs[i];
        proof {
            assert(cs@.take(i + 1).drop_last() =~= cs@.take(i as int));
            assert(cs@.take(i + 1).last() == c);
        }
        let v: i64 = total_rank_of(math.luma(c));
        let vl: i64 = total_rank_of(math.luma(lo));
        let vh: i64 = total_rank_of(math.luma(hi));
        if v < vl {
            lo = c;
        }
        if v >= vh {
            hi = c;
        }
        i = i + 1;
    }
    assert(cs@.take(i as int) =~= cs@);
    (lo, hi)
}

/// The colors at least as near to `m0` as to `m1`, and the others.
pub open spec fn halves<M: MatteKernel>(
    math: &M,
    cs: Seq<Rgba32F>,
    m0: Rgba32F,
    m1: Rgba32F,
) -> (Seq<Rgba32F>, Seq<Rgba32F>)
    decreases cs.len(),
{
    if cs.len() == 0 {
        (Seq::empty(), Seq::empty())
    } else {
        let h = halves(math, cs.drop_last(), m0, m1);
        let c = cs.last();
        if at_most(math.apart(c, m0), math.apart(c, m1)) {
            (h.0.push(c), h.1)
        } else {
            (h.0, h.1.push(c))
        }
    }
}

/// The mean of some colors, or the fallback if there are none.
pub open spec fn centroid<M: MatteKernel>(
    math: &M,
    cs: Seq<Rgba32F>,
    fallback: Rgba32F,
) -> Rgba32F {
    if cs.len() == 0 { fallback } else { math.mean_of(cs) }
}

/// Two colors moved to the means of their halves `n` times.
pub open spec fn settled_means<M: MatteKernel>(
    math: &M,
    cs: Seq<Rgba32F>,
    m0: Rgba32F,
    m1: Rgba32F,
    n: nat,
) -> (Rgba32F, Rgba32F)
    decreases n,
{
    if n == 0 {
        (m0, m1)
    } else {
        let h = halves(math, cs, m0, m1);
        settled_means(
            math,
            cs,
            centroid(math, h.0, m0),
            centroid(math, h.1, m1),
            (n - 1) as nat,
        )
    }
}

/// The two colors that the colors cluster around.
pub open spec fn two_clusters<M: MatteKernel>(
    math: &M,
    cs: Seq<Rgba32F>,
) -> Option<(Rgba32F, Rgba32F)> {
    if cs.len() < 2 {
        None
    } else {
        Some(settled_means(math, cs, darkest(math, cs), lightest(math, cs), 8))
    }
}

fn centroid_of<M: MatteKernel>(math: &M, cs: &Vec<Rgba32F>, fallback: Rgba32F) -> (r: Rgba32F)
    requires
        math.wf(),
    ensures
        r == centroid(math, cs@, fallback),
{
    if cs.len() == 0 { fallback } else { math.mean(cs) }
}

/// Two-color k-means over a list of colors, seeded by the luminance extremes.
pub fn two_means<M: MatteKernel>(
    math: &M,
    cs: &Vec<Rgba32F>,
) -> (r: Option<(Rgba32F, Rgba32F)>)
    requires
        math.wf(),
    ensures
        r == two_clusters(math, cs@),
{
    if cs.len() < 2 {
        return None;
    }
    let e: (Rgba32F, Rgba32F) = extremes(math, cs);
    let mut m0: Rgba32F = e.0;
    let mut m1: Rgba32F = e.1;
    let ghost goal = settled_means(math, cs@, m0, m1, 8);
    let mut n: usize = 8;
    while n > 0
        invariant
            math.wf(),
            n <= 8,
            goal == settled_means(math, cs@, m0, m1, n as nat),
        decreases n,
    {
        let mut a: Vec<Rgba32F> = Vec::new();
        let mut b: Vec<Rgba32F> = Vec::new();
        let mut i: usize = 0;
        while i < cs.len()
            invariant
                math.wf(),
                i <= cs@.len(),
                (a@, b@) == halves(math, cs@.take(i as int), m0, m1),
            decreases cs@.len() - i,
        {
            let c: Rgba32F = cs[i];
            proof {
                assert(cs@.take(i + 1).drop_last() =~= cs@.take(i as int));
                assert(cs@.take(i + 1).last() == c);
            }
            if is_at_most(math.distance(c, m0), math.distance(c, m1)) {
                a.push(c);
            } else {
                b.push(c);
            }
            i = i + 1;
        }
        assert(cs@.take(i as int) =~= cs@);
        m0 = centroid_of(math, &a, m0);
        m1 = centroid_of(math, &b, m1);
        n = n - 1;
    }
    Some((m0, m1))
}

/// The places before `n` where a sequence changes.
pub open spec fn changes(seq: Seq<usize>, n: int) -> Seq<usize>
    decreases n,
{
    if n <= 1 {
        Seq::empty()
    } else if seq[n - 1] != seq[n - 2] {
        changes(seq, n - 1).push((n - 1) as usize)
    } else {
        changes(seq, n - 1)
    }
}

/// Indices where the value differs from the one before.
pub fn transitions(seq: &Vec<usize>) -> (out: Vec<usize>)
    ensures
        out@ == changes(seq@, seq@.len() as int),
{
    let mut out: Vec<usize> = Vec::new();
    let mut i: usize = 1;
    if seq.len() == 0 {
        return out;
    }
    while i < seq.len()
        invariant
            1 <= i <= seq@.len(),
            out@ == changes(seq@, i as int),
        decreases seq@.len() - i,
    {
        if seq[i] != seq[i - 1] {
            out.push(i);
        }
        i = i + 1;
    }
    out
}

/// The places where a sequence changes ascend and lie within it.
pub proof fn changes_ascend(seq: Seq<usize>, n: int)
    requires
        0 <= n <= seq.len() <= usize::MAX,
    ensures
        forall|i: int|
            0 <= i < changes(seq, n).len() ==> 1 <= #[trigger] changes(seq, n)[i] < n,
        forall|i: int, j: int|
            0 <= i < j < changes(seq, n).len() ==> #[trigger] changes(seq, n)[i]
                < #[trigger] changes(seq, n)[j],
    decreases n,
{
    if n > 1 {
        changes_ascend(seq, n - 1);
        let prior = changes(seq, n - 1);
        let now = changes(seq, n);
        assert forall|i: int| 0 <= i < now.len() implies 1 <= #[trigger] now[i] < n by {
            if i < prior.len() {
                assert(now[i] == prior[i]);
            }
        }
        assert forall|i: int, j: int| 0 <= i < j < now.len() implies #[trigger] now[i]
            < #[trigger] now[j] by {
            assert(now[i] == prior[i]);
            if j < prior.len() {
                assert(now[j] == prior[j]);
            }
        }
    }
}

/// A list of numbers ascends.
pub open spec fn ascends(tr: Seq<usize>) -> bool {
    forall|i: int, j: int| 0 <= i < j < tr.len() ==> #[trigger] tr[i] < #[trigger] tr[j]
}

/// The differences of neighbouring entries.
pub open spec fn gaps(tr: Seq<usize>) -> Seq<usize> {
    Seq::new(
        (if tr.len() == 0 { 0 } else { tr.len() - 1 }) as nat,
        |i: int| (tr[i + 1] - tr[i]) as usize,
    )
}

/// Gaps between consecutive entries of an ascending list.
pub fn consecutive_gaps(tr: &Vec<usize>) -> (out: Vec<usize>)
    requires
        ascends(tr@),
    ensures
        out@ == gaps(tr@),
{
    let mut out: Vec<usize> = Vec::new();
    if tr.len() == 0 {
        assert(out@ =~= gaps(tr@));
        return out;
    }
    let mut i: usize = 1;
    while i < tr.len()
        invariant
            ascends(tr@),
            1 <= i <= tr@.len(),
            out@ =~= gaps(tr@).take(i - 1),
        decreases tr@.len() - i,
    {
        assert(tr@[i - 1] < tr@[i as int]);
        out.push(tr[i] - tr[i - 1]);
        i = i + 1;
    }
    assert(out@ =~= gaps(tr@));
    out
}

/// How often a value occurs.
pub open spec fn occurrences(values: Seq<usize>, v: usize) -> nat
    decreases values.len(),
{
    if values.len() == 0 {
        0
    } else {
        occurrences(values.drop_last(), v) + if values.last() == v { 1nat } else { 0nat }
    }
}

/// `v` is the most frequent value, the smallest of those that are.
pub open spec fn is_mode(values: Seq<usize>, v: usize) -> bool {
    &&& values.contains(v)
    &&& forall|u: usize| #[trigger]
        values.contains(u) ==> occurrences(values, u) < occurrences(values, v) || (occurrences(
            values,
            u,
        ) == occurrences(values, v) && v <= u)
}

/// The most frequent value, if there is one.
pub open spec fn most_frequent(values: Seq<usize>) -> Option<usize> {
    if values.len() == 0 { None } else { Some(choose|v: usize| is_mode(values, v)) }
}

fn count_of(values: &Vec<usize>, v: usize) -> (n: usize)
    ensures
        n == occurrences(values@, v),
{
    let mut n: usize = 0;
    let mut i: usize = 0;
    while i < values.len()
        invariant
            i <= values@.len(),
            n <= i,
            n == occurrences(values@.take(i as int), v),
        decreases values@.len() - i,
    {
        proof {
            assert(values@.take(i + 1).drop_last() =~= values@.take(i as int));
        }
        if values[i] == v {
            n = n + 1;
        }
        i = i + 1;
    }
    assert(values@.take(i as int) =~= values@);
    n
}

/// Most frequent value (smallest on ties), or `None` if there is none.
pub fn mode(values: &Vec<usize>) -> (r: Option<usize>)
    ensures
        r == most_frequent(values@),
        r is Some <==> values@.len() > 0,
        r matches Some(v) ==> is_mode(values@, v),
{
    if values.len() == 0 {
        return None;
    }
    let mut best: usize = values[0];
    let mut best_n: usize = count_of(values, best);
    let mut i: usize = 1;
    while i < values.len()
        invariant
            1 <= i <= values@.len(),
            values@.contains(best),
            best_n == occurrences(values@, best),
            forall|k: int|
                0 <= k < i ==> occurrences(values@, #[trigger] values@[k]) < best_n || (occurrences(
                    values@,
                    values@[k],
                ) == best_n && best <= values@[k]),
        decreases values@.len() - i,
    {
        let v: usize = values[i];
        if v != best {
            let n: usize = count_of(values, v);
            if n > best_n || (n == best_n && v < best) {
                best = v;
                best_n = n;
                assert(values@.contains(values@[i as int]));
            }
        }
        i = i + 1;
    }
    proof {
        assert forall|u: usize| #[trigger] values@.contains(u) implies occurrences(values@, u)
            < occurrences(values@, best) || (occurrences(values@, u) == occurrences(values@, best)
            && best <= u) by {
            let k = choose|k: int| 0 <= k < values@.len() && values@[k] == u;
            assert(values@[k] == u);
        }
        assert(is_mode(values@, best));
        let c = choose|v: usize| is_mode(values@, v);
        assert(is_mode(values@, c));
        assert(values@.contains(c) && values@.contains(best));
    }
    Some(best)
}

/// Zero for a color at least as near to `c_a` as to `c_b`, one otherwise.
pub open spec fn class_of<M: MatteKernel>(
    math: &M,
    c: Rgba32F,
    c_a: Rgba32F,
    c_b: Rgba32F,
) -> usize {
    if at_most(math.apart(c, c_a), math.apart(c, c_b)) { 0 } else { 1 }
}

fn classify<M: MatteKernel>(math: &M, c: Rgba32F, c_a: Rgba32F, c_b: Rgba32F) -> (r: usize)
    requires
        math.wf(),
    ensures
        r == class_of(math, c, c_a, c_b),
{
    if is_at_most(math.distance(c, c_a), math.distance(c, c_b)) { 0 } else { 1 }
}

/// The classes of the top row.
pub open spec fn top_classes<M: MatteKernel>(
    math: &M,
    m: Map<(i32, i32), Seq<Rgba32F>>,
    r: Rect,
    c_a: Rgba32F,
    c_b: Rgba32F,
) -> Seq<usize> {
    Seq::new(
        r.w as nat,
        |i: int|
            class_of(math, sanitized(pixel_at(m, IVec2 { x: (r.x + i) as i32, y: r.y })), c_a, c_b),
    )
}

/// The classes of the left column.
pub open spec fn left_classes<M: MatteKernel>(
    math: &M,
    m: Map<(i32, i32), Seq<Rgba32F>>,
    r: Rect,
    c_a: Rgba32F,
    c_b: Rgba32F,
) -> Seq<usize> {
    Seq::new(
        r.h as nat,
        |j: int|
            class_of(math, sanitized(pixel_at(m, IVec2 { x: r.x, y: (r.y + j) as i32 })), c_a, c_b),
    )
}

/// How many border entries show cluster zero on even cells and the other on odd
/// ones.
pub open spec fn agreeing<M: MatteKernel>(
    math: &M,
    b: Seq<(IVec2, Rgba32F)>,
    origin: IVec2,
    tile: int,
    c_a: Rgba32F,
    c_b: Rgba32F,
) -> nat
    decreases b.len(),
{
    if b.len() == 0 {
        0
    } else {
        let e = b.last();
        agreeing(math, b.drop_last(), origin, tile, c_a, c_b) + if even_cell(origin, tile, e.0)
            == (class_of(math, e.1, c_a, c_b) == 0) {
            1nat
        } else {
            0nat
        }
    }
}

/// How many border entries lie within `limit` of the color that the key
/// predicts.
pub open spec fn predicted<M: MatteKernel>(
    math: &M,
    b: Seq<(IVec2, Rgba32F)>,
    key: MatteKey,
    limit: u32,
) -> nat
    decreases b.len(),
{
    if b.len() == 0 {
        0
    } else {
        let e = b.last();
        predicted(math, b.drop_last(), key, limit) + if at_most(
            math.apart(e.1, key.color(e.0)),
            limit,
        ) {
            1nat
        } else {
            0nat
        }
    }
}

/// The checkerboard that two clusters suggest: cells as wide as the most frequent
/// gap between color changes along the top row and the left column, starting at
/// the first changes, with the colors as most of the border has them.
pub open spec fn checker_of<M: MatteKernel>(
    math: &M,
    m: Map<(i32, i32), Seq<Rgba32F>>,
    r: Rect,
    c_a: Rgba32F,
    c_b: Rgba32F,
) -> Option<MatteKey> {
    let top = changes(top_classes(math, m, r, c_a, c_b), r.w as int);
    let left = changes(left_classes(math, m, r, c_a, c_b), r.h as int);
    match most_frequent(gaps(top) + gaps(left)) {
        Some(tile) => if top.len() > 0 && left.len() > 0 {
            let origin = IVec2 { x: (r.x + top[0]) as i32, y: (r.y + left[0]) as i32 };
            let b = border(m, r);
            let agree = agreeing(math, b, origin, tile as int, c_a, c_b);
            if agree >= b.len() - agree {
                Some(MatteKey::Checker { c_even: c_a, c_odd: c_b, tile: tile as i64, origin })
            } else {
                Some(MatteKey::Checker { c_even: c_b, c_odd: c_a, tile: tile as i64, origin })
            }
        } else {
            None
        },
        None => None,
    }
}

/// The checkerboard matte of a border, if there is one.
pub open spec fn checker_key<M: MatteKernel>(
    math: &M,
    m: Map<(i32, i32), Seq<Rgba32F>>,
    r: Rect,
    tolerance: u32,
) -> Option<MatteKey> {
    let b = border(m, r);
    let limit = math.times(tolerance, tolerance);
    match two_clusters(math, colors(b)) {
        Some(c) => if at_most(math.apart(c.0, c.1), limit) {
            None
        } else {
            match checker_of(math, m, r, c.0, c.1) {
                Some(key) => if math.is_share(
                    predicted(math, b, key, limit) as usize,
                    b.len() as usize,
                    CHECKER_COVERAGE,
                ) {
                    Some(key)
                } else {
                    None
                },
                None => None,
            }
        },
        None => None,
    }
}

/// The matte of a border: uniform first, then a checkerboard.
pub open spec fn matte_key<M: MatteKernel>(
    math: &M,
    m: Map<(i32, i32), Seq<Rgba32F>>,
    r: Rect,
    tolerance: u32,
) -> Option<MatteKey> {
    match solid_key(math, border(m, r), tolerance) {
        Some(k) => Some(k),
        None => checker_key(math, m, r, tolerance),
    }
}

fn row_classes<M: MatteKernel>(
    math: &M,
    block: &Block,
    Ghost(m): Ghost<Map<(i32, i32), Seq<Rgba32F>>>,
    c_a: Rgba32F,
    c_b: Rgba32F,
) -> (v: Vec<usize>)
    requires
        math.wf(),
        block.wf(),
        block.shows(m),
        readable(block.area()),
    ensures
        v@ == top_classes(math, m, block.area(), c_a, c_b),
{
    let r: Rect = block.bounds();
    let mut v: Vec<usize> = Vec::new();
    let mut i: u32 = 0;
    let ghost goal = top_classes(math, m, r, c_a, c_b);
    while i < r.w
        invariant
            math.wf(),
            block.wf(),
            block.shows(m),
            r == block.area(),
            readable(r),
            goal == top_classes(math, m, r, c_a, c_b),
            i <= r.w,
            v@ =~= goal.take(i as int),
        decreases r.w - i,
    {
        let p: IVec2 = IVec2::new((r.x as i64 + i as i64) as i32, r.y);
        let k: usize = classify(math, sanitize(block.get(p)), c_a, c_b);
        assert(goal[i as int] == k);
        v.push(k);
        i = i + 1;
    }
    assert(v@ =~= goal);
    v
}

fn column_classes<M: MatteKernel>(
    math: &M,
    block: &Block,
    Ghost(m): Ghost<Map<(i32, i32), Seq<Rgba32F>>>,
    c_a: Rgba32F,
    c_b: Rgba32F,
) -> (v: Vec<usize>)
    requires
        math.wf(),
        block.wf(),
        block.shows(m),
        readable(block.area()),
    ensures
        v@ == left_classes(math, m, block.area(), c_a, c_b),
{
    let r: Rect = block.bounds();
    let mut v: Vec<usize> = Vec::new();
    let mut j: u32 = 0;
    let ghost goal = left_classes(math, m, r, c_a, c_b);
    while j < r.h
        invariant
            math.wf(),
            block.wf(),
            block.shows(m),
            r == block.area(),
            readable(r),
            goal == left_classes(math, m, r, c_a, c_b),
            j <= r.h,
            v@ =~= goal.take(j as int),
        decreases r.h - j,
    {
        let p: IVec2 = IVec2::new(r.x, (r.y as i64 + j as i64) as i32);
        let k: usize = classify(math, sanitize(block.get(p)), c_a, c_b);
        assert(goal[j as int] == k);
        v.push(k);
        j = j + 1;
    }
    assert(v@ =~= goal);
    v
}

fn count_agreeing<M: MatteKernel>(
    math: &M,
    b: &Vec<(IVec2, Rgba32F)>,
    origin: IVec2,
    tile: i64,
    c_a: Rgba32F,
    c_b: Rgba32F,
) -> (n: usize)
    requires
        math.wf(),
        0 < tile <= u32::MAX,
    ensures
        n == agreeing(math, b@, origin, tile as int, c_a, c_b),
        n <= b@.len(),
{
    let mut n: usize = 0;
    let mut i: usize = 0;
    while i < b.len()
        invariant
            math.wf(),
            0 < tile <= u32::MAX,
            i <= b@.len(),
            n <= i,
            n == agreeing(math, b@.take(i as int), origin, tile as int, c_a, c_b),
        decreases b@.len() - i,
    {
        proof {
            assert(b@.take(i + 1).drop_last() =~= b@.take(i as int));
            assert(b@.take(i + 1).last() == b@[i as int]);
        }
        let even: bool = is_even_cell(origin, tile, b[i].0);
        let first: bool = classify(math, b[i].1, c_a, c_b) == 0;
        if even == first {
            n = n + 1;
        }
        i = i + 1;
    }
    assert(b@.take(i as int) =~= b@);
    n
}

fn count_predicted<M: MatteKernel>(
    math: &M,
    b: &Vec<(IVec2, Rgba32F)>,
    key: &MatteKey,
    limit: u32,
) -> (n: usize)
    requires
        math.wf(),
        key.wf(),
    ensures
        n == predicted(math, b@, *key, limit),
        n <= b@.len(),
{
    let mut n: usize = 0;
    let mut i: usize = 0;
    while i < b.len()
        invariant
            math.wf(),
            key.wf(),
            i <= b@.len(),
            n <= i,
            n == predicted(math, b@.take(i as int), *key, limit),
        decreases b@.len() - i,
    {
        proof {
            assert(b@.take(i + 1).drop_last() =~= b@.take(i as int));
            assert(b@.take(i + 1).last() == b@[i as int]);
        }
        if is_at_most(math.distance(b[i].1, key_at(key, b[i].0)), limit) {
            n = n + 1;
        }
        i = i + 1;
    }
    assert(b@.take(i as int) =~= b@);
    n
}

fn append_all(a: &mut Vec<usize>, b: &Vec<usize>)
    ensures
        final(a)@ == old(a)@ + b@,
{
    let mut i: usize = 0;
    while i < b.len()
        invariant
            i <= b@.len(),
            a@ =~= old(a)@ + b@.take(i as int),
        decreases b@.len() - i,
    {
        a.push(b[i]);
        i = i + 1;
    }
    assert(b@.take(i as int) =~= b@);
}

/// Every gap of an ascending list of places below `n` lies between one and `n`.
proof fn lemma_gaps(tr: Seq<usize>, n: int)
    requires
        ascends(tr),
        forall|i: int| 0 <= i < tr.len() ==> #[trigger] tr[i] < n,
    ensures
        forall|i: int| 0 <= i < gaps(tr).len() ==> 1 <= #[trigger] gaps(tr)[i] < n,
{
    assert forall|i: int| 0 <= i < gaps(tr).len() implies 1 <= #[trigger] gaps(tr)[i] < n by {
        assert(tr[i] < tr[i + 1]);
    }
}

/// Detect a checkerboard matte.
pub(crate) fn detect_checker<M: MatteKernel>(
    math: &M,
    block: &Block,
    Ghost(m): Ghost<Map<(i32, i32), Seq<Rgba32F>>>,
    border: &Vec<(IVec2, Rgba32F)>,
    tolerance: u32,
) -> (r: Option<MatteKey>)
    requires
        math.wf(),
        block.wf(),
        block.shows(m),
        readable(block.area()),
        border@ == self::border(m, block.area()),
    ensures
        r == checker_key(math, m, block.area(), tolerance),
        r matches Some(k) ==> k.wf(),
{
    let rect: Rect = block.bounds();
    let limit: u32 = math.product(tolerance, tolerance);
    let cs: Vec<Rgba32F> = colors_of(border);
    let (c_a, c_b): (Rgba32F, Rgba32F) = match two_means(math, &cs) {
        Some(c) => c,
        None => {
            return None;
        },
    };
    if is_at_most(math.distance(c_a, c_b), limit) {
        return None;
    }
    let top: Vec<usize> = row_classes(math, block, Ghost(m), c_a, c_b);
    let left: Vec<usize> = column_classes(math, block, Ghost(m), c_a, c_b);
    let top_tr: Vec<usize> = transitions(&top);
    let left_tr: Vec<usize> = transitions(&left);
    proof {
        changes_ascend(top@, top@.len() as int);
        changes_ascend(left@, left@.len() as int);
        lemma_gaps(top_tr@, rect.w as int);
        lemma_gaps(left_tr@, rect.h as int);
    }
    let mut all: Vec<usize> = consecutive_gaps(&top_tr);
    let more: Vec<usize> = consecutive_gaps(&left_tr);
    append_all(&mut all, &more);
    let tile: i64 = match mode(&all) {
        Some(t) => {
            proof {
                let k = choose|k: int| 0 <= k < all@.len() && all@[k] == t;
                if k < gaps(top_tr@).len() {
                    assert(all@[k] == gaps(top_tr@)[k]);
                } else {
                    assert(all@[k] == gaps(left_tr@)[k - gaps(top_tr@).len()]);
                }
            }
            t as i64
        },
        None => {
            return None;
        },
    };
    if top_tr.len() == 0 || left_tr.len() == 0 {
        return None;
    }
    assert(1 <= top_tr@[0] < rect.w && 1 <= left_tr@[0] < rect.h);
    let origin: IVec2 = IVec2::new(
        (rect.x as i64 + top_tr[0] as i64) as i32,
        (rect.y as i64 + left_tr[0] as i64) as i32,
    );
    let agree: usize = count_agreeing(math, border, origin, tile, c_a, c_b);
    let key: MatteKey = if agree >= border.len() - agree {
        MatteKey::Checker { c_even: c_a, c_odd: c_b, tile, origin }
    } else {
        MatteKey::Checker { c_even: c_b, c_odd: c_a, tile, origin }
    };
    let ok: usize = count_predicted(math, border, &key, limit);
    if math.reaches(ok, border.len(), CHECKER_COVERAGE) {
        Some(key)
    } else {
        None
    }
}

/// Detect a matte from the border: uniform first, then a checkerboard.
pub(crate) fn detect<M: MatteKernel>(
    math: &M,
    block: &Block,
    Ghost(m): Ghost<Map<(i32, i32), Seq<Rgba32F>>>,
    tolerance: u32,
) -> (r: Option<MatteKey>)
    requires
        math.wf(),
        block.wf(),
        block.shows(m),
        readable(block.area()),
    ensures
        r == matte_key(math, m, block.area(), tolerance),
        r matches Some(k) ==> k.wf(),
{
    let border: Vec<(IVec2, Rgba32F)> = border_pixels(block, Ghost(m));
    match detect_solid(math, &border, tolerance) {
        Some(k) => Some(k),
        None => detect_checker(math, block, Ghost(m), &border, tolerance),
    }
}

} // verus!
