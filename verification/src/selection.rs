//! Selection model: which pixels of a document are selected, and how much.
use vstd::prelude::*;

use crate::buffer::{pixel_at, set_pixel_then_get, TiledBuffer};
use crate::coord::{IVec2, Rect, TileCoord};
use crate::float_bits::{
    clamp01_nan0, complement, complement_spec, is_less, is_zero, less, nan, rank, unit,
    unit_is_idempotent, zero, F_ONE, F_ZERO,
};
use crate::pixel::Rgba32F;

verus! {

/// The shape of a selection.
pub enum SelectionKind {
    /// Nothing is selected.
    Nothing,
    /// Every pixel of a rectangle is fully selected.
    Rect(Rect),
    /// Each pixel of `bounds` is selected as much as the red channel of
    /// `coverage` says.
    Mask {
        /// The coverage, in document space, in the red channel.
        coverage: TiledBuffer,
        /// The rectangle outside of which nothing is selected.
        bounds: Rect,
    },
}

/// How a new selection is combined with the current one.
#[derive(Clone, Copy, Debug, PartialEq, Eq, Structural)]
pub enum SelectionMode {
    /// Take the new selection.
    Replace,
    /// Select what either selects.
    Add,
    /// Remove what the new selection selects.
    Subtract,
    /// Keep what both select.
    Intersect,
}

/// A selection in document space.
pub struct Selection {
    /// The shape of the selection.
    pub kind: SelectionKind,
}

/// What a selection is, as mathematical values.
pub enum SelectionView {
    /// Nothing.
    Nothing,
    /// A rectangle.
    Rect(Rect),
    /// Coverage tiles within bounds.
    Mask(Map<(i32, i32), Seq<Rgba32F>>, Rect),
}

impl View for Selection {
    type V = SelectionView;

    open spec fn view(&self) -> SelectionView {
        match self.kind {
            SelectionKind::Nothing => SelectionView::Nothing,
            SelectionKind::Rect(r) => SelectionView::Rect(r),
            SelectionKind::Mask { coverage, bounds } => SelectionView::Mask(coverage@, bounds),
        }
    }
}

impl SelectionView {
    /// How much of pixel `p` is selected, between zero and one.
    pub open spec fn cov(self, p: IVec2) -> u32 {
        match self {
            SelectionView::Nothing => F_ZERO,
            SelectionView::Rect(r) => if r.has(p.x as int, p.y as int) { F_ONE } else { F_ZERO },
            SelectionView::Mask(m, b) => if b.has(p.x as int, p.y as int) {
                stored(unit(pixel_at(m, p).r))
            } else {
                F_ZERO
            },
        }
    }

    /// The rectangle outside of which nothing is selected, unless it is empty.
    pub open spec fn extent(self) -> Option<Rect> {
        match self {
            SelectionView::Nothing => None,
            SelectionView::Rect(r) => if r.empty() { None } else { Some(r) },
            SelectionView::Mask(m, b) => if b.empty() { None } else { Some(b) },
        }
    }
}

/// The larger of two coverages; the first if they are equal.
pub open spec fn larger(a: u32, b: u32) -> u32 {
    if less(a, b) { b } else { a }
}

/// The smaller of two coverages; the first if they are equal.
pub open spec fn smaller(a: u32, b: u32) -> u32 {
    if less(b, a) { b } else { a }
}

/// A coverage with the plain zero for either zero.
pub open spec fn stored(c: u32) -> u32 {
    if zero(c) { F_ZERO } else { c }
}

/// The coverages of a pixel in two selections, combined.
pub open spec fn combined(mode: SelectionMode, a: u32, b: u32) -> u32 {
    match mode {
        SelectionMode::Replace => b,
        SelectionMode::Add => larger(a, b),
        SelectionMode::Subtract => smaller(a, complement_spec(b)),
        SelectionMode::Intersect => smaller(a, b),
    }
}

/// `r` is the selection `other` combined with `s`.
///
/// Adding covers what either bounds, subtracting what `s` bounds and
/// intersecting what both bound; within it each pixel's coverages are combined.
pub open spec fn is_combination(
    s: SelectionView,
    other: SelectionView,
    mode: SelectionMode,
    r: SelectionView,
) -> bool {
    &&& mode is Replace ==> r == other
    &&& mode is Intersect ==> r.extent() == extents_meet(s.extent(), other.extent())
    &&& mode is Subtract ==> r.extent() == s.extent()
    &&& mode is Add ==> r.extent() == (match (s.extent(), other.extent()) {
        (Some(x), Some(y)) => Some(x.union_spec(y)),
        (Some(x), None) => Some(x),
        (None, e) => e,
    })
    &&& forall|p: IVec2|
        (r.extent() matches Some(b) && b.has(p.x as int, p.y as int)) ==> #[trigger] r.cov(p)
            == combined(mode, s.cov(p), other.cov(p))
    &&& forall|p: IVec2|
        !(r.extent() matches Some(b) && b.has(p.x as int, p.y as int)) ==> #[trigger] r.cov(p)
            == F_ZERO
}

/// `r` selects, within `canvas`, what `s` does not.
pub open spec fn is_inverse(s: SelectionView, canvas: Rect, r: SelectionView) -> bool {
    &&& r.extent() == (if canvas.empty() { None } else { Some(canvas) })
    &&& forall|p: IVec2|
        canvas.has(p.x as int, p.y as int) ==> #[trigger] r.cov(p) == complement_spec(s.cov(p))
    &&& forall|p: IVec2| !canvas.has(p.x as int, p.y as int) ==> #[trigger] r.cov(p) == F_ZERO
}

/// `r` is the selection `s` grown by `n` pixels: a rectangle is widened, and each
/// pixel of a mask takes the largest coverage near it.
pub open spec fn is_grown(s: SelectionView, n: int, r: SelectionView) -> bool {
    match s {
        SelectionView::Nothing => r == SelectionView::Nothing,
        SelectionView::Rect(b) => r == SelectionView::Rect(b.outset(n)),
        SelectionView::Mask(m, b) => {
            &&& r matches SelectionView::Mask(m2, b2) && b2 == b.outset(n)
            &&& forall|p: IVec2|
                b.outset(n).has(p.x as int, p.y as int) ==> is_window_max(
                    s,
                    p,
                    n,
                    #[trigger] r.cov(p),
                )
        },
    }
}

/// `r` is the selection `s` shrunk by `n` pixels: a rectangle is narrowed, and
/// each pixel of a mask takes the smallest coverage near it.
pub open spec fn is_shrunk(s: SelectionView, n: int, r: SelectionView) -> bool {
    match s {
        SelectionView::Nothing => r == SelectionView::Nothing,
        SelectionView::Rect(b) => r == SelectionView::Rect(b.outset(-n)),
        SelectionView::Mask(m, b) => {
            &&& r matches SelectionView::Mask(m2, b2) && b2 == b.outset(-n)
            &&& forall|p: IVec2|
                b.outset(-n).has(p.x as int, p.y as int) ==> is_window_min(
                    s,
                    p,
                    n,
                    #[trigger] r.cov(p),
                )
        },
    }
}

/// A coverage lies between zero and one.
pub open spec fn is_coverage(c: u32) -> bool {
    !nan(c) && rank(F_ZERO) <= rank(c) <= rank(F_ONE)
}

/// How much of a pixel is selected lies between zero and one.
pub proof fn coverage_lies_between_zero_and_one(s: SelectionView, p: IVec2)
    ensures
        is_coverage(s.cov(p)),
        unit(s.cov(p)) == s.cov(p),
{
    match s {
        SelectionView::Mask(m, b) => {
            unit_is_idempotent(pixel_at(m, p).r);
        },
        _ => {},
    }
}

impl Clone for Selection {
    fn clone(&self) -> (r: Self)
        ensures
            r@ == self@,
            self.wf() ==> r.wf(),
    {
        Selection {
            kind: match &self.kind {
                SelectionKind::Nothing => SelectionKind::Nothing,
                SelectionKind::Rect(r) => SelectionKind::Rect(*r),
                SelectionKind::Mask { coverage, bounds } => SelectionKind::Mask {
                    coverage: coverage.clone(),
                    bounds: *bounds,
                },
            },
        }
    }
}

impl Selection {
    /// The coverage buffer, if any, is well formed.
    pub open spec fn wf(&self) -> bool {
        match self.kind {
            SelectionKind::Mask { coverage, bounds } => coverage.wf(),
            _ => true,
        }
    }

    /// The empty selection.
    pub fn none() -> (r: Self)
        ensures
            r.wf(),
            r@ == SelectionView::Nothing,
    {
        Selection { kind: SelectionKind::Nothing }
    }

    /// A fully selected rectangle.
    pub fn rect(rect: Rect) -> (r: Self)
        ensures
            r.wf(),
            r@ == SelectionView::Rect(rect),
    {
        Selection { kind: SelectionKind::Rect(rect) }
    }

    /// The rectangle outside of which nothing is selected, or `None` if nothing
    /// is.
    pub fn bounds(&self) -> (r: Option<Rect>)
        ensures
            r == self@.extent(),
    {
        let b: Rect = match &self.kind {
            SelectionKind::Nothing => {
                return None;
            },
            SelectionKind::Rect(r) => *r,
            SelectionKind::Mask { bounds, .. } => *bounds,
        };
        if b.is_empty() { None } else { Some(b) }
    }

    /// True if no rectangle bounds the selection.
    pub fn is_empty(&self) -> (r: bool)
        ensures
            r == (self@.extent() is None),
    {
        self.bounds().is_none()
    }

    /// How much of a pixel is selected, between zero and one.
    pub fn coverage_at(&self, p: IVec2) -> (c: u32)
        requires
            self.wf(),
        ensures
            c == self@.cov(p),
            is_coverage(c),
    {
        proof {
            coverage_lies_between_zero_and_one(self@, p);
        }
        match &self.kind {
            SelectionKind::Nothing => F_ZERO,
            SelectionKind::Rect(r) => if r.contains(p) { F_ONE } else { F_ZERO },
            SelectionKind::Mask { coverage, bounds } => if bounds.contains(p) {
                let c: u32 = clamp01_nan0(coverage.get_pixel(p).r);
                if is_zero(c) { F_ZERO } else { c }
            } else {
                F_ZERO
            },
        }
    }
}

/// A pixel that stores coverage `c` in its red channel.
pub open spec fn coverage_px(c: u32) -> Rgba32F {
    Rgba32F { r: c, g: F_ZERO, b: F_ZERO, a: F_ONE }
}

/// Pixel `(u, v)` comes before `(x, y)` in row order.
spec fn earlier(u: int, v: int, x: int, y: int) -> bool {
    v < y || (v == y && u < x)
}

/// `f` may give pixel `p` the coverage `v`.
pub open spec fn gives<F: Fn(IVec2) -> u32>(f: F, p: IVec2, v: u32) -> bool {
    exists|c: u32| #[trigger] f.ensures((p,), c) && v == stored(c)
}

/// Pixel `p` of a mask holds the coverage that `f` gives it if it is one of
/// `rect`'s pixels before `(x, y)`, and none otherwise.
spec fn filled_at<F: Fn(IVec2) -> u32>(
    m: Map<(i32, i32), Seq<Rgba32F>>,
    rect: Rect,
    f: F,
    x: int,
    y: int,
    p: IVec2,
) -> bool {
    if rect.has(p.x as int, p.y as int) && earlier(p.x as int, p.y as int, x, y) {
        gives(f, p, unit(pixel_at(m, p).r))
    } else {
        unit(pixel_at(m, p).r) == F_ZERO
    }
}

spec fn mask_filled<F: Fn(IVec2) -> u32>(
    m: Map<(i32, i32), Seq<Rgba32F>>,
    rect: Rect,
    f: F,
    x: int,
    y: int,
) -> bool {
    forall|p: IVec2| #[trigger] filled_at(m, rect, f, x, y, p)
}

/// A mask over `rect` with the coverage that `f` gives each pixel.
fn mask_of<F: Fn(IVec2) -> u32>(rect: Rect, f: F) -> (r: Selection)
    requires
        forall|p: IVec2| #[trigger] f.requires((p,)),
        forall|p: IVec2, c: u32| #[trigger] f.ensures((p,), c) ==> is_coverage(c),
    ensures
        r.wf(),
        r@ matches SelectionView::Mask(m, b) && b == rect,
        forall|p: IVec2|
            rect.has(p.x as int, p.y as int) ==> gives(f, p, #[trigger] r@.cov(p)),
        forall|p: IVec2| !rect.has(p.x as int, p.y as int) ==> #[trigger] r@.cov(p) == F_ZERO,
{
    let mut coverage: TiledBuffer = TiledBuffer::new();
    let right: i64 = if rect.right() > 0x8000_0000 { 0x8000_0000 } else { rect.right() };
    let bottom: i64 = if rect.bottom() > 0x8000_0000 { 0x8000_0000 } else { rect.bottom() };
    let mut y: i64 = rect.y as i64;
    assert(mask_filled(coverage@, rect, f, rect.x as int, y as int));
    while y < bottom
        invariant
            forall|p: IVec2| #[trigger] f.requires((p,)),
            forall|p: IVec2, c: u32| #[trigger] f.ensures((p,), c) ==> is_coverage(c),
            rect.y <= y,
            y <= bottom || bottom < rect.y,
            right == (if rect.right_edge() > 0x8000_0000 { 0x8000_0000 } else { rect.right_edge() }),
            bottom == (if rect.bottom_edge() > 0x8000_0000 {
                0x8000_0000
            } else {
                rect.bottom_edge()
            }),
            coverage.wf(),
            mask_filled(coverage@, rect, f, rect.x as int, y as int),
        decreases bottom - y,
    {
        let mut x: i64 = rect.x as i64;
        while x < right
            invariant
                forall|p: IVec2| #[trigger] f.requires((p,)),
                forall|p: IVec2, c: u32| #[trigger] f.ensures((p,), c) ==> is_coverage(c),
                rect.y <= y < bottom,
                rect.x <= x,
                x <= right || right < rect.x,
                right == (if rect.right_edge() > 0x8000_0000 {
                    0x8000_0000
                } else {
                    rect.right_edge()
                }),
                bottom == (if rect.bottom_edge() > 0x8000_0000 {
                    0x8000_0000
                } else {
                    rect.bottom_edge()
                }),
                coverage.wf(),
                mask_filled(coverage@, rect, f, x as int, y as int),
            decreases right - x,
        {
            let p: IVec2 = IVec2::new(x as i32, y as i32);
            let c: u32 = f(p);
            let ghost before = coverage@;
            proof {
                coverage.lemma_full();
            }
            if !is_zero(c) {
                coverage.set_pixel(p, Rgba32F::new(c, F_ZERO, F_ZERO, F_ONE));
            }
            proof {
                assert(f.ensures((p,), c));
                unit_is_idempotent(c);
                assert forall|q: IVec2| #[trigger] filled_at(
                    coverage@,
                    rect,
                    f,
                    x + 1,
                    y as int,
                    q,
                ) by {
                    if !zero(c) {
                        set_pixel_then_get(before, p, coverage_px(c), q);
                    }
                    assert(filled_at(before, rect, f, x as int, y as int, q));
                }
            }
            x = x + 1;
        }
        assert forall|q: IVec2| #[trigger] filled_at(
            coverage@,
            rect,
            f,
            rect.x as int,
            y + 1,
            q,
        ) by {
            assert(filled_at(coverage@, rect, f, x as int, y as int, q));
        }
        y = y + 1;
    }
    let r = Selection { kind: SelectionKind::Mask { coverage, bounds: rect } };
    proof {
        assert forall|p: IVec2| rect.has(p.x as int, p.y as int) implies gives(
            f,
            p,
            #[trigger] r@.cov(p),
        ) by {
            assert(filled_at(coverage@, rect, f, rect.x as int, y as int, p));
        }
    }
    r
}

fn larger_of(a: u32, b: u32) -> (r: u32)
    ensures
        r == larger(a, b),
{
    if is_less(a, b) { b } else { a }
}

fn smaller_of(a: u32, b: u32) -> (r: u32)
    ensures
        r == smaller(a, b),
{
    if is_less(b, a) { b } else { a }
}

/// The part of two extents that both have.
pub open spec fn extents_meet(a: Option<Rect>, b: Option<Rect>) -> Option<Rect> {
    match (a, b) {
        (Some(x), Some(y)) => x.intersect_spec(y),
        _ => None,
    }
}

/// Nothing is selected outside the extent.
pub proof fn coverage_lies_in_extent(s: SelectionView, p: IVec2)
    ensures
        s.cov(p) != F_ZERO ==> (s.extent() matches Some(r) && r.has(p.x as int, p.y as int)),
{
}

/// Pixel `q` lies within `n` columns and rows of `p`.
pub open spec fn near(p: IVec2, q: IVec2, n: int) -> bool {
    -n <= q.x - p.x <= n && -n <= q.y - p.y <= n
}

/// `c` is the largest coverage within `n` columns and rows of `p`.
pub open spec fn is_window_max(s: SelectionView, p: IVec2, n: int, c: u32) -> bool {
    &&& forall|q: IVec2| near(p, q, n) ==> rank(#[trigger] s.cov(q)) <= rank(c)
    &&& exists|q: IVec2| near(p, q, n) && #[trigger] s.cov(q) == c
}

/// `c` is the smallest coverage within `n` columns and rows of `p`.
pub open spec fn is_window_min(s: SelectionView, p: IVec2, n: int, c: u32) -> bool {
    &&& forall|q: IVec2| near(p, q, n) ==> rank(#[trigger] s.cov(q)) >= rank(c)
    &&& exists|q: IVec2| near(p, q, n) && #[trigger] s.cov(q) == c
}

/// A number of pixels as far as a rectangle's edge can be moved by it.
pub open spec fn margin(n: u32) -> int {
    if n > i32::MAX { i32::MAX as int } else { n as int }
}

fn margin_of(n: u32) -> (r: i32)
    ensures
        r == margin(n),
        r >= 0,
{
    if n > 0x7fff_ffff { 0x7fff_ffff } else { n as i32 }
}

fn at_least_i32_min(v: i64) -> (r: i64)
    ensures
        r == (if v < i32::MIN { i32::MIN as int } else { v as int }),
{
    if v < -0x8000_0000 { -0x8000_0000 } else { v }
}

fn at_most_i32_max(v: i64) -> (r: i64)
    ensures
        r == (if v > i32::MAX { i32::MAX as int } else { v as int }),
{
    if v > 0x7fff_ffff { 0x7fff_ffff } else { v }
}

impl Selection {
    /// The largest coverage within `n` columns and rows of `p`.
    fn window_max(&self, p: IVec2, n: i32) -> (c: u32)
        requires
            self.wf(),
            n >= 0,
        ensures
            is_window_max(self@, p, n as int, c),
            is_coverage(c),
    {
        let left: i64 = at_least_i32_min(p.x as i64 - n as i64);
        let right: i64 = at_most_i32_max(p.x as i64 + n as i64);
        let top: i64 = at_least_i32_min(p.y as i64 - n as i64);
        let bottom: i64 = at_most_i32_max(p.y as i64 + n as i64);
        let mut c: u32 = self.coverage_at(p);
        let mut y: i64 = top;
        assert(near(p, p, n as int) && self@.cov(p) == c);
        while y <= bottom
            invariant
                self.wf(),
                n >= 0,
                is_coverage(c),
                i32::MIN <= left && right <= i32::MAX && i32::MIN <= top && bottom <= i32::MAX,
                forall|q: IVec2| #[trigger]
                    near(p, q, n as int) <==> left <= q.x <= right && top <= q.y <= bottom,
                top <= y <= bottom + 1,
                forall|q: IVec2|
                    near(p, q, n as int) && q.y < y ==> rank(#[trigger] self@.cov(q)) <= rank(c),
                exists|q: IVec2| near(p, q, n as int) && #[trigger] self@.cov(q) == c,
            decreases bottom + 1 - y,
        {
            let mut x: i64 = left;
            while x <= right
                invariant
                    self.wf(),
                    n >= 0,
                    is_coverage(c),
                    i32::MIN <= left && right <= i32::MAX && i32::MIN <= top && bottom <= i32::MAX,
                    forall|q: IVec2| #[trigger]
                        near(p, q, n as int) <==> left <= q.x <= right && top <= q.y <= bottom,
                    top <= y <= bottom,
                    left <= x <= right + 1,
                    forall|q: IVec2|
                        near(p, q, n as int) && earlier(q.x as int, q.y as int, x as int, y as int)
                            ==> rank(#[trigger] self@.cov(q)) <= rank(c),
                    exists|q: IVec2| near(p, q, n as int) && #[trigger] self@.cov(q) == c,
                decreases right + 1 - x,
            {
                let q: IVec2 = IVec2::new(x as i32, y as i32);
                let d: u32 = self.coverage_at(q);
                assert(near(p, q, n as int));
                assert(self@.cov(q) == d);
                let ghost w = choose|q: IVec2|
                    near(p, q, n as int) && #[trigger] self@.cov(q) == c;
                let ghost prev = c;
                c = larger_of(c, d);
                proof {
                    if less(prev, d) {
                        assert(self@.cov(q) == c);
                    } else {
                        assert(self@.cov(w) == c);
                    }
                    assert forall|u: IVec2|
                        near(p, u, n as int) && earlier(
                            u.x as int,
                            u.y as int,
                            x + 1,
                            y as int,
                        ) implies rank(#[trigger] self@.cov(u)) <= rank(c) by {
                        if !earlier(u.x as int, u.y as int, x as int, y as int) {
                            assert(u == q);
                        }
                    }
                }
                x = x + 1;
            }
            y = y + 1;
        }
        c
    }

    /// The smallest coverage within `n` columns and rows of `p`.
    fn window_min(&self, p: IVec2, n: i32) -> (c: u32)
        requires
            self.wf(),
            n >= 0,
        ensures
            is_window_min(self@, p, n as int, c),
            is_coverage(c),
    {
        let left: i64 = at_least_i32_min(p.x as i64 - n as i64);
        let right: i64 = at_most_i32_max(p.x as i64 + n as i64);
        let top: i64 = at_least_i32_min(p.y as i64 - n as i64);
        let bottom: i64 = at_most_i32_max(p.y as i64 + n as i64);
        let mut c: u32 = self.coverage_at(p);
        let mut y: i64 = top;
        assert(near(p, p, n as int) && self@.cov(p) == c);
        while y <= bottom
            invariant
                self.wf(),
                n >= 0,
                is_coverage(c),
                i32::MIN <= left && right <= i32::MAX && i32::MIN <= top && bottom <= i32::MAX,
                forall|q: IVec2| #[trigger]
                    near(p, q, n as int) <==> left <= q.x <= right && top <= q.y <= bottom,
                top <= y <= bottom + 1,
                forall|q: IVec2|
                    near(p, q, n as int) && q.y < y ==> rank(#[trigger] self@.cov(q)) >= rank(c),
                exists|q: IVec2| near(p, q, n as int) && #[trigger] self@.cov(q) == c,
            decreases bottom + 1 - y,
        {
            let mut x: i64 = left;
            while x <= right
                invariant
                    self.wf(),
                    n >= 0,
                    is_coverage(c),
                    i32::MIN <= left && right <= i32::MAX && i32::MIN <= top && bottom <= i32::MAX,
                    forall|q: IVec2| #[trigger]
                        near(p, q, n as int) <==> left <= q.x <= right && top <= q.y <= bottom,
                    top <= y <= bottom,
                    left <= x <= right + 1,
                    forall|q: IVec2|
                        near(p, q, n as int) && earlier(q.x as int, q.y as int, x as int, y as int)
                            ==> rank(#[trigger] self@.cov(q)) >= rank(c),
                    exists|q: IVec2| near(p, q, n as int) && #[trigger] self@.cov(q) == c,
                decreases right + 1 - x,
            {
                let q: IVec2 = IVec2::new(x as i32, y as i32);
                let d: u32 = self.coverage_at(q);
                assert(near(p, q, n as int));
                assert(self@.cov(q) == d);
                let ghost w = choose|q: IVec2|
                    near(p, q, n as int) && #[trigger] self@.cov(q) == c;
                let ghost prev = c;
                c = smaller_of(c, d);
                proof {
                    if less(d, prev) {
                        assert(self@.cov(q) == c);
                    } else {
                        assert(self@.cov(w) == c);
                    }
                    assert forall|u: IVec2|
                        near(p, u, n as int) && earlier(
                            u.x as int,
                            u.y as int,
                            x + 1,
                            y as int,
                        ) implies rank(#[trigger] self@.cov(u)) >= rank(c) by {
                        if !earlier(u.x as int, u.y as int, x as int, y as int) {
                            assert(u == q);
                        }
                    }
                }
                x = x + 1;
            }
            y = y + 1;
        }
        c
    }

    /// What both selections select, each pixel as much as the one that selects
    /// it less.
    pub fn intersect(&self, other: &Self) -> (r: Self)
        requires
            self.wf(),
            other.wf(),
        ensures
            r.wf(),
            forall|p: IVec2| #[trigger] r@.cov(p) == smaller(self@.cov(p), other@.cov(p)),
            r@.extent() == extents_meet(self@.extent(), other@.extent()),
            self@ is Rect && other@ is Rect && r@.extent() is Some ==> r@ is Rect,
    {
        proof {
            assert forall|p: IVec2|
                is_coverage(#[trigger] self@.cov(p)) && is_coverage(#[trigger] other@.cov(p)) by {
                coverage_lies_between_zero_and_one(self@, p);
                coverage_lies_between_zero_and_one(other@, p);
            }
        }
        let b: Rect = match (self.bounds(), other.bounds()) {
            (Some(x), Some(y)) => match x.intersect(y) {
                Some(b) => b,
                None => {
                    return Selection::none();
                },
            },
            _ => {
                return Selection::none();
            },
        };
        if let (SelectionKind::Rect(_), SelectionKind::Rect(_)) = (&self.kind, &other.kind) {
            return Selection::rect(b);
        }
        let f = |p: IVec2| -> (c: u32)
            requires
                self.wf() && other.wf(),
            ensures
                c == smaller(self@.cov(p), other@.cov(p)) && is_coverage(c),
            { smaller_of(self.coverage_at(p), other.coverage_at(p)) };
        let r = mask_of(b, f);
        proof {
            assert forall|p: IVec2| #[trigger] r@.cov(p) == smaller(
                self@.cov(p),
                other@.cov(p),
            ) by {
                if b.has(p.x as int, p.y as int) {
                    assert(gives(f, p, r@.cov(p)));
                } else {
                    coverage_lies_in_extent(self@, p);
                    coverage_lies_in_extent(other@, p);
                }
            }
        }
        r
    }

    /// Combine this selection with another.
    ///
    /// Adding takes the larger coverage of each pixel, intersecting the smaller,
    /// and subtracting what the other selection leaves of it.
    pub fn combine(&self, other: &Self, mode: SelectionMode) -> (r: Self)
        requires
            self.wf(),
            other.wf(),
        ensures
            r.wf(),
            is_combination(self@, other@, mode, r@),
    {
        proof {
            assert forall|p: IVec2|
                is_coverage(#[trigger] self@.cov(p)) && is_coverage(#[trigger] other@.cov(p)) by {
                coverage_lies_between_zero_and_one(self@, p);
                coverage_lies_between_zero_and_one(other@, p);
            }
            crate::float_bits::complement_of_ends();
        }
        match mode {
            SelectionMode::Replace => other.clone(),
            SelectionMode::Intersect => self.intersect(other),
            SelectionMode::Add => match (self.bounds(), other.bounds()) {
                (Some(x), Some(y)) => {
                    let b: Rect = x.union(y);
                    let f = |p: IVec2| -> (c: u32)
                        requires
                            self.wf() && other.wf(),
                        ensures
                            c == larger(self@.cov(p), other@.cov(p)) && is_coverage(c),
                        { larger_of(self.coverage_at(p), other.coverage_at(p)) };
                    let r = mask_of(b, f);
                    proof {
                        assert forall|p: IVec2| b.has(p.x as int, p.y as int) implies #[trigger] r@.cov(
                            p,
                        ) == larger(self@.cov(p), other@.cov(p)) by {
                            assert(gives(f, p, r@.cov(p)));
                        }
                    }
                    r
                },
                (Some(_), None) => self.clone(),
                (None, _) => other.clone(),
            },
            SelectionMode::Subtract => match (self.bounds(), other.bounds()) {
                (Some(x), Some(_)) => {
                    let f = |p: IVec2| -> (c: u32)
                        requires
                            self.wf() && other.wf(),
                        ensures
                            c == smaller(self@.cov(p), complement_spec(other@.cov(p)))
                                && is_coverage(c) && stored(c) == c,
                        { smaller_of(self.coverage_at(p), complement(other.coverage_at(p))) };
                    let r = mask_of(x, f);
                    proof {
                        assert forall|p: IVec2| x.has(p.x as int, p.y as int) implies #[trigger] r@.cov(
                            p,
                        ) == smaller(self@.cov(p), complement_spec(other@.cov(p))) by {
                            assert(gives(f, p, r@.cov(p)));
                        }
                    }
                    r
                },
                _ => self.clone(),
            },
        }
    }

    /// Select, within `canvas`, what is not selected.
    pub fn invert(&self, canvas: Rect) -> (r: Self)
        requires
            self.wf(),
        ensures
            r.wf(),
            is_inverse(self@, canvas, r@),
    {
        let f = |p: IVec2| -> (c: u32)
            requires
                self.wf(),
            ensures
                c == complement_spec(self@.cov(p)) && is_coverage(c) && stored(c) == c,
            {
                let v: u32 = self.coverage_at(p);
                let c: u32 = complement(v);
                c
            };
        let r = mask_of(canvas, f);
        proof {
            assert forall|p: IVec2| canvas.has(p.x as int, p.y as int) implies #[trigger] r@.cov(p)
                == complement_spec(self@.cov(p)) by {
                assert(gives(f, p, r@.cov(p)));
            }
        }
        r
    }

    /// Grow the selection by `amount` pixels.
    ///
    /// Each pixel becomes as much selected as the most selected pixel within
    /// `amount` columns and rows of it.
    pub fn grow(&self, amount: u32) -> (r: Self)
        requires
            self.wf(),
        ensures
            r.wf(),
            is_grown(self@, margin(amount), r@),
    {
        let n: i32 = margin_of(amount);
        match &self.kind {
            SelectionKind::Nothing => Selection::none(),
            SelectionKind::Rect(b) => Selection::rect(b.expand(n)),
            SelectionKind::Mask { coverage, bounds } => {
                let f = |p: IVec2| -> (c: u32)
                    requires
                        self.wf() && n >= 0,
                    ensures
                        is_window_max(self@, p, n as int, c) && is_coverage(c) && stored(c) == c,
                    {
                        let c: u32 = self.window_max(p, n);
                        c
                    };
                let r = mask_of(bounds.expand(n), f);
                proof {
                    assert forall|p: IVec2|
                        bounds.outset(n as int).has(p.x as int, p.y as int) implies is_window_max(
                        self@,
                        p,
                        n as int,
                        #[trigger] r@.cov(p),
                    ) by {
                        assert(gives(f, p, r@.cov(p)));
                    }
                }
                r
            },
        }
    }

    /// Shrink the selection by `amount` pixels.
    ///
    /// Each pixel becomes as much selected as the least selected pixel within
    /// `amount` columns and rows of it.
    pub fn shrink(&self, amount: u32) -> (r: Self)
        requires
            self.wf(),
        ensures
            r.wf(),
            is_shrunk(self@, margin(amount), r@),
    {
        let n: i32 = margin_of(amount);
        match &self.kind {
            SelectionKind::Nothing => Selection::none(),
            SelectionKind::Rect(b) => Selection::rect(b.shrink(n)),
            SelectionKind::Mask { coverage, bounds } => {
                let f = |p: IVec2| -> (c: u32)
                    requires
                        self.wf() && n >= 0,
                    ensures
                        is_window_min(self@, p, n as int, c) && is_coverage(c) && stored(c) == c,
                    {
                        let c: u32 = self.window_min(p, n);
                        c
                    };
                let r = mask_of(bounds.shrink(n), f);
                proof {
                    assert forall|p: IVec2|
                        bounds.outset(-(n as int)).has(p.x as int, p.y as int) implies is_window_min(
                        self@,
                        p,
                        n as int,
                        #[trigger] r@.cov(p),
                    ) by {
                        assert(gives(f, p, r@.cov(p)));
                    }
                }
                r
            },
        }
    }

    /// The tiles, in the space of a layer placed at `offset`, that the
    /// selection's bounds touch.
    pub fn selected_tiles(&self, offset: IVec2) -> (out: Vec<TileCoord>)
        ensures
            forall|c: TileCoord| #[trigger] out@.contains(c) <==> selected_tile(self@, offset, c),
            out@.no_duplicates(),
    {
        let mut out: Vec<TileCoord> = Vec::new();
        let b: Rect = match self.bounds() {
            Some(b) => b,
            None => {
                return out;
            },
        };
        let x0: i64 = (b.x as i64 - offset.x as i64).checked_div_euclid(256).unwrap();
        let x1: i64 = (b.right() - 1 - offset.x as i64).checked_div_euclid(256).unwrap();
        let y0: i64 = (b.y as i64 - offset.y as i64).checked_div_euclid(256).unwrap();
        let y1: i64 = (b.bottom() - 1 - offset.y as i64).checked_div_euclid(256).unwrap();
        let mut ty: i64 = y0;
        while ty <= y1
            invariant
                -0x200_0000 <= x0 <= x1 <= 0x200_0000,
                -0x200_0000 <= y0 <= y1 <= 0x200_0000,
                y0 <= ty <= y1 + 1,
                out@.no_duplicates(),
                forall|c: TileCoord| #[trigger]
                    out@.contains(c) <==> x0 <= c.x <= x1 && y0 <= c.y < ty,
            decreases y1 + 1 - ty,
        {
            let mut tx: i64 = x0;
            while tx <= x1
                invariant
                    -0x200_0000 <= x0 <= x1 <= 0x200_0000,
                    -0x200_0000 <= y0 <= y1 <= 0x200_0000,
                    y0 <= ty <= y1,
                    x0 <= tx <= x1 + 1,
                    out@.no_duplicates(),
                    forall|c: TileCoord| #[trigger]
                        out@.contains(c) <==> x0 <= c.x <= x1 && y0 <= c.y && earlier(
                            c.x as int,
                            c.y as int,
                            tx as int,
                            ty as int,
                        ),
                decreases x1 + 1 - tx,
            {
                let t: TileCoord = TileCoord { x: tx as i32, y: ty as i32 };
                let ghost before = out@;
                proof {
                    assert(!before.contains(t));
                }
                out.push(t);
                proof {
                    assert forall|c: TileCoord| #[trigger] out@.contains(c) <==> before.contains(c)
                        || c == t by {
                        if before.contains(c) {
                            let i = choose|i: int| 0 <= i < before.len() && before[i] == c;
                            assert(out@[i] == c);
                        }
                        assert(out@[out@.len() - 1] == t);
                    }
                }
                tx = tx + 1;
            }
            ty = ty + 1;
        }
        out
    }
}

/// The selection's bounds, seen from a layer placed at `offset`, touch tile `c`.
pub open spec fn selected_tile(s: SelectionView, offset: IVec2, c: TileCoord) -> bool {
    s.extent() matches Some(b) && {
        &&& (b.x - offset.x) / 256 <= c.x <= (b.right_edge() - 1 - offset.x) / 256
        &&& (b.y - offset.y) / 256 <= c.y <= (b.bottom_edge() - 1 - offset.y) / 256
    }
}

/// Every selected pixel, seen from a layer, lies in one of the selected tiles.
pub proof fn selected_pixels_lie_in_selected_tiles(s: SelectionView, offset: IVec2, p: IVec2)
    requires
        s.cov(p) != F_ZERO,
        crate::coord::local_coord_spec(p, offset) is Some,
    ensures
        selected_tile(
            s,
            offset,
            crate::coord::tile_of(crate::coord::local_coord_spec(p, offset)->0),
        ),
{
    coverage_lies_in_extent(s, p);
}

/// Inverting a fully selected rectangle selects exactly the rest of the canvas.
pub proof fn inverse_of_a_rectangle(r: Rect, p: IVec2)
    ensures
        complement_spec(SelectionView::Rect(r).cov(p)) == (if r.has(p.x as int, p.y as int) {
            F_ZERO
        } else {
            F_ONE
        }),
{
    crate::float_bits::complement_of_ends();
}

} // verus!
