//! Remove a "fake transparency" matte and recover true alpha.
//!
//! Many flattened images fake transparency by compositing the subject over an
//! opaque **matte**: either a solid near-uniform fill or the classic transparency
//! **checkerboard** (two alternating colors). This module detects such a matte
//! from the layer border and lifts the connected background region to real
//! transparency, and takes the matte color out of the anti-aliased edges.
use vstd::prelude::*;

use crate::buffer::{alike, pixel_at, sparse, TiledBuffer};
use crate::buffer_region::{inked, pruning_keeps_pixels, tight};
use crate::coord::{IVec2, Rect};
use crate::float_bits::{at_least_zero, at_most, is_at_most, is_less, less, max_zero};
use crate::ops::grid::{flags, grid_of, list_of, members, ring, settled, spread, Grid};
use crate::ops::matte_key::{
    detect, key_at, matte_key, readable, Block, MatteKey,
};
use crate::ops::matte_math::MatteKernel;
use crate::ops::region::{
    neighbours, next_to, reached, reached_both_ways, reached_is_the_least_closed_set,
    reached_onward, seeds_are_reached,
};
use crate::paint::{in_area, paint, writes};
use crate::pixel::{clear_px, sanitize, sanitized, Rgba32F};

verus! {

/// Default color-distance tolerance for matte detection and removal: `0.2`.
///
/// An RGB Euclidean distance below which a pixel counts as pure matte and is
/// cleared to full transparency.
pub const DEFAULT_MATTE_TOLERANCE: u32 = 0x3e4c_cccd;

/// Default [`MatteOptions::edge_softness`]: `0.55`.
pub const DEFAULT_EDGE_SOFTNESS: u32 = 0x3f0c_cccd;

/// Minimum alpha for a pixel to count as matte: `1 - 10⁻⁴`. A pixel that already
/// carries real transparency is left untouched.
pub const MATTE_MIN_ALPHA: u32 = 0x3f7f_f972;

/// Largest area, in pixels, of a stray opaque island that is cleared.
pub const SPECK_MAX_AREA: usize = 64;

/// Multiple of the tolerance within which every pixel of a small island must lie
/// for it to count as stray matte: `1.6`.
pub const SPECK_TOLERANCE_MULT: u32 = 0x3fcc_cccd;

/// Margin in squared color distance by which a neighbour must be farther from the
/// matte than a pixel for that pixel to count as fringe: `0.05`.
pub const DEFRINGE_RAMP_MARGIN: u32 = 0x3d4c_cccd;

/// Options controlling background-matte removal.
#[derive(Clone, Copy, Debug)]
pub struct MatteOptions {
    /// Color distance within which a pixel is treated as pure background and
    /// cleared to full transparency.
    pub tolerance: u32,
    /// How wide a band of the silhouette's anti-aliased fringe is decontaminated
    /// (given partial alpha and matte-spill removed). This only touches
    /// *transitional* edge pixels, never solid subject.
    pub edge_softness: u32,
    /// Also remove background-colored regions not connected to the border.
    pub remove_enclosed: bool,
}

impl Default for MatteOptions {
    fn default() -> (r: Self)
        ensures
            r.tolerance == DEFAULT_MATTE_TOLERANCE,
            r.edge_softness == DEFAULT_EDGE_SOFTNESS,
            !r.remove_enclosed,
    {
        MatteOptions {
            tolerance: DEFAULT_MATTE_TOLERANCE,
            edge_softness: DEFAULT_EDGE_SOFTNESS,
            remove_enclosed: false,
        }
    }
}

/// A pixel counts as opaque.
pub open spec fn opaque(px: Rgba32F) -> bool {
    at_most(MATTE_MIN_ALPHA, sanitized(px).a)
}

fn is_opaque(px: Rgba32F) -> (r: bool)
    ensures
        r == opaque(px),
{
    is_at_most(MATTE_MIN_ALPHA, sanitize(px).a)
}

/// The pixels and the matte that a removal works on.
pub struct Scene {
    /// The pixels.
    pub m: Map<(i32, i32), Seq<Rgba32F>>,
    /// The rectangle around them.
    pub r: Rect,
    /// The matte.
    pub key: MatteKey,
    /// The tolerance.
    pub inner: u32,
    /// Whether enclosed background is removed too.
    pub enclosed: bool,
}

/// A pixel at the edge of a rectangle.
pub open spec fn on_edge(r: Rect, p: IVec2) -> bool {
    r.has(p.x as int, p.y as int) && (p.x == r.x || p.y == r.y || p.x == r.right_edge() - 1 || p.y
        == r.bottom_edge() - 1)
}

/// The pixels that can be reached from `p` through a set.
pub open spec fn component(inside: spec_fn(IVec2) -> bool, p: IVec2) -> Set<IVec2> {
    Set::new(|q: IVec2| reached(|x: IVec2| x == p, inside, true, q))
}

impl Scene {
    /// Pixel `p` lies in the rectangle.
    pub open spec fn within(self, p: IVec2) -> bool {
        self.r.has(p.x as int, p.y as int)
    }

    /// How far pixel `p` is from the matte.
    pub open spec fn off<M: MatteKernel>(self, math: &M, p: IVec2) -> u32 {
        math.apart(sanitized(pixel_at(self.m, p)), self.key.color(p))
    }

    /// The square of the tolerance.
    pub open spec fn limit<M: MatteKernel>(self, math: &M) -> u32 {
        math.times(self.inner, self.inner)
    }

    /// Pixel `p` is opaque and within the tolerance of the matte.
    pub open spec fn is_matte<M: MatteKernel>(self, math: &M, p: IVec2) -> bool {
        opaque(pixel_at(self.m, p)) && at_most(self.off(math, p), self.limit(math))
    }

    /// The matte pixels of the rectangle.
    pub open spec fn matte<M: MatteKernel>(self, math: &M) -> spec_fn(IVec2) -> bool {
        |p: IVec2| self.within(p) && self.is_matte(math, p)
    }

    /// Where the flood starts.
    pub open spec fn sources(self) -> spec_fn(IVec2) -> bool {
        |p: IVec2| self.enclosed || on_edge(self.r, p)
    }

    /// Pixel `p` is background: matte that is connected to the border.
    pub open spec fn background<M: MatteKernel>(self, math: &M, p: IVec2) -> bool {
        reached(self.sources(), self.matte(math), false, p)
    }

    /// The largest squared distance from the matte that stray matte may have.
    pub open spec fn speck_limit<M: MatteKernel>(self, math: &M) -> u32 {
        let t = math.times(self.inner, SPECK_TOLERANCE_MULT);
        math.times(t, t)
    }

    /// The opaque matte-colored pixels that are not background.
    pub open spec fn leftover<M: MatteKernel>(self, math: &M) -> spec_fn(IVec2) -> bool {
        |p: IVec2|
            self.within(p) && !self.background(math, p) && opaque(pixel_at(self.m, p)) && at_most(
                self.off(math, p),
                self.speck_limit(math),
            )
    }

    /// Some pixel of a set touches the background.
    pub open spec fn touched<M: MatteKernel>(self, math: &M, s: Set<IVec2>) -> bool {
        exists|q: IVec2, n: IVec2|
            s.contains(q) && #[trigger] next_to(q, n, true) && self.background(math, n)
    }

    /// Pixel `p` is stray matte: it lies on a small island of leftover matte that
    /// touches the background.
    pub open spec fn speck<M: MatteKernel>(self, math: &M, p: IVec2) -> bool {
        let c = component(self.leftover(math), p);
        &&& self.leftover(math)(p)
        &&& c.finite()
        &&& c.len() <= SPECK_MAX_AREA
        &&& self.touched(math, c)
    }

    /// Pixel `p` is taken for background in the end.
    pub open spec fn cleared<M: MatteKernel>(self, math: &M, p: IVec2) -> bool {
        self.background(math, p) || self.speck(math, p)
    }

    /// Neighbour `n` of `p` is opaque subject and clearly farther from the matte.
    pub open spec fn ramps<M: MatteKernel>(self, math: &M, p: IVec2, n: IVec2) -> bool {
        &&& next_to(p, n, false)
        &&& self.within(n)
        &&& !self.cleared(math, n)
        &&& opaque(pixel_at(self.m, n))
        &&& less(math.plus(self.off(math, p), DEFRINGE_RAMP_MARGIN), self.off(math, n))
    }

    /// Pixel `p` is a transitional edge pixel.
    pub open spec fn fringe<M: MatteKernel>(self, math: &M, p: IVec2) -> bool {
        &&& self.within(p)
        &&& !self.cleared(math, p)
        &&& opaque(pixel_at(self.m, p))
        &&& exists|n: IVec2| #[trigger] self.ramps(math, p, n)
    }

    /// A neighbour of `p` is cleared.
    pub open spec fn beside_cleared<M: MatteKernel>(self, math: &M, p: IVec2) -> bool {
        exists|n: IVec2| #[trigger] next_to(p, n, false) && self.cleared(math, n)
    }

    /// A neighbour of `p` in the rectangle is not cleared.
    pub open spec fn beside_subject<M: MatteKernel>(self, math: &M, p: IVec2) -> bool {
        exists|n: IVec2| #[trigger]
            next_to(p, n, false) && self.within(n) && !self.cleared(math, n)
    }

    /// Pixel `p` is fringe at most `n` steps from what is cleared, all of them
    /// fringe.
    pub open spec fn in_band<M: MatteKernel>(self, math: &M, n: nat, p: IVec2) -> bool
        decreases n,
    {
        n > 0 && self.fringe(math, p) && (self.beside_cleared(math, p) || exists|q: IVec2|
            #![trigger next_to(q, p, false)]
            next_to(q, p, false) && self.in_band(math, (n - 1) as nat, q))
    }

    /// What becomes of pixel `p`: background is cleared, except that matte on the
    /// subject's edge beyond the tolerance, like the fringe, has the matte taken
    /// out of it.
    pub open spec fn lifted<M: MatteKernel>(self, math: &M, band: nat, p: IVec2) -> Rgba32F {
        let px = pixel_at(self.m, p);
        if self.cleared(math, p) {
            if self.beside_subject(math, p) && less(self.limit(math), self.off(math, p)) {
                math.unmixed(px, self.key.color(p))
            } else {
                clear_px()
            }
        } else if self.in_band(math, band, p) {
            math.unmixed(px, self.key.color(p))
        } else {
            px
        }
    }
}

/// A wider band holds a narrower one.
pub proof fn wider_bands_hold_narrower<M: MatteKernel>(s: Scene, math: &M, n: nat, p: IVec2)
    requires
        s.in_band(math, n, p),
    ensures
        s.in_band(math, n + 1, p),
    decreases n,
{
    if !s.beside_cleared(math, p) {
        let q = choose|q: IVec2|
            #![trigger next_to(q, p, false)]
            next_to(q, p, false) && s.in_band(math, (n - 1) as nat, q);
        wider_bands_hold_narrower(s, math, (n - 1) as nat, q);
        assert(next_to(q, p, false) && s.in_band(math, n, q));
    }
}

/// A pixel that carries real transparency keeps its value.
pub proof fn transparent_pixels_are_kept<M: MatteKernel>(s: Scene, math: &M, band: nat, p: IVec2)
    requires
        !opaque(pixel_at(s.m, p)),
    ensures
        s.lifted(math, band, p) == pixel_at(s.m, p),
{
    let inside = s.matte(math);
    if s.background(math, p) {
        reached_is_the_least_closed_set(s.sources(), inside, false, inside, p);
    }
    assert(!s.in_band(math, band, p));
}

/// Once a band stops growing it stays.
proof fn lemma_band_stays<M: MatteKernel>(s: Scene, math: &M, k: nat, n: nat)
    requires
        k <= n,
        forall|p: IVec2| #[trigger] s.in_band(math, k + 1, p) == s.in_band(math, k, p),
    ensures
        forall|p: IVec2| #[trigger] s.in_band(math, n, p) == s.in_band(math, k, p),
    decreases n,
{
    if n > k {
        lemma_band_stays(s, math, k, (n - 1) as nat);
        assert forall|p: IVec2| #[trigger] s.in_band(math, n, p) == s.in_band(math, k, p) by {
            assert(s.in_band(math, k + 1, p) == s.in_band(math, k, p));
            if s.in_band(math, n, p) && !s.beside_cleared(math, p) {
                let q = choose|q: IVec2|
                    #![trigger next_to(q, p, false)]
                    next_to(q, p, false) && s.in_band(math, (n - 1) as nat, q);
                assert(s.in_band(math, k, q));
                assert(next_to(q, p, false));
                assert(s.in_band(math, k + 1, p));
            }
            if s.in_band(math, k + 1, p) && !s.beside_cleared(math, p) {
                let q = choose|q: IVec2|
                    #![trigger next_to(q, p, false)]
                    next_to(q, p, false) && s.in_band(math, k, q);
                assert(s.in_band(math, (n - 1) as nat, q));
                assert(next_to(q, p, false));
            }
        }
    }
}

/// The block, the matte and the tolerance of a scene.
struct Stage<'a, M: MatteKernel> {
    math: &'a M,
    block: &'a Block,
    key: MatteKey,
    inner: u32,
    enclosed: bool,
}

impl<'a, M: MatteKernel> Stage<'a, M> {
    spec fn shows(&self, s: Scene) -> bool {
        &&& self.math.wf()
        &&& self.block.wf()
        &&& self.block.shows(s.m)
        &&& self.block.area() == s.r
        &&& readable(s.r)
        &&& self.key.wf()
        &&& self.key == s.key
        &&& self.inner == s.inner
        &&& self.enclosed == s.enclosed
    }

    fn distance(&self, p: IVec2, Ghost(s): Ghost<Scene>) -> (d: u32)
        requires
            self.shows(s),
            s.within(p),
        ensures
            d == s.off(self.math, p),
    {
        self.math.distance(sanitize(self.block.get(p)), key_at(&self.key, p))
    }
}

/// The background of a scene: matte connected to the border.
fn find_background<'a, M: MatteKernel>(
    stage: &Stage<'a, M>,
    Ghost(s): Ghost<Scene>,
) -> (g: Grid)
    requires
        stage.shows(s),
    ensures
        g.wf(),
        g.area() == s.r,
        forall|p: IVec2| #[trigger] g.on(p) <==> s.background(stage.math, p),
{
    let rect: Rect = stage.block.bounds();
    let limit: u32 = stage.math.product(stage.inner, stage.inner);
    let ghost inside = s.matte(stage.math);
    let gs: Ghost<Scene> = Ghost(s);
    let f = |p: IVec2| -> (b: bool)
        requires
            stage.shows(gs@) && gs@.within(p),
        ensures
            b == (opaque(pixel_at(gs@.m, p)) && at_most(gs@.off(stage.math, p), limit)),
        { is_opaque(stage.block.get(p)) && is_at_most(stage.distance(p, gs), limit) };
    let pass: Grid = grid_of(rect, &f, Ghost(|p: IVec2| s.is_matte(stage.math, p)));
    assert forall|p: IVec2| flags(pass)(p) == #[trigger] inside(p) by {
        pass.lemma_inside(p);
    }
    if stage.enclosed {
        proof {
            assert forall|p: IVec2| #[trigger] pass.on(p) <==> s.background(stage.math, p) by {
                if pass.on(p) {
                    assert(inside(p));
                    seeds_are_reached(s.sources(), inside, false, p);
                }
                if s.background(stage.math, p) {
                    reached_is_the_least_closed_set(s.sources(), inside, false, inside, p);
                    assert(inside(p));
                }
            }
        }
        return pass;
    }
    let right: i64 = rect.right() - 1;
    let bottom: i64 = rect.bottom() - 1;
    let e = |p: IVec2| -> (b: bool)
        requires
            true,
        ensures
            b == (p.x == rect.x || p.y == rect.y || p.x == right || p.y == bottom),
        { p.x == rect.x || p.y == rect.y || p.x as i64 == right || p.y as i64 == bottom };
    let seeds: Vec<IVec2> = list_of(
        rect,
        &e,
        Ghost(|p: IVec2| p.x == rect.x || p.y == rect.y || p.x == right || p.y == bottom),
    );
    let mut marked: Grid = Grid::new(rect);
    let list: Vec<IVec2> = spread(&pass, &mut marked, &seeds, false);
    proof {
        let from = members(seeds@);
        let through = flags(pass);
        assert forall|p: IVec2| from(p) == #[trigger] s.sources()(p) by {
            assert(seeds@.contains(p) <==> on_edge(s.r, p));
        }
        assert forall|p: IVec2| #[trigger] marked.on(p) <==> s.background(stage.math, p) by {
            if reached(from, through, false, p) {
                let path = choose|path: Seq<IVec2>| #[trigger]
                    crate::ops::region::is_route(path, through, false) && from(path[0])
                        && path.last() == p;
                assert(s.sources()(path[0]));
                assert(crate::ops::region::is_route(path, inside, false)) by {
                    assert forall|i: int| 0 <= i < path.len() implies inside(
                        #[trigger] path[i],
                    ) by {
                        assert(through(path[i]));
                    }
                }
            }
            if s.background(stage.math, p) {
                let path = choose|path: Seq<IVec2>| #[trigger]
                    crate::ops::region::is_route(path, inside, false) && s.sources()(path[0])
                        && path.last() == p;
                assert(from(path[0]));
                assert(crate::ops::region::is_route(path, through, false)) by {
                    assert forall|i: int| 0 <= i < path.len() implies through(
                        #[trigger] path[i],
                    ) by {
                        assert(inside(path[i]));
                    }
                }
            }
        }
    }
    marked
}

/// Two descriptions of a set with the same pixels have the same paths.
proof fn lemma_same_reach(
    a: spec_fn(IVec2) -> bool,
    b: spec_fn(IVec2) -> bool,
    from: spec_fn(IVec2) -> bool,
    start: spec_fn(IVec2) -> bool,
    diagonal: bool,
    p: IVec2,
)
    requires
        forall|q: IVec2| a(q) == #[trigger] b(q),
        forall|q: IVec2| from(q) == #[trigger] start(q),
        reached(from, a, diagonal, p),
    ensures
        reached(start, b, diagonal, p),
{
    let path = choose|path: Seq<IVec2>| #[trigger]
        crate::ops::region::is_route(path, a, diagonal) && from(path[0]) && path.last() == p;
    assert(start(path[0]));
    assert(crate::ops::region::is_route(path, b, diagonal)) by {
        assert forall|i: int| 0 <= i < path.len() implies b(#[trigger] path[i]) by {
            assert(a(path[i]));
        }
    }
}

/// The pixels of one island share their island.
proof fn lemma_one_island(inside: spec_fn(IVec2) -> bool, p: IVec2, q: IVec2)
    requires
        component(inside, p).contains(q),
    ensures
        component(inside, q) == component(inside, p),
{
    assert forall|x: IVec2| component(inside, q).contains(x) <==> component(inside, p).contains(
        x,
    ) by {
        let (at_p, at_q) = (|y: IVec2| y == p, |y: IVec2| y == q);
        if component(inside, q).contains(x) {
            reached_onward(at_p, inside, true, q, x);
        }
        if component(inside, p).contains(x) {
            reached_both_ways(inside, true, p, q);
            reached_onward(at_q, inside, true, p, x);
        }
    }
    assert(component(inside, q) =~= component(inside, p));
}

/// What [`find_specks`] keeps: the islands of the leftover pixels before `(x, y)`
/// have been looked at.
spec fn looked_over<M: MatteKernel>(
    s: Scene,
    math: &M,
    cand: Grid,
    visited: Grid,
    specks: Grid,
    x: int,
    y: int,
) -> bool {
    &&& visited.wf()
    &&& visited.area() == s.r
    &&& specks.wf()
    &&& specks.area() == s.r
    &&& settled(cand, visited, true)
    &&& forall|p: IVec2| #[trigger] visited.on(p) ==> cand.on(p)
    &&& forall|p: IVec2| #[trigger] specks.on(p) <==> visited.on(p) && s.speck(math, p)
    &&& forall|p: IVec2|
        cand.on(p) && (p.y < y || (p.y == y && p.x < x)) ==> #[trigger] visited.on(p)
}

/// True if a pixel of a list touches the background.
fn touches_background(list: &Vec<IVec2>, background: &Grid) -> (r: bool)
    requires
        background.wf(),
    ensures
        r <==> exists|q: IVec2, n: IVec2|
            list@.contains(q) && #[trigger] next_to(q, n, true) && background.on(n),
{
    let mut i: usize = 0;
    while i < list.len()
        invariant
            background.wf(),
            i <= list@.len(),
            forall|k: int, n: IVec2|
                0 <= k < i && #[trigger] next_to(list@[k], n, true) ==> !background.on(n),
        decreases list@.len() - i,
    {
        let near: Vec<IVec2> = ring(list[i], true);
        let mut j: usize = 0;
        while j < near.len()
            invariant
                background.wf(),
                i < list@.len(),
                j <= near@.len(),
                forall|q: IVec2| #[trigger]
                    near@.contains(q) <==> next_to(list@[i as int], q, true),
                forall|k: int| 0 <= k < j ==> !background.on(#[trigger] near@[k]),
            decreases near@.len() - j,
        {
            if background.get(near[j]) {
                proof {
                    assert(near@.contains(near@[j as int]));
                    assert(list@.contains(list@[i as int]));
                    assert(next_to(list@[i as int], near@[j as int], true));
                }
                return true;
            }
            j = j + 1;
        }
        proof {
            assert forall|k: int, n: IVec2|
                0 <= k < i + 1 && #[trigger] next_to(list@[k], n, true) implies !background.on(
                n,
            ) by {
                if k == i {
                    assert(near@.contains(n));
                    let q = choose|q: int| 0 <= q < near@.len() && near@[q] == n;
                    assert(!background.on(near@[q]));
                }
            }
        }
        i = i + 1;
    }
    proof {
        assert forall|q: IVec2, n: IVec2|
            list@.contains(q) && #[trigger] next_to(q, n, true) implies !background.on(n) by {
            let k = choose|k: int| 0 <= k < list@.len() && list@[k] == q;
            assert(next_to(list@[k], n, true));
        }
    }
    false
}

/// Mark the pixels of a list.
fn mark_all(g: &mut Grid, list: &Vec<IVec2>)
    requires
        old(g).wf(),
        forall|p: IVec2| #[trigger]
            list@.contains(p) ==> old(g).area().has(p.x as int, p.y as int),
    ensures
        final(g).wf(),
        final(g).area() == old(g).area(),
        forall|p: IVec2| #[trigger] final(g).on(p) <==> old(g).on(p) || list@.contains(p),
{
    let mut i: usize = 0;
    while i < list.len()
        invariant
            i <= list@.len(),
            g.wf(),
            g.area() == old(g).area(),
            forall|p: IVec2| #[trigger]
                list@.contains(p) ==> old(g).area().has(p.x as int, p.y as int),
            forall|p: IVec2| #[trigger]
                g.on(p) <==> old(g).on(p) || list@.take(i as int).contains(p),
        decreases list@.len() - i,
    {
        let q: IVec2 = list[i];
        assert(list@.contains(q));
        g.mark(q);
        proof {
            let (a, b) = (list@.take(i as int), list@.take(i + 1));
            assert(b =~= a.push(q));
            assert forall|p: IVec2| b.contains(p) <==> a.contains(p) || p == q by {
                if a.contains(p) {
                    let k = choose|k: int| 0 <= k < a.len() && a[k] == p;
                    assert(b[k] == p);
                }
                if b.contains(p) {
                    let k = choose|k: int| 0 <= k < b.len() && b[k] == p;
                    if k < i {
                        assert(a[k] == p);
                    }
                }
                assert(b[i as int] == q);
            }
        }
        i = i + 1;
    }
    assert(list@.take(i as int) =~= list@);
}

/// One island is looked at.
fn look_at<'a, M: MatteKernel>(
    stage: &Stage<'a, M>,
    Ghost(s): Ghost<Scene>,
    background: &Grid,
    cand: &Grid,
    visited: &mut Grid,
    specks: &mut Grid,
    p: IVec2,
)
    requires
        stage.shows(s),
        background.wf(),
        forall|q: IVec2| #[trigger] background.on(q) <==> s.background(stage.math, q),
        cand.wf(),
        cand.area() == s.r,
        forall|q: IVec2| flags(*cand)(q) == #[trigger] s.leftover(stage.math)(q),
        looked_over(s, stage.math, *cand, *old(visited), *old(specks), p.x as int, p.y as int),
        s.within(p),
    ensures
        looked_over(
            s,
            stage.math,
            *cand,
            *final(visited),
            *final(specks),
            p.x + 1,
            p.y as int,
        ),
{
    let ghost math = stage.math;
    let ghost inside = s.leftover(math);
    if cand.get(p) && !visited.get(p) {
        let ghost v0 = *visited;
        let ghost k0 = *specks;
        let mut start: Vec<IVec2> = Vec::new();
        start.push(p);
        let list: Vec<IVec2> = spread(cand, visited, &start, true);
        let ghost isle = component(inside, p);
        proof {
            let (from, at_p) = (members(start@), |x: IVec2| x == p);
            assert(start@[0] == p);
            assert forall|q: IVec2| from(q) == #[trigger] at_p(q) by {}
            let through = flags(*cand);
            assert forall|q: IVec2| reached(from, through, true, q) <==> #[trigger] isle.contains(
                q,
            ) by {
                if reached(from, through, true, q) {
                    lemma_same_reach(through, inside, from, at_p, true, q);
                }
                if isle.contains(q) {
                    assert forall|x: IVec2| inside(x) == #[trigger] through(x) by {}
                    assert forall|x: IVec2| at_p(x) == #[trigger] from(x) by {}
                    lemma_same_reach(inside, through, at_p, from, true, q);
                }
            }
            assert forall|q: IVec2| isle.contains(q) implies !v0.on(q) && #[trigger] cand.on(q) by {
                reached_is_the_least_closed_set(at_p, inside, true, inside, q);
                assert(flags(*cand)(q) == inside(q));
                if v0.on(q) {
                    reached_both_ways(inside, true, p, q);
                    let at_q = |x: IVec2| x == q;
                    let seen = flags(v0);
                    assert forall|x: IVec2| at_q(x) && #[trigger] inside(x) implies seen(x) by {}
                    assert forall|x: IVec2, y: IVec2|
                        seen(x) && #[trigger] next_to(x, y, true) && inside(y) implies seen(y) by {
                        assert(flags(*cand)(y) == inside(y));
                    }
                    reached_is_the_least_closed_set(at_q, inside, true, seen, p);
                }
            }
            assert forall|q: IVec2| #[trigger] list@.contains(q) <==> isle.contains(q) by {}
            assert(isle =~= list@.to_set());
            list@.unique_seq_to_set();
        }
        let touches: bool = touches_background(&list, background);
        proof {
            assert(touches == s.touched(math, isle)) by {
                if touches {
                    let (q, n) = choose|q: IVec2, n: IVec2|
                        list@.contains(q) && #[trigger] next_to(q, n, true) && background.on(n);
                    assert(isle.contains(q) && next_to(q, n, true) && s.background(math, n));
                }
                if s.touched(math, isle) {
                    let (q, n) = choose|q: IVec2, n: IVec2|
                        isle.contains(q) && #[trigger] next_to(q, n, true) && s.background(math, n);
                    assert(list@.contains(q) && next_to(q, n, true) && background.on(n));
                }
            }
            assert forall|q: IVec2| #[trigger] list@.contains(q) implies s.speck(math, q) == (
            list@.len() <= SPECK_MAX_AREA && touches) by {
                assert(isle.contains(q));
                lemma_one_island(inside, p, q);
                assert(cand.on(q));
                assert(flags(*cand)(q) == inside(q));
            }
            assert forall|q: IVec2| #[trigger] list@.contains(q) implies specks.area().has(
                q.x as int,
                q.y as int,
            ) by {
                assert(isle.contains(q));
                assert(cand.on(q));
                cand.lemma_inside(q);
            }
        }
        if list.len() <= SPECK_MAX_AREA && touches {
            mark_all(specks, &list);
        }
        proof {
            assert forall|q: IVec2| #[trigger] visited.on(q) <==> v0.on(q) || list@.contains(
                q,
            ) by {
                assert(list@.contains(q) <==> isle.contains(q));
            }
            assert forall|q: IVec2| #[trigger] specks.on(q) <==> visited.on(q) && s.speck(
                math,
                q,
            ) by {
                assert(k0.on(q) <==> v0.on(q) && s.speck(math, q));
            }
            assert forall|q: IVec2| #[trigger] visited.on(q) implies cand.on(q) by {
                if !v0.on(q) {
                    assert(list@.contains(q));
                    assert(isle.contains(q));
                }
            }
            assert forall|q: IVec2|
                cand.on(q) && (q.y < p.y || (q.y == p.y && q.x < p.x + 1)) implies #[trigger] visited.on(
                q,
            ) by {
                if q == p {
                    assert(inside(p)) by {
                        assert(flags(*cand)(p) == inside(p));
                    }
                    seeds_are_reached(|x: IVec2| x == p, inside, true, p);
                    assert(isle.contains(p));
                    assert(list@.contains(p));
                } else {
                    assert(v0.on(q));
                }
            }
        }
    }
}

/// Clear small bits of matte trapped in concavities that the border flood could
/// not reach.
///
/// 8-connected islands are grown over the matte-colored opaque pixels that the
/// flood left behind, so the subject's own body walls off each trapped pocket as
/// its own island. An island is cleared when it is both small and touches the
/// background.
fn despeckle_trapped_matte<'a, M: MatteKernel>(
    stage: &Stage<'a, M>,
    Ghost(s): Ghost<Scene>,
    background: &Grid,
) -> (specks: Grid)
    requires
        stage.shows(s),
        background.wf(),
        forall|q: IVec2| #[trigger] background.on(q) <==> s.background(stage.math, q),
    ensures
        specks.wf(),
        specks.area() == s.r,
        forall|p: IVec2| #[trigger] specks.on(p) <==> s.speck(stage.math, p),
{
    let rect: Rect = stage.block.bounds();
    let ghost math = stage.math;
    let t: u32 = stage.math.product(stage.inner, SPECK_TOLERANCE_MULT);
    let limit: u32 = stage.math.product(t, t);
    let gs: Ghost<Scene> = Ghost(s);
    let f = |p: IVec2| -> (b: bool)
        requires
            stage.shows(gs@) && gs@.within(p) && background.wf(),
        ensures
            b == (!background.on(p) && opaque(pixel_at(gs@.m, p)) && at_most(
                gs@.off(stage.math, p),
                limit,
            )),
        {
            !background.get(p) && is_opaque(stage.block.get(p)) && is_at_most(
                stage.distance(p, gs),
                limit,
            )
        };
    let ghost pred = |p: IVec2|
        !background.on(p) && opaque(pixel_at(s.m, p)) && at_most(s.off(math, p), limit);
    let cand: Grid = grid_of(rect, &f, Ghost(pred));
    proof {
        assert forall|q: IVec2| flags(cand)(q) == #[trigger] s.leftover(math)(q) by {
            cand.lemma_inside(q);
        }
    }
    let mut visited: Grid = Grid::new(rect);
    let mut specks: Grid = Grid::new(rect);
    let right: i64 = rect.right();
    let bottom: i64 = rect.bottom();
    let mut y: i64 = rect.y as i64;
    proof {
        assert forall|p: IVec2| #[trigger] cand.on(p) implies s.within(p) by {
            cand.lemma_inside(p);
        }
    }
    while y < bottom
        invariant
            stage.shows(s),
            math == stage.math,
            rect == s.r,
            background.wf(),
            forall|q: IVec2| #[trigger] background.on(q) <==> s.background(stage.math, q),
            cand.wf(),
            cand.area() == s.r,
            forall|p: IVec2| #[trigger] cand.on(p) ==> s.within(p),
            forall|q: IVec2| flags(cand)(q) == #[trigger] s.leftover(math)(q),
            right == rect.right_edge(),
            bottom == rect.bottom_edge(),
            rect.y <= y <= bottom,
            looked_over(s, math, cand, visited, specks, rect.x as int, y as int),
        decreases bottom - y,
    {
        let mut x: i64 = rect.x as i64;
        while x < right
            invariant
                stage.shows(s),
                math == stage.math,
                rect == s.r,
                background.wf(),
                forall|q: IVec2| #[trigger] background.on(q) <==> s.background(stage.math, q),
                cand.wf(),
                cand.area() == s.r,
                forall|p: IVec2| #[trigger] cand.on(p) ==> s.within(p),
                forall|q: IVec2| flags(cand)(q) == #[trigger] s.leftover(math)(q),
                right == rect.right_edge(),
                bottom == rect.bottom_edge(),
                rect.y <= y < bottom,
                rect.x <= x <= right,
                looked_over(s, math, cand, visited, specks, x as int, y as int),
            decreases right - x,
        {
            let p: IVec2 = IVec2::new(x as i32, y as i32);
            look_at(stage, Ghost(s), background, &cand, &mut visited, &mut specks, p);
            x = x + 1;
        }
        proof {
            assert forall|p: IVec2|
                cand.on(p) && (p.y < y + 1 || (p.y == y + 1 && p.x < rect.x)) implies #[trigger] visited.on(
                p,
            ) by {
                assert(s.within(p));
            }
        }
        y = y + 1;
    }
    proof {
        assert forall|p: IVec2| #[trigger] specks.on(p) <==> s.speck(math, p) by {
            if s.speck(math, p) {
                assert(flags(cand)(p) == s.leftover(math)(p));
                assert(cand.on(p));
                assert(s.within(p));
                assert(visited.on(p));
            }
        }
    }
    specks
}

/// True if a pixel is a transitional edge pixel.
fn is_fringe<'a, M: MatteKernel>(
    stage: &Stage<'a, M>,
    Ghost(s): Ghost<Scene>,
    cleared: &Grid,
    p: IVec2,
) -> (r: bool)
    requires
        stage.shows(s),
        s.within(p),
        cleared.wf(),
        forall|q: IVec2| #[trigger] cleared.on(q) <==> s.cleared(stage.math, q),
    ensures
        r == s.fringe(stage.math, p),
{
    if cleared.get(p) || !is_opaque(stage.block.get(p)) {
        return false;
    }
    let rect: Rect = stage.block.bounds();
    let bar: u32 = stage.math.sum(stage.distance(p, Ghost(s)), DEFRINGE_RAMP_MARGIN);
    let near: Vec<IVec2> = neighbours(p);
    let mut i: usize = 0;
    while i < near.len()
        invariant
            stage.shows(s),
            rect == s.r,
            s.within(p),
            bar == stage.math.plus(s.off(stage.math, p), DEFRINGE_RAMP_MARGIN),
            !s.cleared(stage.math, p),
            opaque(pixel_at(s.m, p)),
            cleared.wf(),
            forall|q: IVec2| #[trigger] cleared.on(q) <==> s.cleared(stage.math, q),
            i <= near@.len(),
            forall|q: IVec2| #[trigger] near@.contains(q) <==> next_to(p, q, false),
            forall|k: int| 0 <= k < i ==> !s.ramps(stage.math, p, #[trigger] near@[k]),
        decreases near@.len() - i,
    {
        let n: IVec2 = near[i];
        assert(near@.contains(n));
        if rect.contains(n) && !cleared.get(n) && is_opaque(stage.block.get(n)) && is_less(
            bar,
            stage.distance(n, Ghost(s)),
        ) {
            assert(s.ramps(stage.math, p, n));
            return true;
        }
        i = i + 1;
    }
    proof {
        assert forall|n: IVec2| !(#[trigger] s.ramps(stage.math, p, n)) by {
            if s.ramps(stage.math, p, n) {
                assert(near@.contains(n));
                let k = choose|k: int| 0 <= k < near@.len() && near@[k] == n;
                assert(!s.ramps(stage.math, p, near@[k]));
            }
        }
    }
    false
}

/// True if a neighbour of a pixel in the set, or with `inverse` one of the
/// rectangle that is not, exists.
fn beside(g: &Grid, p: IVec2, inverse: bool) -> (r: bool)
    requires
        g.wf(),
    ensures
        r <==> exists|n: IVec2| #[trigger]
            next_to(p, n, false) && g.area().has(n.x as int, n.y as int) && g.on(n) != inverse,
{
    let rect: Rect = g.bounds();
    let near: Vec<IVec2> = neighbours(p);
    let mut i: usize = 0;
    while i < near.len()
        invariant
            g.wf(),
            rect == g.area(),
            i <= near@.len(),
            forall|q: IVec2| #[trigger] near@.contains(q) <==> next_to(p, q, false),
            forall|k: int|
                0 <= k < i ==> !(rect.has((#[trigger] near@[k]).x as int, near@[k].y as int)
                    && g.on(near@[k]) != inverse),
        decreases near@.len() - i,
    {
        let n: IVec2 = near[i];
        assert(near@.contains(n));
        if rect.contains(n) && g.get(n) != inverse {
            return true;
        }
        i = i + 1;
    }
    proof {
        assert forall|n: IVec2| #[trigger] next_to(p, n, false) implies !(rect.has(
            n.x as int,
            n.y as int,
        ) && g.on(n) != inverse) by {
            assert(near@.contains(n));
            let k = choose|k: int| 0 <= k < near@.len() && near@[k] == n;
            assert(near@[k] == n);
        }
    }
    false
}

/// The newest pixels of a band.
spec fn front<M: MatteKernel>(s: Scene, math: &M, k: nat, p: IVec2) -> bool {
    s.in_band(math, k, p) && !s.in_band(math, (k - 1) as nat, p)
}

/// The band of fringe pixels along what is cleared.
fn find_band<'a, M: MatteKernel>(
    stage: &Stage<'a, M>,
    Ghost(s): Ghost<Scene>,
    cleared: &Grid,
    width: usize,
) -> (band: Grid)
    requires
        stage.shows(s),
        cleared.wf(),
        cleared.area() == s.r,
        forall|q: IVec2| #[trigger] cleared.on(q) <==> s.cleared(stage.math, q),
    ensures
        band.wf(),
        band.area() == s.r,
        forall|p: IVec2| #[trigger]
            band.on(p) <==> s.in_band(stage.math, width as nat, p),
{
    let rect: Rect = stage.block.bounds();
    let ghost math = stage.math;
    let mut band: Grid = Grid::new(rect);
    if width == 0 {
        return band;
    }
    proof {
        assert forall|p: IVec2| #[trigger] s.cleared(math, p) implies s.within(p) by {
            assert(cleared.on(p));
            cleared.lemma_inside(p);
        }
    }
    let gs: Ghost<Scene> = Ghost(s);
    let f = |p: IVec2| -> (b: bool)
        requires
            stage.shows(gs@) && gs@.within(p) && cleared.wf() && cleared.area() == gs@.r && (forall|
                q: IVec2,
            | #[trigger]
                cleared.on(q) <==> gs@.cleared(stage.math, q)),
        ensures
            b ==> gs@.fringe(stage.math, p),
            b == (gs@.fringe(stage.math, p) && exists|n: IVec2| #[trigger]
                next_to(p, n, false) && cleared.area().has(n.x as int, n.y as int) && cleared.on(
                    n,
                ) != false),
        { is_fringe(stage, gs, cleared, p) && beside(cleared, p, false) };
    let ghost first = |p: IVec2| s.fringe(math, p) && s.beside_cleared(math, p);
    proof {
        assert forall|p: IVec2, b: bool| #[trigger] f.ensures((p,), b) implies b == first(p) by {
            if s.beside_cleared(math, p) {
                let n = choose|n: IVec2| #[trigger]
                    next_to(p, n, false) && s.cleared(math, n);
                assert(next_to(p, n, false) && cleared.area().has(n.x as int, n.y as int)
                    && cleared.on(n));
            }
            if exists|n: IVec2| #[trigger]
                next_to(p, n, false) && cleared.area().has(n.x as int, n.y as int) && cleared.on(n)
                    != false {
                let n = choose|n: IVec2| #[trigger]
                    next_to(p, n, false) && cleared.area().has(n.x as int, n.y as int)
                        && cleared.on(n) != false;
                assert(next_to(p, n, false) && s.cleared(math, n));
            }
        }
    }
    let mut frontier: Vec<IVec2> = list_of(rect, &f, Ghost(first));
    mark_all(&mut band, &frontier);
    let mut k: usize = 1;
    proof {
        assert forall|p: IVec2| #[trigger] s.in_band(math, 1, p) <==> first(p) by {
            reveal_with_fuel(Scene::in_band, 2);
        }
        assert forall|p: IVec2| #[trigger] frontier@.contains(p) <==> front(s, math, 1, p) by {
            assert(s.in_band(math, 1, p) <==> first(p));
            assert(!s.in_band(math, 0, p));
        }
        assert forall|p: IVec2| #[trigger] band.on(p) <==> s.in_band(math, 1, p) by {
            assert(frontier@.contains(p) <==> front(s, math, 1, p));
            assert(!s.in_band(math, 0, p));
        }
    }
    while k < width && frontier.len() > 0
        invariant
            stage.shows(s),
            math == stage.math,
            rect == s.r,
            cleared.wf(),
            forall|q: IVec2| #[trigger] cleared.on(q) <==> s.cleared(stage.math, q),
            1 <= k <= width,
            band.wf(),
            band.area() == s.r,
            forall|p: IVec2| #[trigger] band.on(p) <==> s.in_band(math, k as nat, p),
            forall|p: IVec2| #[trigger]
                frontier@.contains(p) <==> front(s, math, k as nat, p),
        decreases width - k,
    {
        let mut next: Vec<IVec2> = Vec::new();
        let ghost b0 = band;
        let mut i: usize = 0;
        while i < frontier.len()
            invariant
                stage.shows(s),
                math == stage.math,
                rect == s.r,
                cleared.wf(),
                forall|q: IVec2| #[trigger] cleared.on(q) <==> s.cleared(stage.math, q),
                1 <= k < width,
                i <= frontier@.len(),
                forall|p: IVec2| #[trigger] b0.on(p) <==> s.in_band(math, k as nat, p),
                forall|p: IVec2| #[trigger]
                    frontier@.contains(p) <==> front(s, math, k as nat, p),
                band.wf(),
                band.area() == s.r,
                forall|p: IVec2| #[trigger] band.on(p) <==> b0.on(p) || next@.contains(p),
                forall|p: IVec2| #[trigger]
                    next@.contains(p) ==> !b0.on(p) && s.in_band(math, (k + 1) as nat, p),
                forall|j: int, b: IVec2|
                    0 <= j < i && #[trigger] next_to(frontier@[j], b, false) && s.fringe(math, b)
                        ==> band.on(b),
            decreases frontier@.len() - i,
        {
            let a: IVec2 = frontier[i];
            assert(frontier@.contains(a));
            let near: Vec<IVec2> = neighbours(a);
            let mut j: usize = 0;
            while j < near.len()
                invariant
                    stage.shows(s),
                    math == stage.math,
                    rect == s.r,
                    cleared.wf(),
                    forall|q: IVec2| #[trigger] cleared.on(q) <==> s.cleared(stage.math, q),
                    1 <= k < width,
                    i < frontier@.len(),
                    a == frontier@[i as int],
                    s.in_band(math, k as nat, a),
                    j <= near@.len(),
                    forall|q: IVec2| #[trigger] near@.contains(q) <==> next_to(a, q, false),
                    band.wf(),
                    band.area() == s.r,
                    forall|p: IVec2| #[trigger] band.on(p) <==> b0.on(p) || next@.contains(p),
                    forall|p: IVec2| #[trigger]
                        next@.contains(p) ==> !b0.on(p) && s.in_band(math, (k + 1) as nat, p),
                    forall|n: int, b: IVec2|
                        0 <= n < i && #[trigger] next_to(frontier@[n], b, false) && s.fringe(
                            math,
                            b,
                        ) ==> band.on(b),
                    forall|n: int|
                        0 <= n < j && s.fringe(math, #[trigger] near@[n]) ==> band.on(near@[n]),
                decreases near@.len() - j,
            {
                let b: IVec2 = near[j];
                assert(near@.contains(b));
                if rect.contains(b) && !band.get(b) && is_fringe(stage, Ghost(s), cleared, b) {
                    let ghost n0 = next@;
                    let ghost g0 = band;
                    band.mark(b);
                    next.push(b);
                    proof {
                        assert(next_to(a, b, false));
                        assert(s.in_band(math, (k + 1) as nat, b));
                        assert forall|p: IVec2| #[trigger] next@.contains(p) <==> n0.contains(p)
                            || p == b by {
                            if n0.contains(p) {
                                let q = choose|q: int| 0 <= q < n0.len() && n0[q] == p;
                                assert(next@[q] == p);
                            }
                            assert(next@[n0.len() as int] == b);
                        }
                        assert forall|p: IVec2| #[trigger] band.on(p) <==> b0.on(p)
                            || next@.contains(p) by {
                            assert(g0.on(p) <==> b0.on(p) || n0.contains(p));
                        }
                    }
                }
                j = j + 1;
            }
            proof {
                assert forall|n: int, b: IVec2|
                    0 <= n < i + 1 && #[trigger] next_to(frontier@[n], b, false) && s.fringe(
                        math,
                        b,
                    ) implies band.on(b) by {
                    if n == i {
                        assert(near@.contains(b));
                        let q = choose|q: int| 0 <= q < near@.len() && near@[q] == b;
                        assert(s.fringe(math, near@[q]));
                    }
                }
            }
            i = i + 1;
        }
        proof {
            let kn = k as nat;
            assert forall|p: IVec2| #[trigger] band.on(p) <==> s.in_band(math, kn + 1, p) by {
                if band.on(p) && b0.on(p) {
                    wider_bands_hold_narrower(s, math, kn, p);
                }
                if s.in_band(math, kn + 1, p) && !b0.on(p) {
                    assert(!s.in_band(math, kn, p));
                    assert(!s.beside_cleared(math, p));
                    let q = choose|q: IVec2|
                        #![trigger next_to(q, p, false)]
                        next_to(q, p, false) && s.in_band(math, kn, q);
                    if s.in_band(math, (kn - 1) as nat, q) {
                        assert(next_to(q, p, false) && s.in_band(math, (kn - 1) as nat, q));
                        assert(s.in_band(math, kn, p));
                    }
                    assert(front(s, math, kn, q));
                    assert(frontier@.contains(q));
                    let n = choose|n: int| 0 <= n < frontier@.len() && frontier@[n] == q;
                    assert(next_to(frontier@[n], p, false));
                }
            }
            assert forall|p: IVec2| #[trigger] next@.contains(p) <==> front(
                s,
                math,
                kn + 1,
                p,
            ) by {
                assert(band.on(p) <==> s.in_band(math, kn + 1, p));
                assert(b0.on(p) <==> s.in_band(math, kn, p));
            }
        }
        frontier = next;
        k = k + 1;
    }
    proof {
        if k < width {
            let kn = k as nat;
            assert forall|p: IVec2| #[trigger] s.in_band(math, kn + 1, p) == s.in_band(
                math,
                kn,
                p,
            ) by {
                if s.in_band(math, kn, p) {
                    wider_bands_hold_narrower(s, math, kn, p);
                }
                if s.in_band(math, kn + 1, p) && !s.in_band(math, kn, p) {
                    let q = choose|q: IVec2|
                        #![trigger next_to(q, p, false)]
                        next_to(q, p, false) && s.in_band(math, kn, q);
                    assert(!frontier@.contains(q));
                    assert(!front(s, math, kn, q));
                    assert(next_to(q, p, false) && s.in_band(math, (kn - 1) as nat, q));
                    assert(s.in_band(math, kn, p));
                }
            }
            lemma_band_stays(s, math, kn, width as nat);
        }
    }
    band
}

/// The smallest rectangle around the pixels of a buffer, if there is one that can
/// be read.
pub open spec fn is_frame(m: Map<(i32, i32), Seq<Rgba32F>>, r: Rect) -> bool {
    &&& r.w * r.h <= u32::MAX
    &&& exists|lo: IVec2, hi: IVec2| #[trigger]
        tight(inked(m), lo, hi) && r == Rect::from_corners_spec(lo, hi)
}

/// Read a buffer's exact occupied bounds.
///
/// Returns `None` for an empty buffer or one whose occupied bounds (which can
/// span far-apart sparse pixels) are too large to be read.
fn read_bounds(buffer: &TiledBuffer) -> (r: Option<Block>)
    requires
        buffer.wf(),
    ensures
        r matches Some(b) ==> b.wf() && b.shows(buffer@) && readable(b.area()) && is_frame(
            buffer@,
            b.area(),
        ),
        r is None ==> forall|f: Rect| !(#[trigger] is_frame(buffer@, f)),
{
    let bounds: Rect = match buffer.exact_bounds() {
        Some(b) => b,
        None => {
            proof {
                assert forall|f: Rect| !(#[trigger] is_frame(buffer@, f)) by {
                    if is_frame(buffer@, f) {
                        let (lo, hi) = choose|lo: IVec2, hi: IVec2| #[trigger]
                            tight(inked(buffer@), lo, hi) && f == Rect::from_corners_spec(lo, hi);
                        let p = choose|p: IVec2| #[trigger]
                            inked(buffer@).contains(p) && p.x == lo.x;
                        assert(inked(buffer@).contains(p));
                    }
                }
            }
            return None;
        },
    };
    let area: u64 = bounds.area();
    proof {
        assert forall|f: Rect| #[trigger] is_frame(buffer@, f) implies f == bounds by {
            let (lo, hi) = choose|lo: IVec2, hi: IVec2| #[trigger]
                tight(inked(buffer@), lo, hi) && f == Rect::from_corners_spec(lo, hi);
            let (lo2, hi2) = choose|lo: IVec2, hi: IVec2| #[trigger]
                tight(inked(buffer@), lo, hi) && bounds == Rect::from_corners_spec(lo, hi);
            crate::buffer_region::tight_box_is_unique(inked(buffer@), lo, hi, lo2, hi2);
        }
        let (lo, hi) = choose|lo: IVec2, hi: IVec2| #[trigger]
            tight(inked(buffer@), lo, hi) && bounds == Rect::from_corners_spec(lo, hi);
        let p = choose|p: IVec2| #[trigger] inked(buffer@).contains(p) && p.x == lo.x;
        assert(lo.x <= hi.x && lo.y <= hi.y);
        assert(bounds.w >= 1 && bounds.h >= 1);
        assert(bounds.right_edge() <= 0x8000_0000 && bounds.bottom_edge() <= 0x8000_0000);
    }
    if area > 0xffff_ffff {
        return None;
    }
    Some(Block::read(buffer, bounds))
}

/// What [`remove_matte_with`] returns for a buffer.
pub open spec fn is_removal<M: MatteKernel>(
    math: &M,
    m: Map<(i32, i32), Seq<Rgba32F>>,
    options: MatteOptions,
    out: Option<Map<(i32, i32), Seq<Rgba32F>>>,
) -> bool {
    let inner = at_least_zero(options.tolerance);
    if forall|f: Rect| !(#[trigger] is_frame(m, f)) {
        out is None
    } else {
        exists|r: Rect| #[trigger]
            is_frame(m, r) && match matte_key(math, m, r, inner) {
                None => out is None,
                Some(key) => {
                    let s = Scene { m, r, key, inner, enclosed: options.remove_enclosed };
                    let band = math.band_of(options.edge_softness) as nat;
                    out matches Some(o) && sparse(o) && forall|p: IVec2|
                        alike(#[trigger] pixel_at(o, p), s.lifted(math, band, p))
                },
            }
    }
}

/// Remove the detected background matte from `buffer` with default options but
/// for the tolerance.
pub fn remove_matte<M: MatteKernel>(
    math: &M,
    buffer: &TiledBuffer,
    tolerance: u32,
) -> (r: Option<TiledBuffer>)
    requires
        math.wf(),
        buffer.wf(),
    ensures
        r matches Some(b) ==> b.wf(),
        is_removal(
            math,
            buffer@,
            (MatteOptions {
                tolerance,
                edge_softness: DEFAULT_EDGE_SOFTNESS,
                remove_enclosed: false,
            }),
            match r {
                Some(b) => Some(b@),
                None => None,
            },
        ),
{
    remove_matte_with(
        math,
        buffer,
        MatteOptions {
            tolerance,
            edge_softness: DEFAULT_EDGE_SOFTNESS,
            remove_enclosed: false,
        },
    )
}

/// Remove the detected background matte from `buffer`, returning a new buffer.
///
/// The connected background, flood-filled from the layer's occupied border, is
/// cleared. The flood is **strict**: it only steps through near-matte pixels, so
/// it cannot leak into a light subject region. Small bits of matte trapped at the
/// silhouette are cleared too. The silhouette's anti-aliased fringe is then
/// cleaned: transitional edge pixels are **unmixed**, given partial alpha and
/// their matte-spill decontaminated, without touching solid subject. With
/// `remove_enclosed`, background trapped inside the subject is cleared too.
/// Subject pixels are left as they are except the thin decontaminated fringe.
/// Returns `None` when no solid or checkerboard matte is detected.
pub fn remove_matte_with<M: MatteKernel>(
    math: &M,
    buffer: &TiledBuffer,
    options: MatteOptions,
) -> (r: Option<TiledBuffer>)
    requires
        math.wf(),
        buffer.wf(),
    ensures
        r matches Some(b) ==> b.wf(),
        is_removal(
            math,
            buffer@,
            options,
            match r {
                Some(b) => Some(b@),
                None => None,
            },
        ),
{
    let inner: u32 = max_zero(options.tolerance);
    let block: Block = match read_bounds(buffer) {
        Some(b) => b,
        None => {
            return None;
        },
    };
    let rect: Rect = block.bounds();
    let key: MatteKey = match detect(math, &block, Ghost(buffer@), inner) {
        Some(k) => k,
        None => {
            assert(is_frame(buffer@, rect));
            return None;
        },
    };
    let ghost s = Scene {
        m: buffer@,
        r: rect,
        key,
        inner,
        enclosed: options.remove_enclosed,
    };
    let stage = Stage { math, block: &block, key, inner, enclosed: options.remove_enclosed };
    let background: Grid = find_background(&stage, Ghost(s));
    let specks: Grid = despeckle_trapped_matte(&stage, Ghost(s), &background);
    let c = |p: IVec2| -> (b: bool)
        requires
            background.wf() && specks.wf(),
        ensures
            b == (background.on(p) || specks.on(p)),
        { background.get(p) || specks.get(p) };
    let cleared: Grid = grid_of(rect, &c, Ghost(|p: IVec2| background.on(p) || specks.on(p)));
    proof {
        assert forall|q: IVec2| #[trigger] cleared.on(q) <==> s.cleared(math, q) by {
            background.lemma_inside(q);
            specks.lemma_inside(q);
            assert(background.on(q) <==> s.background(math, q));
            assert(specks.on(q) <==> s.speck(math, q));
        }
    }
    let width: usize = math.band(options.edge_softness);
    let band: Grid = find_band(&stage, Ghost(s), &cleared, width);
    let limit: u32 = math.product(inner, inner);
    let gs: Ghost<Scene> = Ghost(s);
    let f = |p: IVec2| -> (o: Option<Rgba32F>)
        requires
            stage.shows(gs@) && rect == gs@.r && cleared.wf() && band.wf(),
        ensures
            rect.has(p.x as int, p.y as int) ==> o == (if cleared.on(p) {
                Some(
                    if (exists|n: IVec2| #[trigger]
                        next_to(p, n, false) && cleared.area().has(n.x as int, n.y as int)
                            && cleared.on(n) != true) && less(limit, gs@.off(stage.math, p)) {
                        stage.math.unmixed(pixel_at(gs@.m, p), gs@.key.color(p))
                    } else {
                        clear_px()
                    },
                )
            } else if band.on(p) {
                Some(stage.math.unmixed(pixel_at(gs@.m, p), gs@.key.color(p)))
            } else {
                None
            }),
        {
            if !rect.contains(p) {
                return None;
            }
            if cleared.get(p) {
                if beside(&cleared, p, true) && is_less(limit, stage.distance(p, gs)) {
                    Some(stage.math.unmix(stage.block.get(p), key_at(&stage.key, p)))
                } else {
                    Some(Rgba32F::transparent())
                }
            } else if band.get(p) {
                Some(stage.math.unmix(stage.block.get(p), key_at(&stage.key, p)))
            } else {
                None
            }
        };
    let mut out: TiledBuffer = buffer.clone();
    paint(&mut out, rect.x as i64, rect.y as i64, rect.right(), rect.bottom(), f);
    let ghost painted = out@;
    proof {
        out.lemma_full();
        let area = (rect.x as int, rect.y as int, rect.right_edge(), rect.bottom_edge());
        let width_n = width as nat;
        assert forall|p: IVec2|
            alike(#[trigger] pixel_at(painted, p), s.lifted(math, width_n, p)) by {
            assert(out.at(p) == pixel_at(painted, p));
            assert(cleared.on(p) <==> s.cleared(math, p));
            assert(band.on(p) <==> s.in_band(math, width_n, p));
            cleared.lemma_inside(p);
            band.lemma_inside(p);
            if in_area(area, p) {
                assert(s.within(p));
                assert(writes(f, p, pixel_at(buffer@, p), out.at(p)));
                if s.beside_subject(math, p) {
                    let n = choose|n: IVec2| #[trigger]
                        next_to(p, n, false) && s.within(n) && !s.cleared(math, n);
                    assert(next_to(p, n, false) && !cleared.on(n));
                }
                if exists|n: IVec2| #[trigger]
                    next_to(p, n, false) && cleared.area().has(n.x as int, n.y as int)
                        && cleared.on(n) != true {
                    let n = choose|n: IVec2| #[trigger]
                        next_to(p, n, false) && cleared.area().has(n.x as int, n.y as int)
                            && cleared.on(n) != true;
                    assert(next_to(p, n, false) && s.within(n) && !s.cleared(math, n));
                }
            } else {
                assert(!s.within(p));
            }
        }
    }
    out.prune_empty_tiles();
    proof {
        let width_n = width as nat;
        assert forall|p: IVec2|
            alike(#[trigger] pixel_at(out@, p), s.lifted(math, width_n, p)) by {
            pruning_keeps_pixels(painted, p);
            assert(alike(pixel_at(painted, p), s.lifted(math, width_n, p)));
        }
        assert(is_frame(buffer@, rect));
    }
    Some(out)
}

} // verus!
