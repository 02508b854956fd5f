//! What a matte removal takes for background.
use vstd::prelude::*;

use crate::buffer::pixel_at;
use crate::commands::transform::{minus, near_enough, plus};
use crate::coord::IVec2;
use crate::float_bits::{at_most, less};
use crate::ops::matte::{component, on_edge, opaque, Scene, DEFRINGE_RAMP_MARGIN, SPECK_MAX_AREA};
use crate::ops::matte_math::MatteKernel;
use crate::ops::region::{is_route, next_to, seeds_are_reached};
use crate::pixel::clear_px;

verus! {

/// Matte at the edge of the picture is background, and so is matte beside background.
/// Where enclosed matte counts too, all matte is. What is no matte never is.
pub proof fn background_comes_from_the_edge<M: MatteKernel>(
    s: Scene,
    math: &M,
    p: IVec2,
    q: IVec2,
)
    ensures
        s.within(p) && s.is_matte(math, p) && (s.enclosed || on_edge(s.r, p)) ==> s.background(
            math,
            p,
        ),
        s.background(math, p) && next_to(p, q, false) && s.within(q) && s.is_matte(math, q)
            ==> s.background(math, q),
        s.background(math, p) ==> s.within(p) && s.is_matte(math, p),
{
    let (from, inside) = (s.sources(), s.matte(math));
    if s.within(p) && s.is_matte(math, p) && (s.enclosed || on_edge(s.r, p)) {
        assert(from(p) && inside(p));
        seeds_are_reached(from, inside, false, p);
    }
    if s.background(math, p) {
        let path = choose|path: Seq<IVec2>| #[trigger]
            is_route(path, inside, false) && from(path[0]) && path.last() == p;
        assert(inside(path[path.len() - 1]));
        if next_to(p, q, false) && s.within(q) && s.is_matte(math, q) {
            assert(inside(q));
            let longer = path.push(q);
            assert forall|i: int| 0 <= i < longer.len() implies inside(#[trigger] longer[i]) by {
                if i < path.len() {
                    assert(longer[i] == path[i]);
                }
            }
            assert forall|i: int| 0 < i < longer.len() implies next_to(
                longer[i - 1],
                #[trigger] longer[i],
                false,
            ) by {
                if i < path.len() {
                    assert(longer[i] == path[i] && longer[i - 1] == path[i - 1]);
                }
            }
            assert(is_route(longer, inside, false));
            assert(longer[0] == path[0] && longer.last() == q);
        }
    }
}

/// Stray matte is opaque, near the matte's color, no background, and on an island of
/// such pixels that is small and touches the background.
pub proof fn specks_are_small_islands<M: MatteKernel>(s: Scene, math: &M, p: IVec2)
    ensures
        s.speck(math, p) ==> {
            &&& opaque(pixel_at(s.m, p)) && s.within(p) && !s.background(math, p)
            &&& at_most(s.off(math, p), s.speck_limit(math))
            &&& component(s.leftover(math), p).len() <= 64
        },
        component(s.leftover(math), p).len() > SPECK_MAX_AREA ==> !s.speck(math, p),
{
}

/// What is not taken for background and lies in no fringe stays as it is. Background
/// within the tolerance becomes transparent, and so does all of it that has no subject
/// beside it.
pub proof fn subjects_stay_and_background_goes<M: MatteKernel>(
    s: Scene,
    math: &M,
    band: nat,
    p: IVec2,
)
    ensures
        !s.cleared(math, p) && !s.in_band(math, band, p) ==> s.lifted(math, band, p) == pixel_at(
            s.m,
            p,
        ),
        s.cleared(math, p) && !less(s.limit(math), s.off(math, p)) ==> s.lifted(math, band, p)
            == clear_px(),
        s.cleared(math, p) && !s.beside_subject(math, p) ==> s.lifted(math, band, p) == clear_px(),
        s.background(math, p) ==> s.lifted(math, band, p) == clear_px(),
        !opaque(pixel_at(s.m, p)) ==> s.lifted(math, band, p) == pixel_at(s.m, p),
{
    background_comes_from_the_edge(s, math, p, p);
}

/// Fringe is opaque subject with a neighbour of the subject that is clearly farther
/// from the matte; the first band of it touches what is cleared.
pub proof fn fringe_ramps_away_from_the_matte<M: MatteKernel>(s: Scene, math: &M, p: IVec2)
    ensures
        s.in_band(math, 0, p) == false,
        s.in_band(math, 1, p) <==> s.fringe(math, p) && s.beside_cleared(math, p),
        s.fringe(math, p) ==> {
            &&& s.within(p) && opaque(pixel_at(s.m, p)) && !s.cleared(math, p)
            &&& exists|n: IVec2|
                {
                    &&& #[trigger] next_to(p, n, false)
                    &&& s.within(n) && opaque(pixel_at(s.m, n)) && !s.cleared(math, n)
                    &&& less(math.plus(s.off(math, p), DEFRINGE_RAMP_MARGIN), s.off(math, n))
                }
        },
{
    reveal_with_fuel(Scene::in_band, 3);
    if s.fringe(math, p) {
        let n = choose|n: IVec2| #[trigger] s.ramps(math, p, n);
        assert(next_to(p, n, false));
    }
}

/// A position seen from another and moved back is the position.
pub proof fn differences_of_positions_lead_back(p: IVec2, q: IVec2)
    requires
        near_enough(p, q),
    ensures
        plus(minus(p, q), q) == Some(p),
{
}

} // verus!
