//! Finding a matte.
use vstd::prelude::*;

use crate::coord::{IVec2, Rect};
use crate::float_bits::{at_most, F_SIGN};
use crate::ops::matte::on_edge;
use crate::ops::matte_key::{
    agreeing, changes, colors, darkest, even_cell, halves, inliers, lightest, occurrences,
    predicted, readable, refined, ring_at, solid_key, total_rank, MatteKey, F_EPSILON,
    SOLID_COVERAGE,
};
use crate::ops::matte_math::MatteKernel;
use crate::pixel::Rgba32F;

verus! {

/// Cells of a checkerboard alternate in both directions, start with an even one at the
/// origin, and have the same color throughout.
pub proof fn cells_alternate(origin: IVec2, tile: int, p: IVec2, q: IVec2)
    requires
        tile > 0,
    ensures
        even_cell(origin, tile, origin),
        q.x == p.x + tile && q.y == p.y ==> even_cell(origin, tile, q) != even_cell(
            origin,
            tile,
            p,
        ),
        q.x == p.x && q.y == p.y + tile ==> even_cell(origin, tile, q) != even_cell(
            origin,
            tile,
            p,
        ),
        (q.x - origin.x) / tile == (p.x - origin.x) / tile && (q.y - origin.y) / tile == (p.y
            - origin.y) / tile ==> even_cell(origin, tile, q) == even_cell(origin, tile, p),
        0 <= p.x - origin.x < tile && 0 <= p.y - origin.y < tile ==> even_cell(origin, tile, p),
{
    let (x, y) = (p.x - origin.x, p.y - origin.y);
    assert((x + tile) / tile == x / tile + 1) by (nonlinear_arith)
        requires
            tile > 0,
    ;
    assert((y + tile) / tile == y / tile + 1) by (nonlinear_arith)
        requires
            tile > 0,
    ;
    assert(0int / tile == 0) by (nonlinear_arith)
        requires
            tile > 0,
    ;
    if 0 <= x < tile && 0 <= y < tile {
        assert(x / tile == 0 && y / tile == 0) by (nonlinear_arith)
            requires
                0 <= x < tile,
                0 <= y < tile,
        ;
    }
}

/// A checkerboard predicts its first color where its cells start and the other one a
/// cell further; a solid matte predicts one color.
pub proof fn checkerboards_predict_both_colors(key: MatteKey, p: IVec2, q: IVec2)
    requires
        key.wf(),
    ensures
        key matches MatteKey::Checker { c_even, c_odd, tile, origin } ==> {
            &&& key.color(origin) == c_even
            &&& q.x == p.x + tile && q.y == p.y ==> key.color(p) == c_even && key.color(q) == c_odd
                || key.color(p) == c_odd && key.color(q) == c_even
            &&& q.x == p.x && q.y == p.y + tile ==> key.color(p) == c_even && key.color(q) == c_odd
                || key.color(p) == c_odd && key.color(q) == c_even
        },
        key matches MatteKey::Solid(c) ==> key.color(p) == c,
{
    if let MatteKey::Checker { c_even, c_odd, tile, origin } = key {
        cells_alternate(origin, tile as int, p, q);
    }
}

/// The border ring of a rectangle goes through every pixel at its edge and no other.
pub proof fn rings_go_round(r: Rect, p: IVec2)
    requires
        readable(r),
    ensures
        on_edge(r, p) <==> exists|n: int| 0 <= n < 2 * (r.w + r.h) && #[trigger] ring_at(r, n) == p,
{
    if on_edge(r, p) {
        let (x, y) = (p.x - r.x, p.y - r.y);
        let n = if p.y == r.y {
            2 * x
        } else if p.y == r.bottom_edge() - 1 {
            2 * x + 1
        } else if p.x == r.x {
            2 * r.w + 2 * y
        } else {
            2 * r.w + 2 * y + 1
        };
        assert(0 <= n < 2 * (r.w + r.h));
        assert(ring_at(r, n) == p);
    }
}

/// The inliers of some colors are those within the limit of the key, in their order.
pub proof fn inliers_are_near<M: MatteKernel>(
    math: &M,
    cs: Seq<Rgba32F>,
    key: Rgba32F,
    limit: u32,
)
    ensures
        inliers(math, cs, key, limit) == cs.filter(
            |c: Rgba32F| at_most(math.apart(c, key), limit),
        ),
    decreases cs.len(),
{
    reveal(Seq::filter);
    if cs.len() > 0 {
        inliers_are_near(math, cs.drop_last(), key, limit);
    }
}

/// Halving colors gives those at least as near to the first mean, and the others.
pub proof fn halves_are_nearer_to_their_mean<M: MatteKernel>(
    math: &M,
    cs: Seq<Rgba32F>,
    m0: Rgba32F,
    m1: Rgba32F,
)
    ensures
        halves(math, cs, m0, m1).0 == cs.filter(
            |c: Rgba32F| at_most(math.apart(c, m0), math.apart(c, m1)),
        ),
        halves(math, cs, m0, m1).1 == cs.filter(
            |c: Rgba32F| !at_most(math.apart(c, m0), math.apart(c, m1)),
        ),
        halves(math, cs, m0, m1).0.len() + halves(math, cs, m0, m1).1.len() == cs.len(),
    decreases cs.len(),
{
    reveal(Seq::filter);
    if cs.len() > 0 {
        halves_are_nearer_to_their_mean(math, cs.drop_last(), m0, m1);
    }
}

/// The darkest color is one of the colors and no brighter than any, the lightest no
/// darker.
pub proof fn the_darkest_and_the_lightest_are_extreme<M: MatteKernel>(math: &M, cs: Seq<Rgba32F>)
    requires
        cs.len() > 0,
    ensures
        cs.contains(darkest(math, cs)),
        cs.contains(lightest(math, cs)),
        forall|i: int|
            0 <= i < cs.len() ==> total_rank(math.brightness(darkest(math, cs))) <= total_rank(
                math.brightness(#[trigger] cs[i]),
            ) && total_rank(math.brightness(cs[i])) <= total_rank(
                math.brightness(lightest(math, cs)),
            ),
    decreases cs.len(),
{
    if cs.len() > 1 {
        let rest = cs.drop_last();
        the_darkest_and_the_lightest_are_extreme(math, rest);
        let i = choose|i: int| 0 <= i < rest.len() && rest[i] == darkest(math, rest);
        let j = choose|j: int| 0 <= j < rest.len() && rest[j] == lightest(math, rest);
        assert(cs[i] == darkest(math, rest) && cs[j] == lightest(math, rest));
        assert(cs[cs.len() - 1] == cs.last());
        assert forall|k: int| 0 <= k < cs.len() implies total_rank(
            math.brightness(darkest(math, cs)),
        ) <= total_rank(math.brightness(#[trigger] cs[k])) && total_rank(math.brightness(cs[k]))
            <= total_rank(math.brightness(lightest(math, cs))) by {
            if k < cs.len() - 1 {
                assert(cs[k] == rest[k]);
            }
        }
    } else {
        assert(cs[0] == darkest(math, cs));
    }
}

/// The order of brightness puts what is below zero before what is not, and within
/// them goes by size.
pub proof fn total_ranks_order_numbers(a: u32, b: u32)
    ensures
        total_rank(a) == total_rank(b) <==> a == b,
        a >= F_SIGN && b < F_SIGN ==> total_rank(a) < total_rank(b),
        a < F_SIGN && b < F_SIGN ==> (total_rank(a) < total_rank(b) <==> a < b),
        a >= F_SIGN && b >= F_SIGN ==> (total_rank(a) < total_rank(b) <==> a > b),
{
}

/// The places where a sequence changes are those whose entry differs from the one
/// before.
pub proof fn changes_are_where_neighbours_differ(s: Seq<usize>, n: int, i: usize)
    requires
        n <= s.len() <= usize::MAX,
    ensures
        changes(s, n).contains(i) <==> 1 <= i < n && s[i as int] != s[i - 1],
    decreases n,
{
    if n > 1 {
        changes_are_where_neighbours_differ(s, n - 1, i);
        let rest = changes(s, n - 1);
        if s[n - 1] != s[n - 2] {
            let all = rest.push((n - 1) as usize);
            assert(all[rest.len() as int] == (n - 1) as usize);
            if rest.contains(i) {
                let k = choose|k: int| 0 <= k < rest.len() && rest[k] == i;
                assert(all[k] == i);
            }
            if all.contains(i) && i != n - 1 {
                let k = choose|k: int| 0 <= k < all.len() && all[k] == i;
                assert(rest[k] == i);
            }
        }
    }
}

/// Counting how often a value occurs, how many border pixels agree with a
/// checkerboard, and how many are as predicted.
pub proof fn counts_count(values: Seq<usize>, v: usize)
    ensures
        occurrences(values, v) == values.filter(|u: usize| u == v).len(),
    decreases values.len(),
{
    reveal(Seq::filter);
    if values.len() > 0 {
        counts_count(values.drop_last(), v);
    }
}

/// Border pixels agree with a checkerboard where even cells have the first color and
/// odd cells the second; exchanging the colors of all makes the others agree.
pub proof fn agreeing_pixels_are_counted<M: MatteKernel>(
    math: &M,
    b: Seq<(IVec2, Rgba32F)>,
    origin: IVec2,
    tile: int,
    c_a: Rgba32F,
    c_b: Rgba32F,
)
    ensures
        agreeing(math, b, origin, tile, c_a, c_b) == b.filter(
            |e: (IVec2, Rgba32F)|
                even_cell(origin, tile, e.0) <==> at_most(
                    math.apart(e.1, c_a),
                    math.apart(e.1, c_b),
                ),
        ).len(),
        agreeing(math, b, origin, tile, c_a, c_b) <= b.len(),
    decreases b.len(),
{
    reveal(Seq::filter);
    if b.len() > 0 {
        agreeing_pixels_are_counted(math, b.drop_last(), origin, tile, c_a, c_b);
    }
}

/// A border pixel is as predicted where its color is within the limit of the color
/// that the matte has there.
pub proof fn predicted_pixels_are_counted<M: MatteKernel>(
    math: &M,
    b: Seq<(IVec2, Rgba32F)>,
    key: MatteKey,
    limit: u32,
)
    ensures
        predicted(math, b, key, limit) == b.filter(
            |e: (IVec2, Rgba32F)| at_most(math.apart(e.1, key.color(e.0)), limit),
        ).len(),
        predicted(math, b, key, limit) <= b.len(),
    decreases b.len(),
{
    reveal(Seq::filter);
    if b.len() > 0 {
        predicted_pixels_are_counted(math, b.drop_last(), key, limit);
    }
}

/// A border of one color is a solid matte of that color, where the mean of one color is
/// the color and the whole border is share enough.
pub proof fn one_color_is_a_solid_matte<M: MatteKernel>(
    math: &M,
    b: Seq<(IVec2, Rgba32F)>,
    c: Rgba32F,
    tolerance: u32,
)
    requires
        b.len() > 0,
        forall|i: int| 0 <= i < b.len() ==> (#[trigger] b[i]).1 == c,
        math.mean_of(colors(b)) == c,
        at_most(math.apart(c, c), F_EPSILON),
        at_most(math.apart(c, c), math.times(tolerance, tolerance)),
        math.is_share(b.len() as usize, b.len() as usize, SOLID_COVERAGE),
    ensures
        solid_key(math, b, tolerance) == Some(MatteKey::Solid(c)),
{
    let cs = colors(b);
    let limit = math.times(tolerance, tolerance);
    lemma_all_inliers(math, cs, c, limit);
    assert(refined(math, cs, c, limit, 4) == c);
}

proof fn lemma_all_inliers<M: MatteKernel>(math: &M, cs: Seq<Rgba32F>, c: Rgba32F, limit: u32)
    requires
        forall|i: int| 0 <= i < cs.len() ==> #[trigger] cs[i] == c,
        at_most(math.apart(c, c), limit),
    ensures
        inliers(math, cs, c, limit) == cs,
    decreases cs.len(),
{
    if cs.len() > 0 {
        assert(cs.last() == cs[cs.len() - 1]);
        lemma_all_inliers(math, cs.drop_last(), c, limit);
        assert(cs.drop_last().push(cs.last()) =~= cs);
    }
}

} // verus!
