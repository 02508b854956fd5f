//! Affine maps.
use vstd::prelude::*;

use crate::arith::{difference, product, sum, Arith};
use crate::commands::transform::{
    composed, determinant_of, floor_i32, image_x, image_y, least_number, mapped_origin,
    seen_locally, shift_by, Affine2,
};
use crate::coord::{IVec2, Vec2};
use crate::exact::{
    adding_cancels, differences_are_unique, differences_spread, exact, nothing_absorbs, products,
    signed, spreads, squares_have_no_sign, sums, sums_exchange, two,
};
use crate::float_bits::{at_most, nan, negated, number_of_i32, F_ONE, F_ZERO};
use crate::laws::gradients::placed;

verus! {

/// The six numbers of a map lie in `d`.
pub open spec fn mapping(d: Set<u32>, a: Affine2) -> bool {
    placed(d, a.x_axis) && placed(d, a.y_axis) && placed(d, a.translation)
}

/// What a map makes of a point.
pub open spec fn image<M: Arith>(m: &M, a: Affine2, p: Vec2) -> Vec2 {
    Vec2 { x: image_x(m, a, p.x, p.y), y: image_y(m, a, p.x, p.y) }
}

proof fn lemma_row<M: Arith>(m: &M, d: Set<u32>, p: u32, q: u32, x: u32, y: u32, t: u32)
    requires
        exact(m, d),
        d.contains(p) && d.contains(q) && d.contains(x) && d.contains(y) && d.contains(t),
    ensures
        d.contains(sum(m, product(m, p, x), product(m, q, y))),
        d.contains(sum(m, sum(m, product(m, p, x), product(m, q, y)), t)),
{
    two(m, d, p, x);
    two(m, d, q, y);
    two(m, d, product(m, p, x), product(m, q, y));
    two(m, d, sum(m, product(m, p, x), product(m, q, y)), t);
}

/// A map takes the origin to its translation, and one step along each axis moves the
/// image by that axis, from wherever.
pub proof fn maps_move_by_their_axes<M: Arith>(m: &M, d: Set<u32>, a: Affine2, p: Vec2)
    requires
        exact(m, d),
        mapping(d, a) && placed(d, p),
    ensures
        image(m, a, Vec2 { x: F_ZERO, y: F_ZERO }) == a.translation,
        ({
            let here = image(m, a, p);
            let right = image(m, a, Vec2 { x: sum(m, p.x, F_ONE), y: p.y });
            let down = image(m, a, Vec2 { x: p.x, y: sum(m, p.y, F_ONE) });
            &&& difference(m, right.x, here.x) == a.x_axis.x
            &&& difference(m, right.y, here.y) == a.x_axis.y
            &&& difference(m, down.x, here.x) == a.y_axis.x
            &&& difference(m, down.y, here.y) == a.y_axis.y
        }),
{
    lemma_steps(m, d, a.x_axis.x, a.y_axis.x, p.x, p.y, a.translation.x);
    lemma_steps(m, d, a.x_axis.y, a.y_axis.y, p.x, p.y, a.translation.y);
}

proof fn lemma_steps<M: Arith>(m: &M, d: Set<u32>, p: u32, q: u32, x: u32, y: u32, t: u32)
    requires
        exact(m, d),
        d.contains(p) && d.contains(q) && d.contains(x) && d.contains(y) && d.contains(t),
    ensures
        sum(m, sum(m, product(m, p, F_ZERO), product(m, q, F_ZERO)), t) == t,
        ({
            let here = sum(m, sum(m, product(m, p, x), product(m, q, y)), t);
            &&& difference(
                m,
                sum(m, sum(m, product(m, p, sum(m, x, F_ONE)), product(m, q, y)), t),
                here,
            ) == p
            &&& difference(
                m,
                sum(m, sum(m, product(m, p, x), product(m, q, sum(m, y, F_ONE))), t),
                here,
            ) == q
        }),
{
    nothing_absorbs(m, d, p);
    nothing_absorbs(m, d, q);
    two(m, d, F_ZERO, F_ZERO);
    two(m, d, t, t);
    lemma_row(m, d, p, q, x, y, t);
    let (px, qy) = (product(m, p, x), product(m, q, y));
    let here = sum(m, sum(m, px, qy), t);
    two(m, d, p, x);
    two(m, d, q, y);
    two(m, d, p, F_ONE);
    two(m, d, q, F_ONE);
    spreads(m, d, p, x, F_ONE);
    spreads(m, d, q, y, F_ONE);
    // ((px + p) + qy) + t = here + p
    sums(m, d, px, p, qy);
    sums(m, d, px, qy, p);
    two(m, d, px, qy);
    sums(m, d, sum(m, px, qy), p, t);
    two(m, d, here, p);
    adding_cancels(m, d, p, here);
    // (px + (qy + q)) + t = here + q
    sums(m, d, px, qy, q);
    sums(m, d, sum(m, px, qy), q, t);
    two(m, d, here, q);
    adding_cancels(m, d, q, here);
}

/// A shift moves every point by its vector.
pub proof fn shifts_move_points<M: Arith>(m: &M, d: Set<u32>, v: Vec2, p: Vec2)
    requires
        exact(m, d),
        placed(d, v) && placed(d, p),
    ensures
        image(m, shift_by(v), p) == (Vec2 { x: sum(m, p.x, v.x), y: sum(m, p.y, v.y) }),
{
    two(m, d, p.x, p.x);
    two(m, d, p.y, p.y);
    nothing_absorbs(m, d, p.x);
    nothing_absorbs(m, d, p.y);
}

/// What a composed map makes of a point is what the outer map makes of what the inner
/// one makes of it.
pub proof fn composing_maps_in_turn<M: Arith>(m: &M, d: Set<u32>, a: Affine2, b: Affine2, p: Vec2)
    requires
        exact(m, d),
        mapping(d, a) && mapping(d, b) && placed(d, p),
    ensures
        mapping(d, composed(m, a, b)),
        placed(d, image(m, b, p)),
        image(m, composed(m, a, b), p) == image(m, a, image(m, b, p)),
{
    let (x, y) = (p.x, p.y);
    lemma_row(m, d, a.x_axis.x, a.y_axis.x, b.x_axis.x, b.x_axis.y, a.translation.x);
    lemma_row(m, d, a.x_axis.x, a.y_axis.x, b.y_axis.x, b.y_axis.y, a.translation.x);
    lemma_row(m, d, a.x_axis.y, a.y_axis.y, b.x_axis.x, b.x_axis.y, a.translation.y);
    lemma_row(m, d, a.x_axis.y, a.y_axis.y, b.y_axis.x, b.y_axis.y, a.translation.y);
    lemma_row(m, d, a.x_axis.x, a.y_axis.x, b.translation.x, b.translation.y, a.translation.x);
    lemma_row(m, d, a.x_axis.y, a.y_axis.y, b.translation.x, b.translation.y, a.translation.y);
    lemma_row(m, d, b.x_axis.x, b.y_axis.x, x, y, b.translation.x);
    lemma_row(m, d, b.x_axis.y, b.y_axis.y, x, y, b.translation.y);
    lemma_composed(m, d, a.x_axis.x, a.y_axis.x, a.translation.x, b, x, y);
    lemma_composed(m, d, a.x_axis.y, a.y_axis.y, a.translation.y, b, x, y);
}

proof fn lemma_composed<M: Arith>(
    m: &M,
    d: Set<u32>,
    p: u32,
    q: u32,
    t: u32,
    b: Affine2,
    x: u32,
    y: u32,
)
    requires
        exact(m, d),
        d.contains(p) && d.contains(q) && d.contains(t) && d.contains(x) && d.contains(y),
        mapping(d, b),
    ensures
        ({
            let first = sum(m, product(m, p, b.x_axis.x), product(m, q, b.x_axis.y));
            let second = sum(m, product(m, p, b.y_axis.x), product(m, q, b.y_axis.y));
            let last = sum(
                m,
                sum(m, product(m, p, b.translation.x), product(m, q, b.translation.y)),
                t,
            );
            sum(m, sum(m, product(m, first, x), product(m, second, y)), last) == sum(
                m,
                sum(m, product(m, p, image_x(m, b, x, y)), product(m, q, image_y(m, b, x, y))),
                t,
            )
        }),
{
    let (u, v, w, z) = (b.x_axis.x, b.x_axis.y, b.y_axis.x, b.y_axis.y);
    let (r, s) = (b.translation.x, b.translation.y);
    // p (u x + w y + r) and q (v x + z y + s)
    lemma_expanded(m, d, p, u, w, r, x, y);
    lemma_expanded(m, d, q, v, z, s, x, y);
    let (pux, pwy, pr) = (
        product(m, product(m, p, u), x),
        product(m, product(m, p, w), y),
        product(m, p, r),
    );
    let (qvx, qzy, qs) = (
        product(m, product(m, q, v), x),
        product(m, product(m, q, z), y),
        product(m, q, s),
    );
    two(m, d, p, u);
    two(m, d, q, v);
    two(m, d, p, w);
    two(m, d, q, z);
    two(m, d, p, r);
    two(m, d, q, s);
    spreads(m, d, x, product(m, p, u), product(m, q, v));
    spreads(m, d, y, product(m, p, w), product(m, q, z));
    two(m, d, product(m, p, u), x);
    two(m, d, product(m, q, v), x);
    two(m, d, product(m, p, w), y);
    two(m, d, product(m, q, z), y);
    // ((pux + qvx) + (pwy + qzy)) + ((pr + qs) + t)
    sums_exchange(m, d, pux, qvx, pwy, qzy);
    let (pp, qq) = (sum(m, pux, pwy), sum(m, qvx, qzy));
    two(m, d, pux, pwy);
    two(m, d, qvx, qzy);
    two(m, d, pr, qs);
    sums_exchange(m, d, pp, qq, pr, qs);
    two(m, d, pp, qq);
    sums(m, d, sum(m, pp, qq), sum(m, pr, qs), t);
}

proof fn lemma_expanded<M: Arith>(
    m: &M,
    d: Set<u32>,
    p: u32,
    u: u32,
    w: u32,
    r: u32,
    x: u32,
    y: u32,
)
    requires
        exact(m, d),
        d.contains(p) && d.contains(u) && d.contains(w) && d.contains(r),
        d.contains(x) && d.contains(y),
    ensures
        product(m, p, sum(m, sum(m, product(m, u, x), product(m, w, y)), r)) == sum(
            m,
            sum(m, product(m, product(m, p, u), x), product(m, product(m, p, w), y)),
            product(m, p, r),
        ),
{
    two(m, d, u, x);
    two(m, d, w, y);
    two(m, d, product(m, u, x), product(m, w, y));
    spreads(m, d, p, sum(m, product(m, u, x), product(m, w, y)), r);
    spreads(m, d, p, product(m, u, x), product(m, w, y));
    products(m, d, p, u, x);
    products(m, d, p, w, y);
}

/// A map seen from layers: a point of a layer at `from` goes to where, seen from a
/// layer at `to`, the map takes that point of the document.
pub proof fn layers_see_maps_from_their_places<M: Arith>(
    m: &M,
    d: Set<u32>,
    affine: Affine2,
    from: IVec2,
    to: IVec2,
    p: Vec2,
)
    requires
        exact(m, d),
        signed(m, d),
        mapping(d, affine) && placed(d, p),
        d.contains(number_of_i32(from.x)) && d.contains(number_of_i32(from.y)),
        d.contains(number_of_i32(to.x)) && d.contains(number_of_i32(to.y)),
        number_of_i32(to.x) != F_ZERO && number_of_i32(to.y) != F_ZERO,
    ensures
        ({
            let local = image(m, seen_locally(m, affine, from, to), p);
            let whole = image(
                m,
                affine,
                Vec2 {
                    x: sum(m, p.x, number_of_i32(from.x)),
                    y: sum(m, p.y, number_of_i32(from.y)),
                },
            );
            &&& sum(m, local.x, number_of_i32(to.x)) == whole.x
            &&& sum(m, local.y, number_of_i32(to.y)) == whole.y
        }),
{
    let (tx, ty) = (number_of_i32(to.x), number_of_i32(to.y));
    let (fx, fy) = (number_of_i32(from.x), number_of_i32(from.y));
    two(m, d, F_ZERO, tx);
    two(m, d, F_ZERO, ty);
    let away = Vec2 { x: negated(tx), y: negated(ty) };
    let back = shift_by(away);
    let out = shift_by(Vec2 { x: fx, y: fy });
    let start = image(m, out, p);
    shifts_move_points(m, d, Vec2 { x: fx, y: fy }, p);
    two(m, d, p.x, fx);
    two(m, d, p.y, fy);
    composing_maps_in_turn(m, d, back, affine, start);
    composing_maps_in_turn(m, d, composed(m, back, affine), out, p);
    let whole = image(m, affine, start);
    shifts_move_points(m, d, away, whole);
    sums(m, d, whole.x, negated(tx), tx);
    sums(m, d, whole.y, negated(ty), ty);
    two(m, d, whole.x, whole.x);
    two(m, d, whole.y, whole.y);
}

/// Area is one for a shift, grows with each axis, and turns its sign when the axes are
/// exchanged.
pub proof fn areas_grow_with_each_axis<M: Arith>(
    m: &M,
    d: Set<u32>,
    a: Affine2,
    v: Vec2,
    t: u32,
)
    requires
        exact(m, d),
        mapping(d, a) && placed(d, v) && d.contains(t),
    ensures
        determinant_of(m, shift_by(v)) == F_ONE,
        sum(
            m,
            determinant_of(m, a),
            determinant_of(m, Affine2 { x_axis: a.y_axis, y_axis: a.x_axis, ..a }),
        ) == F_ZERO,
        determinant_of(
            m,
            Affine2 {
                x_axis: Vec2 { x: product(m, t, a.x_axis.x), y: product(m, t, a.x_axis.y) },
                ..a
            },
        ) == product(m, t, determinant_of(m, a)),
        determinant_of(
            m,
            Affine2 {
                x_axis: Vec2 { x: sum(m, a.x_axis.x, v.x), y: sum(m, a.x_axis.y, v.y) },
                ..a
            },
        ) == sum(
            m,
            determinant_of(m, a),
            determinant_of(m, Affine2 { x_axis: v, ..a }),
        ),
{
    two(m, d, F_ONE, F_ONE);
    nothing_absorbs(m, d, F_ZERO);
    adding_cancels(m, d, F_ONE, F_ONE);
    let (p, q) = (product(m, a.x_axis.x, a.y_axis.y), product(m, a.x_axis.y, a.y_axis.x));
    two(m, d, a.x_axis.x, a.y_axis.y);
    two(m, d, a.x_axis.y, a.y_axis.x);
    two(m, d, p, q);
    squares_have_no_sign(m, d, p, q);
    products(m, d, t, a.x_axis.x, a.y_axis.y);
    products(m, d, t, a.x_axis.y, a.y_axis.x);
    differences_spread(m, d, t, p, q);
    let (r, s) = (product(m, v.x, a.y_axis.y), product(m, v.y, a.y_axis.x));
    two(m, d, v.x, a.y_axis.y);
    two(m, d, v.y, a.y_axis.x);
    two(m, d, r, s);
    spreads(m, d, a.y_axis.y, a.x_axis.x, v.x);
    spreads(m, d, a.y_axis.x, a.x_axis.y, v.y);
    let (x, y) = (difference(m, p, q), difference(m, r, s));
    two(m, d, x, y);
    two(m, d, p, r);
    two(m, d, q, s);
    sums_exchange(m, d, x, q, y, s);
    sums_exchange(m, d, x, y, q, s);
    differences_are_unique(m, d, sum(m, p, r), sum(m, q, s), sum(m, x, y));
}

/// The least of four numbers is one of them and no larger than any.
pub proof fn the_least_is_least<M: Arith>(m: &M, a: u32, b: u32, c: u32, e: u32)
    requires
        !nan(a) && !nan(b) && !nan(c) && !nan(e),
    ensures
        ({
            let x = least_number(m, a, b, c, e);
            &&& x == a || x == b || x == c || x == e
            &&& at_most(x, a) && at_most(x, b) && at_most(x, c) && at_most(x, e)
        }),
{
}

/// A corner of the pixels from `min` to `max`: the far side of the last pixel, not its
/// near one, bounds them.
pub open spec fn is_corner<M: Arith>(m: &M, min: IVec2, max: IVec2, p: Vec2) -> bool {
    &&& p.x == number_of_i32(min.x) || p.x == sum(m, number_of_i32(max.x), F_ONE)
    &&& p.y == number_of_i32(min.y) || p.y == sum(m, number_of_i32(max.y), F_ONE)
}

/// The origin of a mapped box is the least that its corners are mapped to, rounded
/// down, along each axis.
pub proof fn mapped_boxes_start_at_their_least_corner<M: Arith>(
    m: &M,
    affine: Affine2,
    min: IVec2,
    max: IVec2,
    origin: IVec2,
)
    requires
        forall|p: Vec2|
            is_corner(m, min, max, p) ==> !nan(#[trigger] image(m, affine, p).x) && !nan(
                image(m, affine, p).y,
            ),
        mapped_origin(m, affine, min, max) == Some(origin),
    ensures
        exists|p: Vec2, q: Vec2|
            {
                &&& is_corner(m, min, max, p) && is_corner(m, min, max, q)
                &&& Some(origin.x) == floor_i32(m, (#[trigger] image(m, affine, p)).x)
                &&& Some(origin.y) == floor_i32(m, (#[trigger] image(m, affine, q)).y)
                &&& forall|r: Vec2|
                    is_corner(m, min, max, r) ==> at_most(
                        image(m, affine, p).x,
                        (#[trigger] image(m, affine, r)).x,
                    ) && at_most(image(m, affine, q).y, image(m, affine, r).y)
            },
{
    reveal(mapped_origin);
    let (x0, y0) = (number_of_i32(min.x), number_of_i32(min.y));
    let (x1, y1) = (sum(m, number_of_i32(max.x), F_ONE), sum(m, number_of_i32(max.y), F_ONE));
    let a = image(m, affine, Vec2 { x: x0, y: y0 });
    let b = image(m, affine, Vec2 { x: x1, y: y0 });
    let c = image(m, affine, Vec2 { x: x0, y: y1 });
    let e = image(m, affine, Vec2 { x: x1, y: y1 });
    the_least_is_least(m, a.x, b.x, c.x, e.x);
    the_least_is_least(m, a.y, b.y, c.y, e.y);
    let x = least_number(m, a.x, b.x, c.x, e.x);
    let y = least_number(m, a.y, b.y, c.y, e.y);
    let p = if x == a.x {
        Vec2 { x: x0, y: y0 }
    } else if x == b.x {
        Vec2 { x: x1, y: y0 }
    } else if x == c.x {
        Vec2 { x: x0, y: y1 }
    } else {
        Vec2 { x: x1, y: y1 }
    };
    let q = if y == a.y {
        Vec2 { x: x0, y: y0 }
    } else if y == b.y {
        Vec2 { x: x1, y: y0 }
    } else if y == c.y {
        Vec2 { x: x0, y: y1 }
    } else {
        Vec2 { x: x1, y: y1 }
    };
    assert(image(m, affine, p).x == x && image(m, affine, q).y == y);
    assert(is_corner(m, min, max, p) && is_corner(m, min, max, q));
    assert forall|r: Vec2| is_corner(m, min, max, r) implies at_most(
        image(m, affine, p).x,
        (#[trigger] image(m, affine, r)).x,
    ) && at_most(image(m, affine, q).y, image(m, affine, r).y) by {
        assert(r == (Vec2 { x: x0, y: y0 }) || r == (Vec2 { x: x1, y: y0 }) || r == (Vec2 {
            x: x0,
            y: y1,
        }) || r == (Vec2 { x: x1, y: y1 }));
    }
}

} // verus!
