//! Gradients.
use vstd::prelude::*;

use crate::arith::{angle, difference, product, quotient, remainder, root, sum, Arith};
use crate::coord::{IVec2, Vec2};
use crate::exact::{
    adding_cancels, differences_are_unique, differences_spread, exact, made_of, nothing_absorbs,
    products, products_exchange, quotients_are_unique, rounding, signed, spreads, sums,
    sums_exchange, two,
};
use crate::float_bits::{
    absolute, finite, less, negated, number_of_i32, zero, F_HALF, F_ONE, F_SIGN, F_TWO, F_ZERO,
};
use crate::laws::colors::mixing_goes_from_one_to_the_other;
use crate::ops::gradient::{
    color_of_parameter, middle_of, parameter_at, shade, Gradient, GradientKind, WrapMode, TAU,
};
use crate::pixel::Rgba32F;

verus! {

/// A point with its coordinates exchanged.
pub open spec fn flipped(p: Vec2) -> Vec2 {
    Vec2 { x: p.y, y: p.x }
}

/// The square of the distance of two points.
pub open spec fn apart<M: Arith>(m: &M, p: Vec2, q: Vec2) -> u32 {
    let (x, y) = (difference(m, q.x, p.x), difference(m, q.y, p.y));
    sum(m, product(m, x, x), product(m, y, y))
}

/// How far two points are apart in steps along the axes.
pub open spec fn steps_apart<M: Arith>(m: &M, p: Vec2, q: Vec2) -> u32 {
    sum(m, absolute(difference(m, q.x, p.x)), absolute(difference(m, q.y, p.y)))
}

/// The coordinates of a point lie in `d`.
pub open spec fn placed(d: Set<u32>, p: Vec2) -> bool {
    d.contains(p.x) && d.contains(p.y)
}

/// Every line with two different ends, in whatever direction, starts at nothing and
/// ends at one.
pub proof fn gradients_start_and_end<M: Arith>(m: &M, p0: Vec2, p1: Vec2)
    requires
        rounding(m),
        finite(p0.x) && finite(p0.y),
        finite(difference(m, p1.x, p0.x)) && finite(difference(m, p1.y, p0.y)),
    ensures
        less(F_ZERO, apart(m, p0, p1)) && finite(apart(m, p0, p1)) ==> {
            &&& zero(parameter_at(m, p0, p0, p1, GradientKind::Linear))
            &&& parameter_at(m, p1, p0, p1, GradientKind::Linear) == F_ONE
        },
        less(F_ZERO, root(m, apart(m, p0, p1))) && finite(root(m, apart(m, p0, p1))) ==> {
            &&& zero(parameter_at(m, p0, p0, p1, GradientKind::Radial))
            &&& parameter_at(m, p1, p0, p1, GradientKind::Radial) == F_ONE
        },
        less(F_ZERO, steps_apart(m, p0, p1)) && finite(steps_apart(m, p0, p1)) ==> {
            &&& zero(parameter_at(m, p0, p0, p1, GradientKind::Diamond))
            &&& parameter_at(m, p1, p0, p1, GradientKind::Diamond) == F_ONE
        },
{
    let (dx, dy) = (difference(m, p1.x, p0.x), difference(m, p1.y, p0.y));
    assert(difference(m, p0.x, p0.x) == F_ZERO && difference(m, p0.y, p0.y) == F_ZERO);
    assert(zero(product(m, F_ZERO, dx)) && zero(product(m, F_ZERO, dy)));
    assert(zero(sum(m, product(m, F_ZERO, dx), product(m, F_ZERO, dy))));
    assert(sum(m, F_ZERO, F_ZERO) == F_ZERO);
    assert(absolute(F_ZERO) == F_ZERO);
}

/// Exchanging x and y of the line and of the point changes no parameter that is
/// measured as a length.
pub proof fn gradients_know_no_axis<M: Arith>(m: &M, d: Set<u32>, p: Vec2, p0: Vec2, p1: Vec2)
    requires
        exact(m, d),
        signed(m, d),
        placed(d, p) && placed(d, p0) && placed(d, p1),
    ensures
        parameter_at(m, flipped(p), flipped(p0), flipped(p1), GradientKind::Linear)
            == parameter_at(m, p, p0, p1, GradientKind::Linear),
        parameter_at(m, flipped(p), flipped(p0), flipped(p1), GradientKind::Radial)
            == parameter_at(m, p, p0, p1, GradientKind::Radial),
        parameter_at(m, flipped(p), flipped(p0), flipped(p1), GradientKind::Diamond)
            == parameter_at(m, p, p0, p1, GradientKind::Diamond),
{
    let (dx, dy) = (difference(m, p1.x, p0.x), difference(m, p1.y, p0.y));
    let (vx, vy) = (difference(m, p.x, p0.x), difference(m, p.y, p0.y));
    two(m, d, p1.x, p0.x);
    two(m, d, p1.y, p0.y);
    two(m, d, p.x, p0.x);
    two(m, d, p.y, p0.y);
    two(m, d, dx, dx);
    two(m, d, dy, dy);
    two(m, d, vx, vx);
    two(m, d, vy, vy);
    two(m, d, vx, dx);
    two(m, d, vy, dy);
    two(m, d, product(m, dx, dx), product(m, dy, dy));
    two(m, d, product(m, vx, vx), product(m, vy, vy));
    two(m, d, product(m, vx, dx), product(m, vy, dy));
    lemma_absolute_in(m, d, dx);
    lemma_absolute_in(m, d, dy);
    lemma_absolute_in(m, d, vx);
    lemma_absolute_in(m, d, vy);
    two(m, d, absolute(dx), absolute(dy));
    two(m, d, absolute(vx), absolute(vy));
}

proof fn lemma_absolute_in<M: Arith>(m: &M, d: Set<u32>, g: u32)
    requires
        signed(m, d),
        d.contains(g),
        d.contains(F_ZERO),
    ensures
        d.contains(absolute(g)),
{
    if g >= F_SIGN {
        assert(absolute(g) == negated(g));
    }
}

/// Moving a point along the line by a share of the line adds that share to its linear
/// parameter. Moving it across the line changes nothing.
pub proof fn linear_parameters_measure_along_the_line<M: Arith>(
    m: &M,
    d: Set<u32>,
    p: Vec2,
    p0: Vec2,
    p1: Vec2,
    t: u32,
)
    requires
        exact(m, d),
        placed(d, p) && placed(d, p0) && placed(d, p1) && d.contains(t),
        less(F_ZERO, apart(m, p0, p1)),
    ensures
        ({
            let (dx, dy) = (difference(m, p1.x, p0.x), difference(m, p1.y, p0.y));
            let along = Vec2 {
                x: sum(m, p.x, product(m, t, dx)),
                y: sum(m, p.y, product(m, t, dy)),
            };
            let across = Vec2 {
                x: difference(m, p.x, product(m, t, dy)),
                y: sum(m, p.y, product(m, t, dx)),
            };
            let here = parameter_at(m, p, p0, p1, GradientKind::Linear);
            &&& parameter_at(m, along, p0, p1, GradientKind::Linear) == sum(m, here, t)
            &&& parameter_at(m, across, p0, p1, GradientKind::Linear) == here
        }),
{
    let (dx, dy) = (difference(m, p1.x, p0.x), difference(m, p1.y, p0.y));
    let (vx, vy) = (difference(m, p.x, p0.x), difference(m, p.y, p0.y));
    let (tx, ty) = (product(m, t, dx), product(m, t, dy));
    let dsq = apart(m, p0, p1);
    two(m, d, p1.x, p0.x);
    two(m, d, p1.y, p0.y);
    two(m, d, p.x, p0.x);
    two(m, d, p.y, p0.y);
    two(m, d, t, dx);
    two(m, d, t, dy);
    two(m, d, dx, dx);
    two(m, d, dy, dy);
    two(m, d, product(m, dx, dx), product(m, dy, dy));
    let (a, b) = (product(m, vx, dx), product(m, vy, dy));
    two(m, d, vx, dx);
    two(m, d, vy, dy);
    let dot = sum(m, a, b);
    two(m, d, a, b);
    two(m, d, dot, dsq);
    let here = quotient(m, dot, dsq);
    // Along: (vx + tx) dx + (vy + ty) dy = dot + t dsq
    lemma_sum_less(m, d, p.x, tx, p0.x);
    lemma_sum_less(m, d, p.y, ty, p0.y);
    lemma_sum_less(m, d, p.y, tx, p0.y);
    lemma_difference_less(m, d, p.x, ty, p0.x);
    spreads(m, d, dx, vx, tx);
    spreads(m, d, dy, vy, ty);
    two(m, d, tx, dx);
    two(m, d, ty, dy);
    sums_exchange(m, d, a, product(m, tx, dx), b, product(m, ty, dy));
    products(m, d, t, dx, dx);
    products(m, d, t, dy, dy);
    spreads(m, d, t, product(m, dx, dx), product(m, dy, dy));
    two(m, d, t, dsq);
    spreads(m, d, dsq, here, t);
    two(m, d, here, t);
    two(m, d, dot, product(m, t, dsq));
    quotients_are_unique(m, d, sum(m, dot, product(m, t, dsq)), dsq, sum(m, here, t));
    // Across: (vx - ty) dx + (vy + tx) dy = dot
    let u = product(m, ty, dx);
    two(m, d, ty, dx);
    two(m, d, tx, dy);
    products(m, d, t, dy, dx);
    products(m, d, t, dx, dy);
    differences_spread(m, d, dx, vx, ty);
    spreads(m, d, dy, vy, tx);
    two(m, d, vx, ty);
    two(m, d, a, u);
    two(m, d, b, u);
    sums(m, d, difference(m, a, u), b, u);
    sums(m, d, difference(m, a, u), u, b);
}

/// (a + b) - c = (a - c) + b
proof fn lemma_sum_less<M: Arith>(m: &M, d: Set<u32>, a: u32, b: u32, c: u32)
    requires
        exact(m, d),
        d.contains(a) && d.contains(b) && d.contains(c),
    ensures
        difference(m, sum(m, a, b), c) == sum(m, difference(m, a, c), b),
        d.contains(sum(m, a, b)),
{
    let x = difference(m, a, c);
    two(m, d, a, c);
    two(m, d, a, b);
    two(m, d, x, b);
    sums(m, d, x, b, c);
    differences_are_unique(m, d, sum(m, a, b), c, sum(m, x, b));
}

/// (a - b) - c = (a - c) - b
proof fn lemma_difference_less<M: Arith>(m: &M, d: Set<u32>, a: u32, b: u32, c: u32)
    requires
        exact(m, d),
        d.contains(a) && d.contains(b) && d.contains(c),
    ensures
        difference(m, difference(m, a, b), c) == difference(m, difference(m, a, c), b),
        d.contains(difference(m, a, b)),
{
    let x = difference(m, difference(m, a, c), b);
    two(m, d, a, c);
    two(m, d, a, b);
    two(m, d, difference(m, a, c), b);
    two(m, d, x, c);
    sums(m, d, x, b, c);
    differences_are_unique(m, d, a, b, sum(m, x, c));
    differences_are_unique(m, d, difference(m, a, b), c, x);
}

/// Radial parameters compare distances from the start, diamond ones the steps along
/// the axes.
pub proof fn radial_and_diamond_parameters_compare_distances<M: Arith>(
    m: &M,
    d: Set<u32>,
    p: Vec2,
    p0: Vec2,
    p1: Vec2,
)
    requires
        exact(m, d),
        signed(m, d),
        placed(d, p) && placed(d, p0) && placed(d, p1),
    ensures
        ({
            let (r, v) = (root(m, apart(m, p0, p1)), root(m, apart(m, p0, p)));
            let t = parameter_at(m, p, p0, p1, GradientKind::Radial);
            less(F_ZERO, r) && d.contains(r) && d.contains(v) && product(m, r, r) == apart(
                m,
                p0,
                p1,
            ) && product(m, v, v) == apart(m, p0, p) ==> product(
                m,
                product(m, t, t),
                apart(m, p0, p1),
            ) == apart(m, p0, p)
        }),
        less(F_ZERO, steps_apart(m, p0, p1)) ==> product(
            m,
            parameter_at(m, p, p0, p1, GradientKind::Diamond),
            steps_apart(m, p0, p1),
        ) == steps_apart(m, p0, p),
{
    let (dx, dy) = (difference(m, p1.x, p0.x), difference(m, p1.y, p0.y));
    let (vx, vy) = (difference(m, p.x, p0.x), difference(m, p.y, p0.y));
    two(m, d, p1.x, p0.x);
    two(m, d, p1.y, p0.y);
    two(m, d, p.x, p0.x);
    two(m, d, p.y, p0.y);
    lemma_absolute_in(m, d, dx);
    lemma_absolute_in(m, d, dy);
    lemma_absolute_in(m, d, vx);
    lemma_absolute_in(m, d, vy);
    two(m, d, absolute(dx), absolute(dy));
    two(m, d, absolute(vx), absolute(vy));
    let dl = steps_apart(m, p0, p1);
    two(m, d, steps_apart(m, p0, p), dl);
    let (r, v) = (root(m, apart(m, p0, p1)), root(m, apart(m, p0, p)));
    if less(F_ZERO, r) && d.contains(r) && d.contains(v) {
        let t = quotient(m, v, r);
        two(m, d, v, r);
        products_exchange(m, d, t, t, r, r);
    }
}

/// A conical parameter is the angle from the line to the point, as a share of the
/// whole turn: where the line is turned and stretched to the point by `(u, w)`, it is
/// that of `(u, w)`, stretched by the line's squared length.
pub proof fn conical_parameters_turn_with_the_line<M: Arith>(
    m: &M,
    d: Set<u32>,
    p: Vec2,
    p0: Vec2,
    p1: Vec2,
    u: u32,
    w: u32,
)
    requires
        exact(m, d),
        placed(d, p) && placed(d, p0) && placed(d, p1) && d.contains(u) && d.contains(w),
        ({
            let (dx, dy) = (difference(m, p1.x, p0.x), difference(m, p1.y, p0.y));
            &&& difference(m, p.x, p0.x) == difference(m, product(m, u, dx), product(m, w, dy))
            &&& difference(m, p.y, p0.y) == sum(m, product(m, w, dx), product(m, u, dy))
        }),
    ensures
        ({
            let len = apart(m, p0, p1);
            parameter_at(m, p, p0, p1, GradientKind::Conical) == quotient(
                m,
                remainder(m, angle(m, product(m, w, len), product(m, u, len)), TAU),
                TAU,
            )
        }),
{
    let (dx, dy) = (difference(m, p1.x, p0.x), difference(m, p1.y, p0.y));
    let (vx, vy) = (difference(m, p.x, p0.x), difference(m, p.y, p0.y));
    two(m, d, p1.x, p0.x);
    two(m, d, p1.y, p0.y);
    let (xx, yy) = (product(m, dx, dx), product(m, dy, dy));
    two(m, d, dx, dx);
    two(m, d, dy, dy);
    two(m, d, xx, yy);
    let (ux, wy) = (product(m, u, dx), product(m, w, dy));
    let (wx, uy) = (product(m, w, dx), product(m, u, dy));
    two(m, d, u, dx);
    two(m, d, w, dy);
    two(m, d, w, dx);
    two(m, d, u, dy);
    // along = dx (ux - wy) + dy (wx + uy) = u (xx + yy)
    differences_spread(m, d, dx, ux, wy);
    spreads(m, d, dy, wx, uy);
    products(m, d, u, dx, dx);
    products(m, d, u, dy, dy);
    products(m, d, w, dx, dy);
    products(m, d, w, dy, dx);
    products(m, d, w, dx, dx);
    products(m, d, w, dy, dy);
    products(m, d, u, dx, dy);
    products(m, d, u, dy, dx);
    two(m, d, dx, dy);
    let (uxx, uyy) = (product(m, u, xx), product(m, u, yy));
    let (wxx, wyy) = (product(m, w, xx), product(m, w, yy));
    let (wxy, uxy) = (product(m, w, product(m, dx, dy)), product(m, u, product(m, dx, dy)));
    two(m, d, u, xx);
    two(m, d, u, yy);
    two(m, d, w, xx);
    two(m, d, w, yy);
    two(m, d, w, product(m, dx, dy));
    two(m, d, u, product(m, dx, dy));
    two(m, d, dx, ux);
    two(m, d, dx, wy);
    two(m, d, dy, wx);
    two(m, d, dy, uy);
    two(m, d, dx, wx);
    two(m, d, dx, uy);
    two(m, d, dy, ux);
    two(m, d, dy, wy);
    spreads(m, d, u, xx, yy);
    two(m, d, uxx, wxy);
    sums(m, d, difference(m, uxx, wxy), wxy, uyy);
    two(m, d, wxy, uyy);
    assert(sum(m, product(m, dx, vx), product(m, dy, vy)) == product(m, u, sum(m, xx, yy)));
    // cross = dx (wx + uy) - dy (ux - wy) = w (xx + yy)
    spreads(m, d, dx, wx, uy);
    differences_spread(m, d, dy, ux, wy);
    spreads(m, d, w, xx, yy);
    two(m, d, uxy, wyy);
    two(m, d, wxx, uxy);
    two(m, d, wxx, wyy);
    sums(m, d, wxx, wyy, difference(m, uxy, wyy));
    differences_are_unique(
        m,
        d,
        sum(m, wxx, uxy),
        difference(m, uxy, wyy),
        sum(m, wxx, wyy),
    );
    assert(difference(m, product(m, dx, vy), product(m, dy, vx)) == product(m, w, sum(m, xx, yy)));
}

/// A line whose ends are one point gives nothing everywhere, unless it is conical.
pub proof fn lines_without_length_give_nothing<M: Arith>(m: &M, p: Vec2, p0: Vec2)
    requires
        rounding(m),
        finite(p0.x) && finite(p0.y),
    ensures
        parameter_at(m, p, p0, p0, GradientKind::Linear) == F_ZERO,
        parameter_at(m, p, p0, p0, GradientKind::Radial) == F_ZERO,
        parameter_at(m, p, p0, p0, GradientKind::Diamond) == F_ZERO,
{
    assert(difference(m, p0.x, p0.x) == F_ZERO && difference(m, p0.y, p0.y) == F_ZERO);
    assert(product(m, F_ZERO, F_ZERO) == F_ZERO && sum(m, F_ZERO, F_ZERO) == F_ZERO);
    assert(absolute(F_ZERO) == F_ZERO);
}

/// Between zero and one no wrap changes a parameter. Beyond, clamping stays at the
/// end, repeating starts again, and reflecting goes back.
pub proof fn wraps_keep_what_lies_between<M: Arith>(m: &M, d: Set<u32>, t: u32)
    requires
        exact(m, d),
        signed(m, d),
        d.contains(t) && d.contains(F_TWO) && sum(m, F_ONE, F_ONE) == F_TWO,
        less(F_ZERO, t) && less(t, F_ONE),
        remainder(m, t, F_ONE) == t && remainder(m, t, F_TWO) == t,
        remainder(m, sum(m, t, F_ONE), F_ONE) == t,
        remainder(m, sum(m, t, F_ONE), F_TWO) == sum(m, t, F_ONE),
        remainder(m, sum(m, t, F_TWO), F_TWO) == t,
        difference(m, t, F_ONE) >= F_SIGN,
        less(F_ONE, sum(m, t, F_ONE)),
    ensures
        WrapMode::Clamp.wrapped(m, t) == t,
        WrapMode::Repeat.wrapped(m, t) == t,
        WrapMode::Reflect.wrapped(m, t) == t,
        WrapMode::Clamp.wrapped(m, sum(m, t, F_ONE)) == F_ONE,
        WrapMode::Clamp.wrapped(m, negated(t)) == F_ZERO,
        WrapMode::Repeat.wrapped(m, sum(m, t, F_ONE)) == t,
        WrapMode::Reflect.wrapped(m, sum(m, t, F_ONE)) == difference(m, F_ONE, t),
        WrapMode::Reflect.wrapped(m, sum(m, t, F_TWO)) == t,
{
    let g = difference(m, t, F_ONE);
    two(m, d, t, F_ONE);
    two(m, d, F_ZERO, g);
    assert(absolute(g) == negated(g));
    // 1 - (0 - (t - 1)) = t
    let n = negated(g);
    two(m, d, g, n);
    two(m, d, n, t);
    sums(m, d, g, F_ONE, n);
    two(m, d, F_ONE, n);
    two(m, d, F_ONE, F_ONE);
    two(m, d, t, n);
    differences_are_unique(m, d, F_ONE, n, t);
    adding_cancels(m, d, t, F_ONE);
    assert(absolute(t) == t);
}

/// A gradient has its first color at nothing and its second at one, or the other way
/// round if it is reversed. Reversing it is exchanging the colors, and is seeing it
/// from the other end.
pub proof fn gradients_go_from_color_to_color<M: Arith>(
    m: &M,
    d: Set<u32>,
    t: u32,
    fg: Rgba32F,
    bg: Rgba32F,
)
    requires
        exact(m, d),
        made_of(d, fg) && made_of(d, bg) && d.contains(t),
    ensures
        color_of_parameter(m, F_ZERO, fg, bg, false) == fg,
        color_of_parameter(m, F_ONE, fg, bg, false) == bg,
        color_of_parameter(m, F_ZERO, fg, bg, true) == bg,
        color_of_parameter(m, F_ONE, fg, bg, true) == fg,
        color_of_parameter(m, t, fg, bg, true) == color_of_parameter(m, t, bg, fg, false),
        color_of_parameter(m, t, fg, bg, true) == color_of_parameter(
            m,
            difference(m, F_ONE, t),
            fg,
            bg,
            false,
        ),
        ({
            let c = color_of_parameter(m, t, fg, bg, false);
            difference(m, c.r, fg.r) == product(m, t, difference(m, bg.r, fg.r))
        }),
{
    mixing_goes_from_one_to_the_other(m, d, bg, fg, t);
    mixing_goes_from_one_to_the_other(m, d, fg, bg, t);
    adding_cancels(m, d, F_ONE, F_ONE);
}

/// The middle of a pixel is half a pixel from its corner along both axes.
pub proof fn pixels_are_sampled_in_their_middle<M: Arith>(m: &M, d: Set<u32>, p: IVec2)
    requires
        exact(m, d),
        d.contains(number_of_i32(p.x)) && d.contains(number_of_i32(p.y)) && d.contains(F_HALF),
    ensures
        difference(m, middle_of(m, p).x, number_of_i32(p.x)) == F_HALF,
        difference(m, middle_of(m, p).y, number_of_i32(p.y)) == F_HALF,
        placed(d, middle_of(m, p)),
{
    two(m, d, number_of_i32(p.x), F_HALF);
    two(m, d, number_of_i32(p.y), F_HALF);
    adding_cancels(m, d, F_HALF, number_of_i32(p.x));
    adding_cancels(m, d, F_HALF, number_of_i32(p.y));
}

/// A linear gradient gives the pixel in whose middle its line starts the first color,
/// and the one in whose middle it ends the second, clamped or not.
pub proof fn linear_gradients_color_their_ends<M: Arith>(
    m: &M,
    d: Set<u32>,
    g: Gradient,
    start: IVec2,
    end: IVec2,
)
    requires
        exact(m, d),
        made_of(d, g.fg) && made_of(d, g.bg),
        placed(d, g.p0) && placed(d, g.p1),
        g.kind == GradientKind::Linear && g.wrap == WrapMode::Clamp,
        less(F_ZERO, apart(m, g.p0, g.p1)),
        middle_of(m, start) == g.p0 && middle_of(m, end) == g.p1,
    ensures
        shade(m, g, start) == if g.reverse { g.bg } else { g.fg },
        shade(m, g, end) == if g.reverse { g.fg } else { g.bg },
{
    let (dx, dy) = (difference(m, g.p1.x, g.p0.x), difference(m, g.p1.y, g.p0.y));
    let dsq = apart(m, g.p0, g.p1);
    two(m, d, g.p1.x, g.p0.x);
    two(m, d, g.p1.y, g.p0.y);
    two(m, d, dx, dx);
    two(m, d, dy, dy);
    two(m, d, product(m, dx, dx), product(m, dy, dy));
    two(m, d, dsq, dsq);
    adding_cancels(m, d, g.p0.x, g.p0.x);
    adding_cancels(m, d, g.p0.y, g.p0.y);
    nothing_absorbs(m, d, dx);
    nothing_absorbs(m, d, dy);
    nothing_absorbs(m, d, dsq);
    two(m, d, F_ZERO, F_ZERO);
    quotients_are_unique(m, d, F_ZERO, dsq, F_ZERO);
    quotients_are_unique(m, d, dsq, dsq, F_ONE);
    gradients_go_from_color_to_color(m, d, F_ZERO, g.fg, g.bg);
}

/// A conical gradient is not wrapped, every other one is.
pub proof fn conical_gradients_are_not_wrapped<M: Arith>(
    m: &M,
    g: Gradient,
    wrap: WrapMode,
    p: IVec2,
)
    ensures
        g.kind == GradientKind::Conical ==> shade(m, g, p) == shade(
            m,
            Gradient { wrap, ..g },
            p,
        ),
{
}

} // verus!
