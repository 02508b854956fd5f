//! Edges: how near a color is to a fill, how strong an edge is, how far a point is from
//! a line, and what lies on a border.
use vstd::prelude::*;

use vstd::arithmetic::power2::{lemma2_to64, lemma_pow2_adds, lemma_pow2_unfold, pow2};

use crate::adjust::luminance_of;
use crate::arith::{difference, product, quotient, root, sum, Arith};
use crate::coord::{IVec2, Rect};
use crate::exact::{
    adding_cancels, counting, differences_are_unique, exact, nothing_absorbs, products,
    quotients_are_unique, rounding, signed, spreads, sums, sums_cancel, sums_exchange, two,
};
use crate::float_bits::{
    at_most, clamped, digits, finite, lemma_digits, lemma_integer_pattern, less, nan, nearest_i32,
    negated, number_of, number_of_i32, number_of_int, whole, F_ONE, F_SIGN, F_TINY, F_TWO, F_ZERO,
};
use crate::float_kernel::color_gap;
use crate::laws::distances::square_between;
use crate::ops::bucket::{
    color_coverage, color_distance, color_near, edge_coverage, half_width, on_border, FILL_FEATHER,
};
use crate::ops::magnetic::{edge_strength, gap_of, hypotenuse, line_distance, perceived_luma, slope};
use crate::pixel::{blend_of, srgb_encoded, Rgba32F};

verus! {

/// Each of the four channels adds the square of its difference to the distance of two
/// colors; without the alphas that is the distance of the colors alone.
pub proof fn each_channel_counts_for_a_fill<M: Arith>(m: &M, a: Rgba32F, b: Rgba32F)
    requires
        rounding(m),
        finite(a.r) && finite(a.g) && finite(a.b) && finite(a.a),
        !nan(difference(m, a.r, b.r)),
        !nan(difference(m, a.g, b.g)),
        !nan(difference(m, a.b, b.b)),
        !nan(difference(m, a.a, b.a)),
    ensures
        color_distance(m, a, a) == F_ZERO,
        color_distance(m, a, Rgba32F { a: a.a, ..b }) == color_gap(m, a, b),
        color_distance(m, a, Rgba32F { a: b.a, ..a }) == square_between(m, a.a, b.a),
        color_distance(m, a, b) == sum(m, color_gap(m, a, b), square_between(m, a.a, b.a)),
        at_most(square_between(m, a.r, b.r), color_distance(m, a, b)),
        at_most(square_between(m, a.g, b.g), color_distance(m, a, b)),
        at_most(square_between(m, a.b, b.b), color_distance(m, a, b)),
        at_most(square_between(m, a.a, b.a), color_distance(m, a, b)),
{
    assert(difference(m, a.r, a.r) == F_ZERO && difference(m, a.g, a.g) == F_ZERO);
    assert(difference(m, a.b, a.b) == F_ZERO && difference(m, a.a, a.a) == F_ZERO);
    assert(product(m, F_ZERO, F_ZERO) == F_ZERO && sum(m, F_ZERO, F_ZERO) == F_ZERO);
    let (x, y) = (square_between(m, a.r, b.r), square_between(m, a.g, b.g));
    let (z, w) = (square_between(m, a.b, b.b), square_between(m, a.a, b.a));
    let xy = sum(m, x, y);
    let xyz = sum(m, xy, z);
    assert(at_most(x, xy) && at_most(y, xy));
    assert(at_most(xy, xyz) && at_most(z, xyz));
    assert(at_most(xyz, sum(m, xyz, w)) && at_most(w, sum(m, xyz, w)));
    assert(sum(m, xyz, F_ZERO) == xyz);
}

/// A fill does not pass a color that is farther from the seed's than the tolerance in
/// one channel, and passes the seed's own.
pub proof fn fills_stop_at_one_channel<M: Arith>(m: &M, a: Rgba32F, b: Rgba32F, t: u32)
    requires
        rounding(m),
        finite(a.r) && finite(a.g) && finite(a.b) && finite(a.a) && !nan(t),
        !nan(difference(m, a.r, b.r)),
        !nan(difference(m, a.g, b.g)),
        !nan(difference(m, a.b, b.b)),
        !nan(difference(m, a.a, b.a)),
    ensures
        ({
            let limit = product(m, t, t);
            less(limit, square_between(m, a.r, b.r)) || less(limit, square_between(m, a.g, b.g))
                || less(limit, square_between(m, a.b, b.b)) || less(
                limit,
                square_between(m, a.a, b.a),
            ) ==> !color_near(m, a, b, t)
        }),
        color_near(m, a, a, t),
        at_most(F_ZERO, product(m, t, difference(m, F_ONE, FILL_FEATHER))) ==> color_coverage(
            m,
            a,
            a,
            t,
        ) == F_ONE,
{
    each_channel_counts_for_a_fill(m, a, b);
    assert(root(m, F_ZERO) == F_ZERO);
}

/// The edge of a fill is whole up to the inner distance, nothing at the tolerance, and
/// falls in proportion between.
pub proof fn fills_fade_towards_the_tolerance<M: Arith>(
    m: &M,
    d: Set<u32>,
    inner: u32,
    tolerance: u32,
    t: u32,
)
    requires
        exact(m, d),
        d.contains(inner) && d.contains(tolerance) && d.contains(t),
        less(inner, tolerance),
    ensures
        edge_coverage(m, inner, inner, tolerance) == F_ONE,
        edge_coverage(m, tolerance, inner, tolerance) == F_ZERO,
        ({
            let dist = blend_of(m, inner, tolerance, t);
            less(inner, dist) ==> edge_coverage(m, dist, inner, tolerance) == clamped(
                difference(m, F_ONE, t),
                F_ZERO,
                F_ONE,
            )
        }),
{
    let range = difference(m, tolerance, inner);
    two(m, d, tolerance, inner);
    two(m, d, inner, inner);
    assert(range != F_ZERO);
    adding_cancels(m, d, tolerance, tolerance);
    nothing_absorbs(m, d, range);
    quotients_are_unique(m, d, F_ZERO, range, F_ZERO);
    let n = difference(m, F_ONE, t);
    two(m, d, F_ONE, t);
    two(m, d, range, t);
    two(m, d, range, n);
    let dist = sum(m, inner, product(m, range, t));
    two(m, d, inner, product(m, range, t));
    // tolerance = inner + range (t + n) = dist + n range
    spreads(m, d, range, t, n);
    two(m, d, t, n);
    two(m, d, range, F_ONE);
    let x = product(m, range, n);
    sums(m, d, inner, product(m, range, t), x);
    two(m, d, dist, x);
    two(m, d, n, range);
    differences_are_unique(m, d, tolerance, dist, x);
    quotients_are_unique(m, d, x, range, n);
}

/// A fill covers all of a pixel whose color is within the unfeathered part of the
/// tolerance, and nothing of one at the tolerance.
pub proof fn fills_cover_by_color<M: Arith>(m: &M, d: Set<u32>, a: Rgba32F, b: Rgba32F, t: u32)
    requires
        exact(m, d),
        d.contains(t) && d.contains(FILL_FEATHER),
    ensures
        ({
            let dist = root(m, color_distance(m, a, b));
            let inner = product(m, t, difference(m, F_ONE, FILL_FEATHER));
            &&& at_most(dist, inner) ==> color_coverage(m, a, b, t) == F_ONE
            &&& dist == t && less(inner, t) ==> color_coverage(m, a, b, t) == F_ZERO
        }),
{
    let inner = product(m, t, difference(m, F_ONE, FILL_FEATHER));
    two(m, d, F_ONE, FILL_FEATHER);
    two(m, d, t, difference(m, F_ONE, FILL_FEATHER));
    if less(inner, t) {
        fills_fade_towards_the_tolerance(m, d, inner, t, t);
    }
}

/// The luma of an edge is the luminance of the encoded color.
pub proof fn edges_are_seen_encoded<M: Arith>(m: &M, px: Rgba32F)
    ensures
        perceived_luma(m, px) == luminance_of(
            m,
            srgb_encoded(m, px.r),
            srgb_encoded(m, px.g),
            srgb_encoded(m, px.b),
        ),
{
}

/// One side of a neighbourhood, its middle counted twice.
pub open spec fn side<M: Arith>(m: &M, a: u32, b: u32, c: u32) -> u32 {
    sum(m, sum(m, a, sum(m, b, b)), c)
}

/// A slope is what has to be added to the near side to get the far side.
pub proof fn slopes_lead_from_near_to_far<M: Arith>(
    m: &M,
    s: Set<u32>,
    a: u32,
    b: u32,
    c: u32,
    d: u32,
    e: u32,
    f: u32,
)
    requires
        exact(m, s),
        counting(m, s),
        signed(m, s),
        s.contains(a) && s.contains(b) && s.contains(c),
        s.contains(d) && s.contains(e) && s.contains(f),
        a != F_ZERO,
    ensures
        s.contains(slope(m, a, b, c, d, e, f)),
        sum(m, slope(m, a, b, c, d, e, f), side(m, a, b, c)) == side(m, d, e, f),
{
    let (bb, ee) = (sum(m, b, b), sum(m, e, e));
    two(m, s, b, b);
    two(m, s, e, e);
    two(m, s, F_TWO, b);
    two(m, s, F_TWO, e);
    two(m, s, b, F_ONE);
    two(m, s, e, F_ONE);
    spreads(m, s, b, F_ONE, F_ONE);
    spreads(m, s, e, F_ONE, F_ONE);
    let n = negated(a);
    two(m, s, F_ZERO, a);
    let n1 = difference(m, n, bb);
    two(m, s, n, bb);
    let near = difference(m, n1, c);
    two(m, s, n1, c);
    // near + (a + bb + c) = 0
    let abb = sum(m, a, bb);
    two(m, s, a, bb);
    let all = sum(m, abb, c);
    two(m, s, abb, c);
    sums(m, s, near, c, abb);
    sums(m, s, n1, bb, a);
    two(m, s, bb, a);
    two(m, s, near, all);
    two(m, s, n1, abb);
    two(m, s, c, abb);
    assert(sum(m, near, all) == F_ZERO);
    // ((near + d) + ee) + f = near + far
    let far = side(m, d, e, f);
    two(m, s, d, ee);
    two(m, s, sum(m, d, ee), f);
    sums(m, s, near, d, ee);
    sums(m, s, near, sum(m, d, ee), f);
    two(m, s, near, far);
    sums(m, s, near, far, all);
    two(m, s, far, far);
}

/// A neighbourhood of one luma has no slope, and exchanging near and far turns a slope
/// round.
pub proof fn slopes_turn_round<M: Arith>(
    m: &M,
    s: Set<u32>,
    a: u32,
    b: u32,
    c: u32,
    d: u32,
    e: u32,
    f: u32,
)
    requires
        exact(m, s),
        counting(m, s),
        signed(m, s),
        s.contains(a) && s.contains(b) && s.contains(c),
        s.contains(d) && s.contains(e) && s.contains(f),
        a != F_ZERO && d != F_ZERO,
    ensures
        slope(m, a, b, c, a, b, c) == F_ZERO,
        sum(m, slope(m, a, b, c, d, e, f), slope(m, d, e, f, a, b, c)) == F_ZERO,
{
    slopes_lead_from_near_to_far(m, s, a, b, c, a, b, c);
    slopes_lead_from_near_to_far(m, s, a, b, c, d, e, f);
    slopes_lead_from_near_to_far(m, s, d, e, f, a, b, c);
    lemma_side_in(m, s, a, b, c);
    lemma_side_in(m, s, d, e, f);
    let (near, far) = (side(m, a, b, c), side(m, d, e, f));
    let (x, y) = (slope(m, a, b, c, d, e, f), slope(m, d, e, f, a, b, c));
    two(m, s, near, near);
    sums_cancel(m, s, slope(m, a, b, c, a, b, c), F_ZERO, near);
    two(m, s, x, y);
    sums(m, s, x, y, far);
    two(m, s, far, far);
    sums_cancel(m, s, sum(m, x, y), F_ZERO, far);
}

proof fn lemma_side_in<M: Arith>(m: &M, s: Set<u32>, a: u32, b: u32, c: u32)
    requires
        exact(m, s),
        s.contains(a) && s.contains(b) && s.contains(c),
    ensures
        s.contains(side(m, a, b, c)),
{
    two(m, s, b, b);
    two(m, s, a, sum(m, b, b));
    two(m, s, sum(m, a, sum(m, b, b)), c);
}

/// Turning a neighbourhood of eight pixels on its diagonal, so that rows become
/// columns, does not change how strong the edge through it is.
pub proof fn edges_know_no_axis<M: Arith>(m: &M, s: Seq<Rgba32F>)
    requires
        rounding(m),
        s.len() == 8,
        ({
            let l = |i: int| perceived_luma(m, s[i]);
            let x = slope(m, l(0), l(3), l(5), l(2), l(4), l(7));
            let y = slope(m, l(0), l(1), l(2), l(5), l(6), l(7));
            finite(product(m, x, x)) && finite(product(m, y, y))
        }),
    ensures
        edge_strength(m, seq![s[0], s[3], s[5], s[1], s[6], s[2], s[4], s[7]]) == edge_strength(
            m,
            s,
        ),
{
    reveal(edge_strength);
}

/// An edge between a column on the left and one on the right, or a row above and one
/// below, is as strong as the slope between them.
pub proof fn straight_edges_are_as_strong_as_their_slope<M: Arith>(
    m: &M,
    d: Set<u32>,
    left: Rgba32F,
    middle: Rgba32F,
    right: Rgba32F,
)
    requires
        exact(m, d),
        counting(m, d),
        signed(m, d),
        d.contains(perceived_luma(m, left)) && d.contains(perceived_luma(m, middle)),
        d.contains(perceived_luma(m, right)),
        perceived_luma(m, left) != F_ZERO,
    ensures
        ({
            let (x, y) = (perceived_luma(m, left), perceived_luma(m, right));
            let g = difference(m, side(m, y, y, y), side(m, x, x, x));
            &&& edge_strength(m, seq![left, middle, right, left, right, left, middle, right])
                == root(m, product(m, g, g))
            &&& edge_strength(m, seq![left, left, left, middle, middle, right, right, right])
                == root(m, product(m, g, g))
        }),
{
    reveal(edge_strength);
    let (x, z, y) = (
        perceived_luma(m, left),
        perceived_luma(m, middle),
        perceived_luma(m, right),
    );
    lemma_side_in(m, d, x, x, x);
    lemma_side_in(m, d, y, y, y);
    lemma_side_in(m, d, x, z, y);
    let (near, far) = (side(m, x, x, x), side(m, y, y, y));
    let g = difference(m, far, near);
    slopes_lead_from_near_to_far(m, d, x, x, x, y, y, y);
    two(m, d, far, near);
    differences_are_unique(m, d, far, near, slope(m, x, x, x, y, y, y));
    let across = side(m, x, z, y);
    slopes_lead_from_near_to_far(m, d, x, z, y, x, z, y);
    two(m, d, across, across);
    sums_cancel(m, d, slope(m, x, z, y, x, z, y), F_ZERO, across);
    nothing_absorbs(m, d, F_ZERO);
    two(m, d, g, g);
    two(m, d, product(m, g, g), F_ZERO);
    let s = seq![left, middle, right, left, right, left, middle, right];
    assert(s[0] == left && s[1] == middle && s[2] == right && s[3] == left && s[4] == right && s[5]
        == left && s[6] == middle && s[7] == right);
    let t = seq![left, left, left, middle, middle, right, right, right];
    assert(t[0] == left && t[1] == left && t[2] == left && t[3] == middle && t[4] == middle && t[5]
        == right && t[6] == right && t[7] == right);
}

/// `(x, y)` is what is left of `(vx, vy)` once a share of `(dx, dy)` is taken away, and
/// stands upright on that.
pub open spec fn is_plumb<M: Arith>(
    m: &M,
    vx: u32,
    vy: u32,
    dx: u32,
    dy: u32,
    t: u32,
    x: u32,
    y: u32,
) -> bool {
    &&& sum(m, x, product(m, t, dx)) == vx
    &&& sum(m, y, product(m, t, dy)) == vy
    &&& sum(m, product(m, x, dx), product(m, y, dy)) == F_ZERO
}

/// The distance from a line is that from the foot of the plumb line; from a line
/// without length it is that from its point.
pub proof fn lines_are_measured_by_the_plumb<M: Arith>(
    m: &M,
    d: Set<u32>,
    p: IVec2,
    a: IVec2,
    b: IVec2,
)
    requires
        exact(m, d),
        d.contains(gap_of(b.x, a.x)) && d.contains(gap_of(b.y, a.y)),
        d.contains(number_of_i32(p.x)) && d.contains(number_of_i32(p.y)),
        d.contains(number_of_i32(a.x)) && d.contains(number_of_i32(a.y)),
        gap_of(p.x, a.x) == difference(m, number_of_i32(p.x), number_of_i32(a.x)),
        gap_of(p.y, a.y) == difference(m, number_of_i32(p.y), number_of_i32(a.y)),
        ({
            let (dx, dy) = (gap_of(b.x, a.x), gap_of(b.y, a.y));
            let len2 = sum(m, product(m, dx, dx), product(m, dy, dy));
            len2 != F_ZERO && !less(len2, F_TINY)
        }),
    ensures
        exists|t: u32, x: u32, y: u32| #[trigger]
            is_plumb(
                m,
                gap_of(p.x, a.x),
                gap_of(p.y, a.y),
                gap_of(b.x, a.x),
                gap_of(b.y, a.y),
                t,
                x,
                y,
            ) && line_distance(m, p, a, b) == hypotenuse(m, x, y),
{
    reveal(line_distance);
    let (dx, dy) = (gap_of(b.x, a.x), gap_of(b.y, a.y));
    let (vx, vy) = (gap_of(p.x, a.x), gap_of(p.y, a.y));
    let (px, py) = (number_of_i32(p.x), number_of_i32(p.y));
    let (ax, ay) = (number_of_i32(a.x), number_of_i32(a.y));
    two(m, d, px, ax);
    two(m, d, py, ay);
    let (xx, yy) = (product(m, dx, dx), product(m, dy, dy));
    two(m, d, dx, dx);
    two(m, d, dy, dy);
    let len2 = sum(m, xx, yy);
    two(m, d, xx, yy);
    let dot = sum(m, product(m, vx, dx), product(m, vy, dy));
    two(m, d, vx, dx);
    two(m, d, vy, dy);
    two(m, d, product(m, vx, dx), product(m, vy, dy));
    let t = quotient(m, dot, len2);
    two(m, d, dot, len2);
    let (tx, ty) = (product(m, t, dx), product(m, t, dy));
    two(m, d, t, dx);
    two(m, d, t, dy);
    let x = difference(m, px, sum(m, ax, tx));
    let y = difference(m, py, sum(m, ay, ty));
    lemma_less_both(m, d, px, ax, tx);
    lemma_less_both(m, d, py, ay, ty);
    // (x + tx) dx + (y + ty) dy = dot = tx dx + ty dy
    spreads(m, d, dx, x, tx);
    spreads(m, d, dy, y, ty);
    two(m, d, x, dx);
    two(m, d, y, dy);
    two(m, d, tx, dx);
    two(m, d, ty, dy);
    let (p1, p2) = (product(m, x, dx), product(m, y, dy));
    let (q1, q2) = (product(m, tx, dx), product(m, ty, dy));
    sums_exchange(m, d, p1, q1, p2, q2);
    products(m, d, t, dx, dx);
    products(m, d, t, dy, dy);
    spreads(m, d, t, xx, yy);
    two(m, d, p1, p2);
    two(m, d, q1, q2);
    two(m, d, F_ZERO, dot);
    sums_cancel(m, d, sum(m, p1, p2), F_ZERO, dot);
    assert(is_plumb(m, vx, vy, dx, dy, t, x, y));
}

/// (p - (a + u)) + u = p - a
proof fn lemma_less_both<M: Arith>(m: &M, d: Set<u32>, p: u32, a: u32, u: u32)
    requires
        exact(m, d),
        d.contains(p) && d.contains(a) && d.contains(u),
    ensures
        d.contains(difference(m, p, sum(m, a, u))),
        sum(m, difference(m, p, sum(m, a, u)), u) == difference(m, p, a),
{
    let x = difference(m, p, sum(m, a, u));
    two(m, d, a, u);
    two(m, d, p, sum(m, a, u));
    two(m, d, x, u);
    sums(m, d, x, u, a);
    two(m, d, u, a);
    differences_are_unique(m, d, p, a, sum(m, x, u));
}

/// From a line whose ends are one point the distance is that from the point.
pub proof fn lines_without_length_are_points<M: Arith>(m: &M, p: IVec2, a: IVec2)
    requires
        rounding(m),
    ensures
        line_distance(m, p, a, a) == hypotenuse(m, gap_of(p.x, a.x), gap_of(p.y, a.y)),
{
    reveal(line_distance);
    assert(number_of_int(0) == F_ZERO);
    assert(product(m, F_ZERO, F_ZERO) == F_ZERO && sum(m, F_ZERO, F_ZERO) == F_ZERO);
}

/// Half of a small integer, with its pattern's exponent one less, is rounded up.
pub proof fn halves_are_rounded_up(n: nat)
    requires
        1 <= n < 0x100_0000,
    ensures
        127 * 0x80_0000 <= number_of(n) <= 159 * 0x80_0000,
        nearest_i32((number_of(n) - 0x80_0000) as u32) == (n + 1) / 2,
        nearest_i32((number_of(n) - 0x80_0000 + F_SIGN) as u32) == -((n + 1) / 2),
{
    lemma2_to64();
    lemma_integer_pattern(n);
    lemma_digits(n, 24);
    let k = digits(n);
    let p = pow2((k - 1) as nat);
    let q = pow2((24 - k) as nat);
    lemma_pow2_unfold(k);
    lemma_pow2_unfold((25 - k) as nat);
    lemma_pow2_adds((k - 1) as nat, (24 - k) as nat);
    assert(p * q == 0x80_0000);
    assert(q > 0) by (nonlinear_arith)
        requires
            p * q == 0x80_0000,
            q >= 0,
    ;
    assert(0x80_0000 <= n * q < 0x100_0000) by (nonlinear_arith)
        requires
            p <= n < 2 * p,
            p * q == 0x80_0000,
            q > 0,
    ;
    let h = number_of(n) - 0x80_0000;
    assert(h / 0x80_0000 == 125 + k);
    assert(0x80_0000 + h % 0x80_0000 == n * q);
    assert(pow2((25 - k) as nat) == 2 * q);
    assert((2 * (n * q) + 2 * q) / (2 * (2 * q)) == (n + 1) / 2) by (nonlinear_arith)
        requires
            q > 0,
    {
        let w = 2 * q;
        assert(2 * (n * q) + 2 * q == (n + 1) * w);
        assert(((n + 1) * w) / (2 * w) == (n + 1) / 2);
    }
    assert(whole(h) == (n + 1) / 2);
}

/// Half of a stroke's width is rounded up to a whole number of pixels.
pub proof fn half_widths_are_rounded_up(n: nat)
    requires
        1 <= n < 0x100_0000,
    ensures
        half_width(number_of(n) as u32) == (n + 1) / 2,
{
    halves_are_rounded_up(n);
    lemma2_to64();
    reveal_with_fuel(digits, 2);
    if n >= 2 {
        lemma_digits(n, 24);
        lemma_two_or_more(n);
    } else {
        assert(number_of(1) == F_ONE);
    }
}

/// The pattern of two or more is at least that of two.
proof fn lemma_two_or_more(n: nat)
    requires
        2 <= n < 0x100_0000,
    ensures
        number_of(n) >= F_TWO,
{
    lemma2_to64();
    lemma_digits(n, 24);
    let k = digits(n);
    assert(k >= 2) by {
        if k == 1 {
            assert(pow2(1) == 2);
        }
    }
    let q = pow2((24 - k) as nat);
    let p = pow2((k - 1) as nat);
    lemma_pow2_adds((k - 1) as nat, (24 - k) as nat);
    assert(n * q >= 0x80_0000) by (nonlinear_arith)
        requires
            p <= n,
            p * q == 0x80_0000,
            q >= 0,
    ;
}

/// A pixel of a rectangle lies on a border `half` wide if some pixel outside is at most
/// `half` rows and columns away.
pub proof fn borders_are_near_the_outside(rect: Rect, half: int, p: IVec2)
    requires
        half >= 1,
    ensures
        on_border(rect, half, p) <==> rect.has(p.x as int, p.y as int) && exists|q: (int, int)|
            !#[trigger] rect.has(q.0, q.1) && -half <= q.0 - p.x <= half && -half <= q.1 - p.y
                <= half,
{
    let (x, y) = (p.x as int, p.y as int);
    let (a, b) = ((rect.x - 1, y), (rect.right_edge(), y));
    let (c, e) = ((x, rect.y - 1), (x, rect.bottom_edge()));
    assert(!rect.has(a.0, a.1));
    assert(!rect.has(b.0, b.1));
    assert(!rect.has(c.0, c.1));
    assert(!rect.has(e.0, e.1));
}

} // verus!
