//! Strokes: the lines beside a segment and the stamps along a way.
use vstd::prelude::*;

use vstd::arithmetic::power2::lemma2_to64;

use crate::arith::{difference, product, quotient, root, sum, Arith};
use crate::brush::InputSample;
use crate::buffer::{full_tiles, pixel_at, set_pixel_then_get};
use crate::coord::{fits_i32, IVec2, Vec2};
use crate::exact::{
    adding_cancels, differences_are_unique, differences_spread, exact, nothing_absorbs, products,
    products_cancel, products_exchange, quotients_are_unique, rounding, signed, spreads,
    squares_have_no_sign, sums, sums_cancel, two, F_LARGE,
};
use crate::float_bits::{
    absolute, at_most, digits, finite, lemma_integer_pattern, less, nearest_i32, negated, number_of,
    number_of_int, whole_numbers_survive, zero, F_ONE, F_SIGN, F_ZERO,
};
use crate::float_kernel::{
    across, stamp_on, stamps_between, stamps_from, way, way_end, way_left, FloatKernel,
};
use crate::kernel::Kernel;
use crate::laws::gradients::{apart, flipped, placed};
use crate::ops::magnetic::{gap_of, hypotenuse};
use crate::pixel::{blend_of, Rgba32F};
use crate::vector_raster::{
    in_box, lemma_next_point, line_from, next_point, segment_drawn, side_of, span, stroke_line,
    toward, with_points,
};

verus! {

/// A number that stands for an integer other than zero.
proof fn lemma_gap(n: int)
    requires
        n != 0,
        -0xffff_ffff <= n <= 0xffff_ffff,
    ensures
        ({
            let g = number_of_int(n);
            &&& finite(g) && !zero(g)
            &&& at_most(F_ONE, absolute(g)) && at_most(absolute(g), F_LARGE)
            &&& (g >= F_SIGN) == (n < 0)
        }),
{
    lemma_integer_pattern(if n < 0 { (-n) as nat } else { n as nat });
}

proof fn lemma_ones()
    ensures
        nearest_i32(F_ONE) == 1,
        nearest_i32(negated(F_ONE)) == -1,
        forall|v: u32| zero(v) ==> nearest_i32(v) == 0,
        number_of_int(0) == F_ZERO,
{
    lemma2_to64();
    reveal_with_fuel(digits, 2);
    assert(number_of(1) == F_ONE);
    whole_numbers_survive(1);
}

/// The direction across a level segment is straight up or down, and across an upright
/// one straight to the left or right.
pub proof fn strokes_offset_across_their_segment<M: Arith>(m: &M, a: IVec2, b: IVec2)
    requires
        rounding(m),
    ensures
        a.y == b.y && a.x != b.x ==> across(m, a, b).x == 0 && across(m, a, b).y == if a.x < b.x {
            1int
        } else {
            -1int
        },
        a.x == b.x && a.y != b.y ==> across(m, a, b).y == 0 && across(m, a, b).x == if a.y < b.y {
            -1int
        } else {
            1int
        },
{
    reveal(across);
    lemma_ones();
    let (dx, dy) = (gap_of(b.x, a.x), gap_of(b.y, a.y));
    assert(product(m, F_ZERO, F_ZERO) == F_ZERO);
    if a.y == b.y && a.x != b.x {
        lemma_gap(b.x - a.x);
        let sq = product(m, dx, dx);
        assert(sum(m, sq, F_ZERO) == sq);
        let len = absolute(dx);
        assert(root(m, sq) == len);
        assert(quotient(m, len, len) == F_ONE);
        assert(quotient(m, negated(len), len) == negated(F_ONE));
        assert(zero(quotient(m, negated(F_ZERO), len)));
    }
    if a.x == b.x && a.y != b.y {
        lemma_gap(b.y - a.y);
        let sq = product(m, dy, dy);
        assert(sum(m, F_ZERO, sq) == sq);
        let len = absolute(dy);
        assert(root(m, sq) == len);
        assert(quotient(m, len, len) == F_ONE);
        assert(quotient(m, negated(len), len) == negated(F_ONE));
        assert(zero(quotient(m, F_ZERO, len)));
    }
}

/// `(x, y)` stands upright on `(dx, dy)` and is one long.
pub open spec fn unit_normal<M: Arith>(m: &M, dx: u32, dy: u32, x: u32, y: u32) -> bool {
    &&& sum(m, product(m, x, dx), product(m, y, dy)) == F_ZERO
    &&& sum(m, product(m, x, x), product(m, y, y)) == F_ONE
}

/// The direction across a slanted segment is a normal of length one, rounded.
pub proof fn strokes_offset_by_the_unit_normal<M: Arith>(m: &M, d: Set<u32>, a: IVec2, b: IVec2)
    requires
        exact(m, d),
        signed(m, d),
        ({
            let (dx, dy) = (gap_of(b.x, a.x), gap_of(b.y, a.y));
            let len = hypotenuse(m, dx, dy);
            &&& d.contains(dx) && d.contains(dy) && d.contains(len)
            &&& dy != F_ZERO && at_most(F_ONE, len)
            &&& product(m, len, len) == sum(m, product(m, dx, dx), product(m, dy, dy))
        }),
    ensures
        exists|x: u32, y: u32| #[trigger]
            unit_normal(m, gap_of(b.x, a.x), gap_of(b.y, a.y), x, y) && across(m, a, b) == (
            IVec2 { x: nearest_i32(x) as i32, y: nearest_i32(y) as i32 }),
{
    reveal(across);
    let (dx, dy) = (gap_of(b.x, a.x), gap_of(b.y, a.y));
    let len = hypotenuse(m, dx, dy);
    assert(len != F_ZERO);
    let ny = negated(dy);
    let (x, y) = (quotient(m, ny, len), quotient(m, dx, len));
    two(m, d, ny, len);
    two(m, d, dx, len);
    two(m, d, F_ZERO, dy);
    let z = sum(m, product(m, x, dx), product(m, y, dy));
    two(m, d, x, dx);
    two(m, d, y, dy);
    two(m, d, product(m, x, dx), product(m, y, dy));
    // z len = ny dx + dx dy = dx (ny + dy) = 0
    spreads(m, d, len, product(m, x, dx), product(m, y, dy));
    products(m, d, x, dx, len);
    products(m, d, y, dy, len);
    two(m, d, len, product(m, x, dx));
    two(m, d, len, product(m, y, dy));
    spreads(m, d, dx, ny, dy);
    two(m, d, dx, ny);
    two(m, d, dx, dy);
    nothing_absorbs(m, d, dx);
    nothing_absorbs(m, d, len);
    two(m, d, z, len);
    products_cancel(m, d, z, F_ZERO, len);
    // (x x + y y) len len = ny ny + dx dx = len len
    squares_have_no_sign(m, d, F_ZERO, dy);
    adding_cancels(m, d, dy, dy);
    lemma_length_one(m, d, x, y, len, ny, dx);
    two(m, d, dx, dx);
    two(m, d, dy, dy);
    two(m, d, product(m, dx, dx), product(m, dy, dy));
    assert(unit_normal(m, dx, dy, x, y));
}

/// A direction times a length that squares to the squares of both is one long.
proof fn lemma_length_one<M: Arith>(
    m: &M,
    d: Set<u32>,
    x: u32,
    y: u32,
    len: u32,
    dx: u32,
    dy: u32,
)
    requires
        exact(m, d),
        d.contains(x) && d.contains(y) && d.contains(len) && d.contains(dx) && d.contains(dy),
        len != F_ZERO,
        product(m, x, len) == dx,
        product(m, y, len) == dy,
        product(m, len, len) == sum(m, product(m, dx, dx), product(m, dy, dy)) || product(
            m,
            len,
            len,
        ) == sum(m, product(m, dy, dy), product(m, dx, dx)),
    ensures
        sum(m, product(m, x, x), product(m, y, y)) == F_ONE,
        d.contains(sum(m, product(m, x, x), product(m, y, y))),
{
    let ll = product(m, len, len);
    let (xx, yy) = (product(m, x, x), product(m, y, y));
    two(m, d, len, len);
    two(m, d, x, x);
    two(m, d, y, y);
    two(m, d, xx, yy);
    two(m, d, dx, dx);
    two(m, d, dy, dy);
    two(m, d, product(m, dx, dx), product(m, dy, dy));
    products_exchange(m, d, x, len, x, len);
    products_exchange(m, d, y, len, y, len);
    spreads(m, d, ll, xx, yy);
    two(m, d, ll, ll);
    if ll == F_ZERO {
        nothing_absorbs(m, d, len);
        products_cancel(m, d, len, F_ZERO, len);
    }
    two(m, d, sum(m, xx, yy), ll);
    products_cancel(m, d, sum(m, xx, yy), F_ONE, ll);
}

/// The place and the pressure of a sample lie in `d`.
pub open spec fn sampled(d: Set<u32>, s: InputSample) -> bool {
    placed(d, s.pos) && d.contains(s.pressure)
}

/// Two samples are apart, and their distance is the root of its square.
pub open spec fn measured<M: Arith>(m: &M, d: Set<u32>, s0: InputSample, s1: InputSample) -> bool {
    let len = way(m, s0.pos, s1.pos).1;
    &&& sampled(d, s0) && sampled(d, s1) && d.contains(len)
    &&& len != F_ZERO
    &&& product(m, len, len) == apart(m, s0.pos, s1.pos)
}

/// Stamps lie on the way: the first at its start, one at its whole length at its end,
/// and each as far along in x, y and pressure as its distance says.
pub proof fn stamps_lie_on_the_way<M: Arith>(
    m: &M,
    d: Set<u32>,
    s0: InputSample,
    s1: InputSample,
    at: u32,
)
    requires
        exact(m, d),
        measured(m, d, s0, s1),
        d.contains(at),
    ensures
        ({
            let (dir, len) = way(m, s0.pos, s1.pos);
            let s = stamp_on(m, s0, s1, dir, len, at);
            &&& sampled(d, s)
            &&& product(m, difference(m, s.pos.x, s0.pos.x), len) == product(
                m,
                at,
                difference(m, s1.pos.x, s0.pos.x),
            )
            &&& product(m, difference(m, s.pos.y, s0.pos.y), len) == product(
                m,
                at,
                difference(m, s1.pos.y, s0.pos.y),
            )
            &&& product(m, difference(m, s.pressure, s0.pressure), len) == product(
                m,
                at,
                difference(m, s1.pressure, s0.pressure),
            )
            &&& stamp_on(m, s0, s1, dir, len, F_ZERO) == s0
            &&& stamp_on(m, s0, s1, dir, len, len) == s1
        }),
{
    let (dir, len) = way(m, s0.pos, s1.pos);
    lemma_shift(m, d, s0.pos.x, s1.pos.x, len, at);
    lemma_shift(m, d, s0.pos.y, s1.pos.y, len, at);
    lemma_shift(m, d, s0.pos.x, s1.pos.x, len, F_ZERO);
    lemma_shift(m, d, s0.pos.y, s1.pos.y, len, F_ZERO);
    lemma_shift(m, d, s0.pos.x, s1.pos.x, len, len);
    lemma_shift(m, d, s0.pos.y, s1.pos.y, len, len);
    lemma_press(m, d, s0.pressure, s1.pressure, len, at);
    lemma_press(m, d, s0.pressure, s1.pressure, len, F_ZERO);
    lemma_press(m, d, s0.pressure, s1.pressure, len, len);
}

proof fn lemma_shift<M: Arith>(m: &M, d: Set<u32>, p: u32, q: u32, len: u32, at: u32)
    requires
        exact(m, d),
        d.contains(p) && d.contains(q) && d.contains(len) && d.contains(at),
        len != F_ZERO,
    ensures
        ({
            let g = difference(m, q, p);
            let x = sum(m, p, product(m, quotient(m, g, len), at));
            &&& d.contains(x)
            &&& product(m, difference(m, x, p), len) == product(m, at, g)
            &&& at == F_ZERO ==> x == p
            &&& at == len ==> x == q
        }),
{
    let g = difference(m, q, p);
    let u = quotient(m, g, len);
    two(m, d, q, p);
    two(m, d, g, len);
    two(m, d, u, at);
    two(m, d, p, product(m, u, at));
    adding_cancels(m, d, product(m, u, at), p);
    products(m, d, u, at, len);
    two(m, d, at, g);
    nothing_absorbs(m, d, u);
    two(m, d, p, p);
}

proof fn lemma_press<M: Arith>(m: &M, d: Set<u32>, p: u32, q: u32, len: u32, at: u32)
    requires
        exact(m, d),
        d.contains(p) && d.contains(q) && d.contains(len) && d.contains(at),
        len != F_ZERO,
    ensures
        ({
            let x = blend_of(m, p, q, quotient(m, at, len));
            &&& d.contains(x)
            &&& product(m, difference(m, x, p), len) == product(m, at, difference(m, q, p))
            &&& at == F_ZERO ==> x == p
            &&& at == len ==> x == q
        }),
{
    let g = difference(m, q, p);
    let t = quotient(m, at, len);
    two(m, d, q, p);
    two(m, d, at, len);
    two(m, d, g, t);
    two(m, d, p, product(m, g, t));
    adding_cancels(m, d, product(m, g, t), p);
    products(m, d, g, t, len);
    two(m, d, at, g);
    nothing_absorbs(m, d, g);
    nothing_absorbs(m, d, len);
    two(m, d, p, p);
    two(m, d, g, g);
    two(m, d, len, len);
    if at == F_ZERO {
        quotients_are_unique(m, d, at, len, F_ZERO);
    }
    if at == len {
        quotients_are_unique(m, d, at, len, F_ONE);
    }
}

/// Two stamps of one way are as far apart as their distances along it, so that a stamp
/// at distance `e` is that far from the start, what is left of the length from the
/// end, and one step from its neighbour.
pub proof fn stamps_are_as_far_apart_as_their_distances<M: Arith>(
    m: &M,
    d: Set<u32>,
    s0: InputSample,
    s1: InputSample,
    e: u32,
    f: u32,
)
    requires
        exact(m, d),
        measured(m, d, s0, s1),
        d.contains(e) && d.contains(f),
    ensures
        ({
            let (dir, len) = way(m, s0.pos, s1.pos);
            apart(
                m,
                stamp_on(m, s0, s1, dir, len, e).pos,
                stamp_on(m, s0, s1, dir, len, f).pos,
            ) == product(m, difference(m, f, e), difference(m, f, e))
        }),
{
    let (dir, len) = way(m, s0.pos, s1.pos);
    let (x, y) = (
        difference(m, s1.pos.x, s0.pos.x),
        difference(m, s1.pos.y, s0.pos.y),
    );
    two(m, d, s1.pos.x, s0.pos.x);
    two(m, d, s1.pos.y, s0.pos.y);
    two(m, d, x, len);
    two(m, d, y, len);
    lemma_length_one(m, d, dir.x, dir.y, len, x, y);
    let g = difference(m, f, e);
    two(m, d, f, e);
    lemma_moved(m, d, s0.pos.x, dir.x, e, f);
    lemma_moved(m, d, s0.pos.y, dir.y, e, f);
    let (xx, yy) = (product(m, dir.x, dir.x), product(m, dir.y, dir.y));
    two(m, d, dir.x, dir.x);
    two(m, d, dir.y, dir.y);
    two(m, d, g, g);
    products_exchange(m, d, dir.x, g, dir.x, g);
    products_exchange(m, d, dir.y, g, dir.y, g);
    spreads(m, d, product(m, g, g), xx, yy);
    two(m, d, product(m, g, g), sum(m, xx, yy));
}

proof fn lemma_moved<M: Arith>(m: &M, d: Set<u32>, p: u32, u: u32, e: u32, f: u32)
    requires
        exact(m, d),
        d.contains(p) && d.contains(u) && d.contains(e) && d.contains(f),
    ensures
        difference(m, sum(m, p, product(m, u, f)), sum(m, p, product(m, u, e))) == product(
            m,
            u,
            difference(m, f, e),
        ),
{
    let (ue, uf) = (product(m, u, e), product(m, u, f));
    two(m, d, f, e);
    two(m, d, u, e);
    two(m, d, u, f);
    differences_spread(m, d, u, f, e);
    two(m, d, uf, ue);
    two(m, d, p, ue);
    two(m, d, p, uf);
    let g = difference(m, uf, ue);
    sums(m, d, g, p, ue);
    differences_are_unique(m, d, sum(m, p, uf), sum(m, p, ue), g);
}

/// The stamps of a way start at the first distance and are one step apart, none of
/// them past its end. The way ends one step after the last one, where the next way
/// goes on.
pub proof fn stamps_keep_their_step<M: Arith>(
    m: &M,
    s0: InputSample,
    s1: InputSample,
    dir: Vec2,
    len: u32,
    step: u32,
    first: u32,
) -> (at: Seq<u32>)
    ensures
        ({
            let stamps = stamps_between(m, s0, s1, dir, len, step, first);
            &&& at.len() == stamps.len()
            &&& forall|k: int|
                0 <= k < at.len() ==> stamps[k] == stamp_on(m, s0, s1, dir, len, #[trigger] at[k])
                    && less(at[k], len)
            &&& forall|k: int| 0 < k < at.len() ==> #[trigger] at[k] == sum(m, at[k - 1], step)
            &&& if less(first, len) {
                at.len() > 0 && at[0] == first && way_end(m, len, step, first) == sum(
                    m,
                    at.last(),
                    step,
                ) && (less(at.last(), way_end(m, len, step, first)) ==> !less(
                    way_end(m, len, step, first),
                    len,
                ))
            } else {
                at.len() == 0 && way_end(m, len, step, first) == first
            }
        }),
    decreases way_left(len, first),
{
    if less(first, len) {
        let next = sum(m, first, step);
        if less(first, next) {
            let rest = stamps_keep_their_step(m, s0, s1, dir, len, step, next);
            let at = seq![first] + rest;
            let stamps = stamps_between(m, s0, s1, dir, len, step, first);
            let others = stamps_between(m, s0, s1, dir, len, step, next);
            assert(stamps =~= seq![stamp_on(m, s0, s1, dir, len, first)] + others);
            assert forall|k: int| 0 <= k < at.len() implies stamps[k] == stamp_on(
                m,
                s0,
                s1,
                dir,
                len,
                #[trigger] at[k],
            ) && less(at[k], len) by {
                if k > 0 {
                    assert(at[k] == rest[k - 1]);
                    assert(stamps[k] == others[k - 1]);
                }
            }
            assert forall|k: int| 0 < k < at.len() implies #[trigger] at[k] == sum(
                m,
                at[k - 1],
                step,
            ) by {
                assert(at[k] == rest[k - 1]);
                if k > 1 {
                    assert(at[k - 1] == rest[k - 2]);
                }
            }
            if rest.len() > 0 {
                assert(at.last() == rest.last());
            }
            at
        } else {
            seq![first]
        }
    } else {
        Seq::empty()
    }
}

/// The step goes on round a corner: what is left of a way after its last stamp and
/// where the first one lies on the next way make one step together. A way without
/// length is passed over.
pub proof fn ways_carry_the_step_on<M: Arith>(
    m: &M,
    d: Set<u32>,
    samples: Seq<InputSample>,
    i: int,
    step: u32,
    first: u32,
) -> (carry: u32)
    requires
        exact(m, d),
        0 <= i < samples.len() - 1,
        ({
            let len = way(m, samples[i].pos, samples[i + 1].pos).1;
            d.contains(first) && d.contains(step) && d.contains(len)
        }),
    ensures
        ({
            let (s0, s1) = (samples[i], samples[i + 1]);
            let (dir, len) = way(m, s0.pos, s1.pos);
            let here = stamps_between(m, s0, s1, dir, len, step, first);
            if zero(len) {
                carry == first && stamps_from(m, samples, i, step, first) == stamps_from(
                    m,
                    samples,
                    i + 1,
                    step,
                    first,
                )
            } else {
                &&& stamps_from(m, samples, i, step, first) == here + stamps_from(
                    m,
                    samples,
                    i + 1,
                    step,
                    carry,
                )
                &&& less(first, len) ==> exists|last: u32|
                    #![trigger stamp_on(m, s0, s1, dir, len, last)]
                    here.len() > 0 && here.last() == stamp_on(m, s0, s1, dir, len, last) && less(
                        last,
                        len,
                    ) && sum(m, difference(m, len, last), carry) == step
                &&& !less(first, len) ==> here.len() == 0 && sum(m, carry, len) == first
            }
        }),
{
    let (s0, s1) = (samples[i], samples[i + 1]);
    let (dir, len) = way(m, s0.pos, s1.pos);
    if zero(len) {
        first
    } else {
        let at = stamps_keep_their_step(m, s0, s1, dir, len, step, first);
        let end = way_end(m, len, step, first);
        let carry = difference(m, end, len);
        if less(first, len) {
            lemma_distances_in(m, d, at, step, at.len() as int);
            let last = at[at.len() - 1];
            two(m, d, last, step);
            two(m, d, end, len);
            two(m, d, len, last);
            // (len - last) + ((last + step) - len) = step, as both with last added are
            // last + step
            let left = difference(m, len, last);
            two(m, d, left, carry);
            sums(m, d, left, carry, last);
            two(m, d, carry, len);
            two(m, d, step, last);
            sums_cancel(m, d, sum(m, left, carry), step, last);
            let here = stamps_between(m, s0, s1, dir, len, step, first);
            assert(here[at.len() - 1] == stamp_on(m, s0, s1, dir, len, at[at.len() - 1]));
        } else {
            two(m, d, first, len);
        }
        carry
    }
}

proof fn lemma_distances_in<M: Arith>(m: &M, d: Set<u32>, at: Seq<u32>, step: u32, n: int)
    requires
        exact(m, d),
        0 < n <= at.len(),
        d.contains(at[0]) && d.contains(step),
        forall|k: int| 0 < k < at.len() ==> #[trigger] at[k] == sum(m, at[k - 1], step),
    ensures
        d.contains(at[n - 1]),
    decreases n,
{
    if n > 1 {
        lemma_distances_in(m, d, at, step, n - 1);
        two(m, d, at[n - 2], step);
        assert(at[n - 1] == sum(m, at[n - 1 - 1], step));
    }
}

/// A sample with its coordinates exchanged.
pub open spec fn flipped_sample(s: InputSample) -> InputSample {
    InputSample { pos: flipped(s.pos), ..s }
}

/// Exchanging x and y of the samples exchanges x and y of every stamp.
pub proof fn stamps_know_no_axis<M: Arith>(
    m: &M,
    d: Set<u32>,
    samples: Seq<InputSample>,
    i: int,
    step: u32,
    first: u32,
)
    requires
        exact(m, d),
        forall|k: int| 0 <= k < samples.len() ==> placed(d, (#[trigger] samples[k]).pos),
        0 <= i,
    ensures
        stamps_from(m, samples.map_values(|s: InputSample| flipped_sample(s)), i, step, first)
            == stamps_from(m, samples, i, step, first).map_values(
            |s: InputSample| flipped_sample(s),
        ),
    decreases samples.len() - i,
{
    let flip = |s: InputSample| flipped_sample(s);
    let other = samples.map_values(flip);
    if i + 1 < samples.len() {
        let (s0, s1) = (samples[i], samples[i + 1]);
        let (dir, len) = way(m, s0.pos, s1.pos);
        assert(other[i] == flipped_sample(s0) && other[i + 1] == flipped_sample(s1));
        let (x, y) = (
            difference(m, s1.pos.x, s0.pos.x),
            difference(m, s1.pos.y, s0.pos.y),
        );
        two(m, d, s1.pos.x, s0.pos.x);
        two(m, d, s1.pos.y, s0.pos.y);
        two(m, d, x, x);
        two(m, d, y, y);
        two(m, d, product(m, x, x), product(m, y, y));
        assert(way(m, flipped(s0.pos), flipped(s1.pos)) == (flipped(dir), len));
        if zero(len) {
            stamps_know_no_axis(m, d, samples, i + 1, step, first);
        } else {
            let next = difference(m, way_end(m, len, step, first), len);
            lemma_flipped_way(m, s0, s1, dir, len, step, first);
            stamps_know_no_axis(m, d, samples, i + 1, step, next);
            let here = stamps_between(m, s0, s1, dir, len, step, first);
            let rest = stamps_from(m, samples, i + 1, step, next);
            assert((here + rest).map_values(flip) =~= here.map_values(flip) + rest.map_values(
                flip,
            ));
        }
    } else {
        assert(Seq::<InputSample>::empty().map_values(flip) =~= Seq::empty());
    }
}

proof fn lemma_flipped_way<M: Arith>(
    m: &M,
    s0: InputSample,
    s1: InputSample,
    dir: Vec2,
    len: u32,
    step: u32,
    first: u32,
)
    ensures
        stamps_between(
            m,
            flipped_sample(s0),
            flipped_sample(s1),
            flipped(dir),
            len,
            step,
            first,
        ) == stamps_between(m, s0, s1, dir, len, step, first).map_values(
            |s: InputSample| flipped_sample(s),
        ),
    decreases way_left(len, first),
{
    let flip = |s: InputSample| flipped_sample(s);
    if less(first, len) {
        let next = sum(m, first, step);
        let one = seq![stamp_on(m, s0, s1, dir, len, first)];
        assert(one.map_values(flip) =~= seq![flipped_sample(one[0])]);
        if less(first, next) {
            lemma_flipped_way(m, s0, s1, dir, len, step, next);
            let rest = stamps_between(m, s0, s1, dir, len, step, next);
            assert((one + rest).map_values(flip) =~= one.map_values(flip) + rest.map_values(flip));
        } else {
            assert((one + Seq::<InputSample>::empty()).map_values(flip) =~= one.map_values(flip)
                + Seq::<InputSample>::empty());
        }
    } else {
        assert(Seq::<InputSample>::empty().map_values(flip) =~= Seq::empty());
    }
}

/// `x` lies between `a` and `b`, or is one of them.
pub open spec fn between(a: int, x: int, b: int) -> bool {
    a <= x <= b || b <= x <= a
}

proof fn lemma_level_line(a: (int, int), b: (int, int), p: (int, int), q: (int, int))
    requires
        in_box(a, b, p),
        a.1 == b.1,
    ensures
        line_from(a, b, p).contains(q) <==> q.1 == a.1 && between(p.0, q.0, b.0),
    decreases span(p.0, b.0) + span(p.1, b.1),
{
    let l = line_from(a, b, p);
    if p == b {
        assert(l == seq![p]);
        if q == p {
            assert(l[0] == q);
        }
    } else {
        lemma_next_point(a, b, p);
        let n = next_point(a, b, p);
        let d = span(a.0, b.0);
        assert(d > 0 && span(a.1, b.1) == 0 && span(a.1, p.1) == 0);
        assert(n == (toward(p.0, a.0, b.0), p.1)) by {
            assert((2 * span(a.0, p.0) + 1) * 0 == 0) by (nonlinear_arith);
            assert(2 * ((span(a.0, p.0) + 1) * 0) == 0) by (nonlinear_arith);
        }
        lemma_level_line(a, b, n, q);
        let rest = line_from(a, b, n);
        assert(l =~= seq![p] + rest);
        lemma_first_or_rest(p, rest, q);
    }
}

proof fn lemma_upright_line(a: (int, int), b: (int, int), p: (int, int), q: (int, int))
    requires
        in_box(a, b, p),
        a.0 == b.0,
    ensures
        line_from(a, b, p).contains(q) <==> q.0 == a.0 && between(p.1, q.1, b.1),
    decreases span(p.0, b.0) + span(p.1, b.1),
{
    let l = line_from(a, b, p);
    if p == b {
        assert(l == seq![p]);
        if q == p {
            assert(l[0] == q);
        }
    } else {
        lemma_next_point(a, b, p);
        let n = next_point(a, b, p);
        let e = span(a.1, b.1);
        assert(e > 0 && span(a.0, b.0) == 0 && span(a.0, p.0) == 0);
        assert(n == (p.0, toward(p.1, a.1, b.1))) by {
            assert((2 * span(a.1, p.1) + 1) * 0 == 0) by (nonlinear_arith);
            assert(2 * ((span(a.1, p.1) + 1) * 0) == 0) by (nonlinear_arith);
        }
        lemma_upright_line(a, b, n, q);
        let rest = line_from(a, b, n);
        assert(l =~= seq![p] + rest);
        lemma_first_or_rest(p, rest, q);
    }
}

proof fn lemma_first_or_rest(p: (int, int), rest: Seq<(int, int)>, q: (int, int))
    ensures
        (seq![p] + rest).contains(q) <==> q == p || rest.contains(q),
{
    let l = seq![p] + rest;
    if q == p {
        assert(l[0] == q);
    }
    if rest.contains(q) {
        let i = choose|i: int| 0 <= i < rest.len() && rest[i] == q;
        assert(l[i + 1] == q);
    }
    if l.contains(q) {
        let i = choose|i: int| 0 <= i < l.len() && l[i] == q;
        if i > 0 {
            assert(rest[i - 1] == q);
        }
    }
}

/// One of the first `w` lines of the stroke of a segment goes through a point.
pub open spec fn on_stroke<K: Kernel>(kern: &K, a: IVec2, b: IVec2, w: int, q: (int, int)) -> bool {
    exists|i: int| 0 <= i < w && #[trigger] stroke_line(kern, a, b, i).contains(q)
}

/// The lines of a stroke of width `w` lie at these offsets: as many on one side as on
/// the other, or one more.
pub open spec fn among(w: int, offset: int) -> bool {
    w >= 1 && -((w - 1) / 2) <= offset <= w / 2
}

/// A stroke of width `w` on a level or upright segment covers `w` pixels across at
/// each pixel of the segment, centered on it, and none beyond its ends.
pub proof fn strokes_are_centered<M: Arith>(
    k: &FloatKernel<M>,
    a: IVec2,
    b: IVec2,
    w: int,
    q: (int, int),
)
    requires
        rounding(&k.math),
    ensures
        a.y == b.y && a.x != b.x ==> (on_stroke(k, a, b, w, q) <==> between(
            a.x as int,
            q.0,
            b.x as int,
        ) && among(w, if a.x < b.x { q.1 - a.y } else { a.y - q.1 })),
        a.x == b.x && a.y != b.y ==> (on_stroke(k, a, b, w, q) <==> between(
            a.y as int,
            q.1,
            b.y as int,
        ) && among(w, if a.y < b.y { a.x - q.0 } else { q.0 - a.x })),
{
    strokes_offset_across_their_segment(&k.math, a, b);
    if a.y == b.y && a.x != b.x {
        let s = if a.x < b.x { 1int } else { -1int };
        assert forall|i: int| 0 <= i < w implies (#[trigger] stroke_line(k, a, b, i).contains(q)
            <==> between(a.x as int, q.0, b.x as int) && q.1 == a.y + s * side_of(i)) by {
            let o = s * side_of(i);
            assert(0 * side_of(i) == 0);
            lemma_level_line(
                (a.x as int, a.y + o),
                (b.x as int, b.y + o),
                (a.x as int, a.y + o),
                q,
            );
        }
        let o = if a.x < b.x { q.1 - a.y } else { a.y - q.1 };
        let i = if o > 0 { 2 * o - 1 } else { -2 * o };
        if among(w, o) && between(a.x as int, q.0, b.x as int) {
            assert(0 <= i < w && side_of(i) == o);
            assert(stroke_line(k, a, b, i).contains(q));
        }
    }
    if a.x == b.x && a.y != b.y {
        let s = if a.y < b.y { -1int } else { 1int };
        assert forall|i: int| 0 <= i < w implies (#[trigger] stroke_line(k, a, b, i).contains(q)
            <==> between(a.y as int, q.1, b.y as int) && q.0 == a.x + s * side_of(i)) by {
            let o = s * side_of(i);
            assert(0 * side_of(i) == 0);
            lemma_upright_line(
                (a.x + o, a.y as int),
                (b.x + o, b.y as int),
                (a.x + o, a.y as int),
                q,
            );
        }
        let o = if a.y < b.y { a.x - q.0 } else { q.0 - a.x };
        let i = if o > 0 { 2 * o - 1 } else { -2 * o };
        if among(w, o) && between(a.y as int, q.1, b.y as int) {
            assert(0 <= i < w && side_of(i) == o);
            assert(stroke_line(k, a, b, i).contains(q));
        }
    }
}

/// Drawing the stroke of a segment colors the pixels on its lines and no others.
pub proof fn strokes_color_their_lines<K: Kernel>(
    kern: &K,
    m: Map<(i32, i32), Seq<Rgba32F>>,
    a: IVec2,
    b: IVec2,
    w: int,
    px: Rgba32F,
    q: IVec2,
)
    requires
        full_tiles(m),
        !px.is_clear(),
    ensures
        full_tiles(segment_drawn(kern, m, a, b, w, px)),
        pixel_at(segment_drawn(kern, m, a, b, w, px), q) == if on_stroke(
            kern,
            a,
            b,
            w,
            (q.x as int, q.y as int),
        ) {
            px
        } else {
            pixel_at(m, q)
        },
    decreases w,
{
    let at = (q.x as int, q.y as int);
    if w > 0 {
        strokes_color_their_lines(kern, m, a, b, w - 1, px, q);
        let below = segment_drawn(kern, m, a, b, w - 1, px);
        let line = stroke_line(kern, a, b, w - 1);
        lemma_points_colored(below, line, px, q);
        if line.contains(at) {
            assert(stroke_line(kern, a, b, w - 1).contains(at));
            assert(on_stroke(kern, a, b, w, at));
        } else if on_stroke(kern, a, b, w, at) {
            let i = choose|i: int| 0 <= i < w && #[trigger] stroke_line(kern, a, b, i).contains(at);
            assert(0 <= i < w - 1);
            assert(on_stroke(kern, a, b, w - 1, at));
        }
        if on_stroke(kern, a, b, w - 1, at) {
            let i = choose|i: int|
                0 <= i < w - 1 && #[trigger] stroke_line(kern, a, b, i).contains(at);
            assert(0 <= i < w);
            assert(on_stroke(kern, a, b, w, at));
        }
    }
}

proof fn lemma_points_colored(
    m: Map<(i32, i32), Seq<Rgba32F>>,
    pts: Seq<(int, int)>,
    px: Rgba32F,
    q: IVec2,
)
    requires
        full_tiles(m),
        !px.is_clear(),
    ensures
        full_tiles(with_points(m, pts, px)),
        pixel_at(with_points(m, pts, px), q) == if pts.contains((q.x as int, q.y as int)) {
            px
        } else {
            pixel_at(m, q)
        },
    decreases pts.len(),
{
    let at = (q.x as int, q.y as int);
    if pts.len() > 0 {
        let (rest, p) = (pts.drop_last(), pts.last());
        lemma_points_colored(m, rest, px, q);
        if fits_i32(p.0) && fits_i32(p.1) {
            set_pixel_then_get(
                with_points(m, rest, px),
                IVec2 { x: p.0 as i32, y: p.1 as i32 },
                px,
                q,
            );
        }
        if rest.contains(at) {
            let i = choose|i: int| 0 <= i < rest.len() && rest[i] == at;
            assert(pts[i] == at);
        }
        if pts.contains(at) && p != at {
            let i = choose|i: int| 0 <= i < pts.len() && pts[i] == at;
            assert(rest[i] == at);
        }
        if p == at {
            assert(pts[pts.len() - 1] == at);
        }
    }
}

} // verus!
