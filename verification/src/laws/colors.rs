//! Colors: alpha, mixing, encoding, distances, and the color under a matte.
use vstd::prelude::*;

use crate::arith::{difference, power, product, quotient, sum, Arith};
use crate::exact::{
    adding_cancels, differences_are_unique, differences_spread, exact, made_of, nothing_absorbs,
    quotients_are_unique, rounding, spreads, squares_have_no_sign, sums, sums_cancel, two,
};
use crate::float_bits::{at_most, clamped, finite, larger, less, nan, unit, F_ONE, F_SIGN, F_ZERO};
use crate::float_kernel::{channel_coverage, color_gap, lifted_off, mean_color, recovered};
use crate::laws::distances::square_between;
use crate::ops::finger_ops::{srgb_decoded, SRGB_FOOT};
use crate::pixel::{
    blend_of, clear_px, number_or_zero, perceived_distance, sanitized, srgb_encoded, Rgba32F,
    SRGB_GAMMA, SRGB_KNEE, SRGB_SCALE, SRGB_SHIFT, SRGB_SLOPE,
};

verus! {

/// Multiplying the alpha into a visible pixel and dividing by it again, in either
/// order, gives the pixel back.
pub proof fn premultiplying_is_undone<M: Arith>(m: &M, d: Set<u32>, px: Rgba32F)
    requires
        exact(m, d),
        made_of(d, px),
        less(F_ZERO, px.a),
    ensures
        px.weighted(m).unweighted(m) == px,
        px.unweighted(m).weighted(m) == px,
{
    two(m, d, px.r, px.a);
    two(m, d, px.g, px.a);
    two(m, d, px.b, px.a);
    quotients_are_unique(m, d, product(m, px.r, px.a), px.a, px.r);
    quotients_are_unique(m, d, product(m, px.g, px.a), px.a, px.g);
    quotients_are_unique(m, d, product(m, px.b, px.a), px.a, px.b);
}

/// An opaque pixel is the same with its alpha multiplied in.
pub proof fn opaque_pixels_are_premultiplied<M: Arith>(m: &M, px: Rgba32F)
    requires
        rounding(m),
        px.a == F_ONE,
        !nan(px.r) && !nan(px.g) && !nan(px.b),
    ensures
        px.weighted(m) == px,
{
}

/// A number between two others starts at the first, ends at the second, moves in
/// proportion, and is the same seen from the other end.
pub proof fn between_two_numbers<M: Arith>(m: &M, d: Set<u32>, a: u32, b: u32, t: u32)
    requires
        exact(m, d),
        d.contains(a) && d.contains(b) && d.contains(t),
    ensures
        d.contains(blend_of(m, a, b, t)),
        blend_of(m, a, b, F_ZERO) == a,
        blend_of(m, a, b, F_ONE) == b,
        difference(m, blend_of(m, a, b, t), a) == product(m, t, difference(m, b, a)),
        blend_of(m, a, b, t) == blend_of(m, b, a, difference(m, F_ONE, t)),
{
    let g = difference(m, b, a);
    two(m, d, b, a);
    two(m, d, g, t);
    two(m, d, a, a);
    two(m, d, g, g);
    nothing_absorbs(m, d, g);
    let x = product(m, g, t);
    two(m, d, a, x);
    adding_cancels(m, d, x, a);
    // b + (a - b) (1 - t) = a + (b - a) t
    let n = difference(m, F_ONE, t);
    let back = difference(m, a, b);
    two(m, d, F_ONE, t);
    two(m, d, a, b);
    squares_have_no_sign(m, d, a, b);
    two(m, d, back, g);
    let y = product(m, back, n);
    two(m, d, back, n);
    two(m, d, b, y);
    // y + back t = back, and back t + g t = 0
    spreads(m, d, back, n, t);
    two(m, d, back, t);
    two(m, d, back, back);
    spreads(m, d, t, back, g);
    two(m, d, t, back);
    two(m, d, t, g);
    nothing_absorbs(m, d, t);
    let z = product(m, back, t);
    two(m, d, y, z);
    two(m, d, z, x);
    // (b + y) + z = b + back = a, so b + y = a + x as (a + x) + z = a
    sums(m, d, b, y, z);
    sums(m, d, a, x, z);
    two(m, d, b, back);
    sums_cancel(m, d, sum(m, b, y), sum(m, a, x), z);
}

/// Mixing two pixels starts at the first, ends at the second, moves every channel in
/// proportion, and is the same seen from the other pixel.
pub proof fn mixing_goes_from_one_to_the_other<M: Arith>(
    m: &M,
    d: Set<u32>,
    p: Rgba32F,
    q: Rgba32F,
    t: u32,
)
    requires
        exact(m, d),
        made_of(d, p),
        made_of(d, q),
        d.contains(t),
    ensures
        p.mixed(m, q, F_ZERO) == p,
        p.mixed(m, q, F_ONE) == q,
        p.mixed(m, q, t) == q.mixed(m, p, difference(m, F_ONE, t)),
        ({
            let x = p.mixed(m, q, t);
            &&& difference(m, x.r, p.r) == product(m, t, difference(m, q.r, p.r))
            &&& difference(m, x.g, p.g) == product(m, t, difference(m, q.g, p.g))
            &&& difference(m, x.b, p.b) == product(m, t, difference(m, q.b, p.b))
            &&& difference(m, x.a, p.a) == product(m, t, difference(m, q.a, p.a))
        }),
{
    between_two_numbers(m, d, p.r, q.r, t);
    between_two_numbers(m, d, p.g, q.g, t);
    between_two_numbers(m, d, p.b, q.b, t);
    between_two_numbers(m, d, p.a, q.a, t);
}

/// Taking the display encoding back gives the linear light, on both parts of the
/// curve, where raising to a power can be taken back and both ends of the curve see a
/// value on the same part.
pub proof fn decoding_undoes_encoding<M: Arith>(m: &M, d: Set<u32>, c: u32)
    requires
        exact(m, d),
        d.contains(c) && unit(c) == c,
        d.contains(SRGB_SLOPE) && d.contains(SRGB_SCALE) && d.contains(SRGB_SHIFT),
        ({
            let e = srgb_encoded(m, c);
            let p = power(m, c, quotient(m, F_ONE, SRGB_GAMMA));
            &&& unit(e) == e
            &&& at_most(e, SRGB_FOOT) <==> at_most(c, SRGB_KNEE)
            &&& d.contains(p) && power(m, p, SRGB_GAMMA) == c
        }),
    ensures
        srgb_decoded(m, srgb_encoded(m, c)) == c,
{
    let e = srgb_encoded(m, c);
    let p = power(m, c, quotient(m, F_ONE, SRGB_GAMMA));
    if at_most(c, SRGB_KNEE) {
        two(m, d, SRGB_SLOPE, c);
        quotients_are_unique(m, d, e, SRGB_SLOPE, c);
    } else {
        two(m, d, SRGB_SCALE, p);
        two(m, d, product(m, SRGB_SCALE, p), SRGB_SHIFT);
        quotients_are_unique(m, d, product(m, SRGB_SCALE, p), SRGB_SCALE, p);
    }
}

/// A pixel is at no distance from itself. In one channel alone pixels are as far apart
/// as their encoded values there, or their alphas, and the distance of any two is the
/// sum of what each channel adds on its own.
pub proof fn each_channel_is_perceived_on_its_own<M: Arith>(m: &M, p: Rgba32F, q: Rgba32F)
    requires
        rounding(m),
        finite(srgb_encoded(m, number_or_zero(p.r))),
        finite(srgb_encoded(m, number_or_zero(p.g))),
        finite(srgb_encoded(m, number_or_zero(p.b))),
        !nan(
            difference(
                m,
                srgb_encoded(m, number_or_zero(p.r)),
                srgb_encoded(m, number_or_zero(q.r)),
            ),
        ),
        !nan(
            difference(
                m,
                srgb_encoded(m, number_or_zero(p.g)),
                srgb_encoded(m, number_or_zero(q.g)),
            ),
        ),
        !nan(
            difference(
                m,
                srgb_encoded(m, number_or_zero(p.b)),
                srgb_encoded(m, number_or_zero(q.b)),
            ),
        ),
        !nan(difference(m, unit(p.a), unit(q.a))),
    ensures
        ({
            let red = perceived_distance(m, p, Rgba32F { r: q.r, ..p });
            let green = perceived_distance(m, p, Rgba32F { g: q.g, ..p });
            let blue = perceived_distance(m, p, Rgba32F { b: q.b, ..p });
            let alpha = perceived_distance(m, p, Rgba32F { a: q.a, ..p });
            &&& perceived_distance(m, p, p) == F_ZERO
            &&& red == square_between(
                m,
                srgb_encoded(m, number_or_zero(p.r)),
                srgb_encoded(m, number_or_zero(q.r)),
            )
            &&& green == square_between(
                m,
                srgb_encoded(m, number_or_zero(p.g)),
                srgb_encoded(m, number_or_zero(q.g)),
            )
            &&& blue == square_between(
                m,
                srgb_encoded(m, number_or_zero(p.b)),
                srgb_encoded(m, number_or_zero(q.b)),
            )
            &&& alpha == square_between(m, unit(p.a), unit(q.a))
            &&& perceived_distance(m, p, q) == sum(m, sum(m, sum(m, red, green), blue), alpha)
            &&& at_most(red, perceived_distance(m, p, q))
            &&& at_most(green, perceived_distance(m, p, q))
            &&& at_most(blue, perceived_distance(m, p, q))
            &&& at_most(alpha, perceived_distance(m, p, q))
        }),
{
    let (pr, qr) = (srgb_encoded(m, number_or_zero(p.r)), srgb_encoded(m, number_or_zero(q.r)));
    let (pg, qg) = (srgb_encoded(m, number_or_zero(p.g)), srgb_encoded(m, number_or_zero(q.g)));
    let (pb, qb) = (srgb_encoded(m, number_or_zero(p.b)), srgb_encoded(m, number_or_zero(q.b)));
    lemma_four(
        m,
        square_between(m, pr, qr),
        square_between(m, pg, qg),
        square_between(m, pb, qb),
        square_between(m, unit(p.a), unit(q.a)),
    );
    assert(difference(m, pr, pr) == F_ZERO && difference(m, pg, pg) == F_ZERO);
    assert(difference(m, pb, pb) == F_ZERO && difference(m, unit(p.a), unit(p.a)) == F_ZERO);
}

/// A sum of four squares is no less than each, and is the one that is not nothing.
proof fn lemma_four<M: Arith>(m: &M, a: u32, b: u32, c: u32, e: u32)
    requires
        rounding(m),
        !nan(a) && !nan(b) && !nan(c) && !nan(e),
        a < F_SIGN && b < F_SIGN && c < F_SIGN && e < F_SIGN,
    ensures
        ({
            let all = sum(m, sum(m, sum(m, a, b), c), e);
            at_most(a, all) && at_most(b, all) && at_most(c, all) && at_most(e, all)
        }),
        sum(m, sum(m, sum(m, a, F_ZERO), F_ZERO), F_ZERO) == a,
        sum(m, sum(m, sum(m, F_ZERO, b), F_ZERO), F_ZERO) == b,
        sum(m, sum(m, sum(m, F_ZERO, F_ZERO), c), F_ZERO) == c,
        sum(m, sum(m, sum(m, F_ZERO, F_ZERO), F_ZERO), e) == e,
        sum(m, sum(m, sum(m, F_ZERO, F_ZERO), F_ZERO), F_ZERO) == F_ZERO,
{
    let ab = sum(m, a, b);
    let abc = sum(m, ab, c);
    assert(at_most(a, ab) && at_most(b, ab));
    assert(at_most(ab, abc) && at_most(c, abc));
    assert(at_most(abc, sum(m, abc, e)) && at_most(e, sum(m, abc, e)));
}

/// The coverage of a channel is the least: with it, what covers the matte is black
/// where the pixel is darker than the matte, and white where it is brighter.
pub proof fn coverage_is_the_least<M: Arith>(m: &M, d: Set<u32>, p: u32, k: u32)
    requires
        exact(m, d),
        d.contains(p) && d.contains(k),
    ensures
        less(p, k) && less(F_ZERO, k) ==> recovered(m, p, k, channel_coverage(m, p, k)) == F_ZERO,
        less(k, p) && less(k, F_ONE) ==> recovered(m, p, k, channel_coverage(m, p, k)) == F_ONE,
        p == k ==> channel_coverage(m, p, k) == F_ZERO,
{
    two(m, d, k, p);
    two(m, d, p, k);
    two(m, d, F_ONE, k);
    if less(p, k) && less(F_ZERO, k) {
        let g = difference(m, k, p);
        let c = quotient(m, g, k);
        two(m, d, g, k);
        // c (0 - k) = -(k - p) = p - k
        let n = difference(m, F_ZERO, k);
        two(m, d, F_ZERO, k);
        two(m, d, k, k);
        lemma_apart(m, d, k, p);
        nothing_absorbs(m, d, k);
        if c == F_ZERO {
            assert(false);
        }
        differences_spread(m, d, c, F_ZERO, k);
        nothing_absorbs(m, d, c);
        adding_cancels(m, d, k, p);
        squares_have_no_sign(m, d, k, p);
        two(m, d, g, difference(m, p, k));
        differences_are_unique(m, d, F_ZERO, g, difference(m, p, k));
        two(m, d, c, n);
        quotients_are_unique(m, d, difference(m, p, k), c, n);
    }
    if less(k, p) && less(k, F_ONE) {
        let g = difference(m, p, k);
        let n = difference(m, F_ONE, k);
        two(m, d, n, k);
        two(m, d, k, k);
        lemma_apart(m, d, p, k);
        if n == F_ZERO {
            assert(F_ONE == k);
        }
        let c = quotient(m, g, n);
        two(m, d, g, n);
        nothing_absorbs(m, d, n);
        if c == F_ZERO {
            assert(false);
        }
        two(m, d, c, n);
        quotients_are_unique(m, d, g, c, n);
    }
}

/// Different numbers differ by something.
proof fn lemma_apart<M: Arith>(m: &M, d: Set<u32>, a: u32, b: u32)
    requires
        exact(m, d),
        d.contains(a) && d.contains(b),
        a != b,
    ensures
        difference(m, a, b) != F_ZERO,
{
    two(m, d, a, b);
    two(m, d, b, b);
}

/// Laying a pixel whose matte was taken out over the matte again gives the pixel back.
pub proof fn lifting_is_undone_by_laying_over<M: Arith>(
    m: &M,
    d: Set<u32>,
    px: Rgba32F,
    k: Rgba32F,
)
    requires
        exact(m, d),
        made_of(d, px),
        made_of(d, k),
        sanitized(px) == px,
        px.a == F_ONE,
        less(F_ZERO, lifted_off(m, px, k).a),
    ensures
        ({
            let out = lifted_off(m, px, k);
            let rest = difference(m, F_ONE, out.a);
            &&& sum(m, product(m, out.a, out.r), product(m, rest, k.r)) == px.r
            &&& sum(m, product(m, out.a, out.g), product(m, rest, k.g)) == px.g
            &&& sum(m, product(m, out.a, out.b), product(m, rest, k.b)) == px.b
        }),
{
    lemma_coverage_in(m, d, px.r, k.r);
    lemma_coverage_in(m, d, px.g, k.g);
    lemma_coverage_in(m, d, px.b, k.b);
    let most = larger(
        larger(channel_coverage(m, px.r, k.r), channel_coverage(m, px.g, k.g)),
        channel_coverage(m, px.b, k.b),
    );
    let a = clamped(most, F_ZERO, F_ONE);
    let out = lifted_off(m, px, k);
    if at_most(a, F_ZERO) {
        lemma_unlifted(m, d, px, k, out.a);
    } else {
        two(m, d, a, a);
        assert(out.a == a);
        lemma_laid_again(m, d, px.r, k.r, a);
        lemma_laid_again(m, d, px.g, k.g, a);
        lemma_laid_again(m, d, px.b, k.b, a);
    }
}

/// A pixel that needs no coverage and is kept whole covers all.
proof fn lemma_unlifted<M: Arith>(m: &M, d: Set<u32>, px: Rgba32F, k: Rgba32F, a: u32)
    requires
        exact(m, d),
        made_of(d, px),
        made_of(d, k),
        a == F_ONE,
    ensures
        ({
            let rest = difference(m, F_ONE, a);
            &&& sum(m, product(m, a, px.r), product(m, rest, k.r)) == px.r
            &&& sum(m, product(m, a, px.g), product(m, rest, k.g)) == px.g
            &&& sum(m, product(m, a, px.b), product(m, rest, k.b)) == px.b
        }),
{
    adding_cancels(m, d, F_ONE, F_ONE);
    nothing_absorbs(m, d, k.r);
    nothing_absorbs(m, d, k.g);
    nothing_absorbs(m, d, k.b);
    two(m, d, px.r, px.r);
    two(m, d, px.g, px.g);
    two(m, d, px.b, px.b);
}

proof fn lemma_coverage_in<M: Arith>(m: &M, d: Set<u32>, p: u32, k: u32)
    requires
        exact(m, d),
        d.contains(p) && d.contains(k),
    ensures
        d.contains(channel_coverage(m, p, k)),
{
    two(m, d, k, p);
    two(m, d, p, k);
    two(m, d, F_ONE, k);
    two(m, d, difference(m, k, p), k);
    if less(k, F_ONE) {
        two(m, d, k, k);
        lemma_apart(m, d, F_ONE, k);
        two(m, d, difference(m, p, k), difference(m, F_ONE, k));
    }
}

proof fn lemma_laid_again<M: Arith>(m: &M, d: Set<u32>, p: u32, k: u32, a: u32)
    requires
        exact(m, d),
        d.contains(p) && d.contains(k) && d.contains(a),
        a != F_ZERO,
    ensures
        sum(
            m,
            product(m, a, recovered(m, p, k, a)),
            product(m, difference(m, F_ONE, a), k),
        ) == p,
{
    // a ((p - k) / a + k) + (1 - a) k = (p - k) + (a + (1 - a)) k
    let g = difference(m, p, k);
    let q = quotient(m, g, a);
    let n = difference(m, F_ONE, a);
    two(m, d, p, k);
    two(m, d, g, a);
    two(m, d, F_ONE, a);
    two(m, d, q, k);
    spreads(m, d, a, q, k);
    two(m, d, a, k);
    two(m, d, n, k);
    sums(m, d, g, product(m, a, k), product(m, n, k));
    spreads(m, d, k, a, n);
    two(m, d, k, a);
    two(m, d, k, n);
    two(m, d, k, k);
}

/// A pixel of the matte's own color becomes transparent.
pub proof fn the_matte_itself_is_cleared<M: Arith>(m: &M, px: Rgba32F, k: Rgba32F)
    requires
        rounding(m),
        finite(k.r) && finite(k.g) && finite(k.b),
        px.r == k.r && px.g == k.g && px.b == k.b,
    ensures
        lifted_off(m, px, k) == clear_px(),
{
    let p = sanitized(px);
    assert(channel_coverage(m, p.r, k.r) == F_ZERO);
    assert(channel_coverage(m, p.g, k.g) == F_ZERO);
    assert(channel_coverage(m, p.b, k.b) == F_ZERO);
    assert(difference(m, k.r, k.r) == F_ZERO && difference(m, k.g, k.g) == F_ZERO);
    assert(difference(m, k.b, k.b) == F_ZERO);
    assert(product(m, F_ZERO, F_ZERO) == F_ZERO && sum(m, F_ZERO, F_ZERO) == F_ZERO);
    assert(color_gap(m, p, k) == F_ZERO);
}

/// What is left covering the matte shows no less than each channel needs, and no more
/// than the one that needs most.
pub proof fn coverage_is_what_one_channel_needs<M: Arith>(m: &M, px: Rgba32F, k: Rgba32F)
    requires
        sanitized(px) == px,
        ({
            let (r, g, b) = (
                channel_coverage(m, px.r, k.r),
                channel_coverage(m, px.g, k.g),
                channel_coverage(m, px.b, k.b),
            );
            &&& unit(r) == r && unit(g) == g && unit(b) == b
            &&& less(F_ZERO, r) || less(F_ZERO, g) || less(F_ZERO, b)
        }),
    ensures
        exists|a: u32|
            {
                let (r, g, b) = (
                    channel_coverage(m, px.r, k.r),
                    channel_coverage(m, px.g, k.g),
                    channel_coverage(m, px.b, k.b),
                );
                &&& a == r || a == g || a == b
                &&& at_most(r, a) && at_most(g, a) && at_most(b, a)
                &&& #[trigger] product(m, px.a, a) == lifted_off(m, px, k).a
            },
{
    let most = larger(
        larger(channel_coverage(m, px.r, k.r), channel_coverage(m, px.g, k.g)),
        channel_coverage(m, px.b, k.b),
    );
    assert(product(m, px.a, most) == lifted_off(m, px, k).a);
}

/// Exchanging two channels of every color exchanges them in the mean.
pub proof fn means_keep_channels_apart<M: Arith>(m: &M, colors: Seq<Rgba32F>)
    ensures
        ({
            let swap = |c: Rgba32F| Rgba32F { r: c.g, g: c.r, ..c };
            let turn = |c: Rgba32F| Rgba32F { g: c.b, b: c.g, ..c };
            let mean = mean_color(m, colors);
            &&& mean_color(m, colors.map_values(swap)) == (Rgba32F { r: mean.g, g: mean.r, ..mean })
            &&& mean_color(m, colors.map_values(turn)) == (Rgba32F { g: mean.b, b: mean.g, ..mean })
        }),
{
    let swap = |c: Rgba32F| Rgba32F { r: c.g, g: c.r, ..c };
    let turn = |c: Rgba32F| Rgba32F { g: c.b, b: c.g, ..c };
    let a = colors.map_values(swap);
    let b = colors.map_values(turn);
    let red = colors.map_values(|c: Rgba32F| c.r);
    let green = colors.map_values(|c: Rgba32F| c.g);
    let blue = colors.map_values(|c: Rgba32F| c.b);
    assert(a.map_values(|c: Rgba32F| c.r) =~= green);
    assert(a.map_values(|c: Rgba32F| c.g) =~= red);
    assert(a.map_values(|c: Rgba32F| c.b) =~= blue);
    assert(b.map_values(|c: Rgba32F| c.r) =~= red);
    assert(b.map_values(|c: Rgba32F| c.g) =~= blue);
    assert(b.map_values(|c: Rgba32F| c.b) =~= green);
}

} // verus!
