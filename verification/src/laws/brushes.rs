//! Brushes.
use vstd::prelude::*;

use vstd::arithmetic::power2::lemma2_to64;

use crate::arith::{
    difference, power, product, quotient, root, sum, whole_above, whole_below, Arith,
};
use crate::brush::{BrushKernel, BrushSettings, Dab, PaintMode};
use crate::commands::transform::{I32_END, I32_LOW};
use crate::coord::{IVec2, Vec2};
use crate::exact::{
    adding_cancels, differences_are_unique, exact, nothing_absorbs, quotients_are_unique, rounding,
    spreads, sums, two,
};
use crate::float_bits::{
    at_least_zero, at_most, clamped, larger, less, nan, number_of, number_of_i32, unit, zero,
    F_HALF, F_ONE, F_TWO, F_ZERO,
};
use crate::float_kernel::{step_of, tip_curve, FloatKernel, LEAST_SOFTNESS};
use crate::kernel::Kernel;
use crate::laws::gradients::{apart, placed};
use crate::laws::hues::halving;
use crate::ops::gradient::middle_of;
use crate::ops::matte_math::MatteKernel;
use crate::pixel::Rgba32F;

verus! {

/// A soft tip is full in its center and nothing at its edge. Without hardness it fades
/// in proportion. What is missing of it, raised by how soft it is, says how far out it
/// is.
pub proof fn tips_fade_by_their_softness<M: Arith>(m: &M, d: Set<u32>, t: u32, hardness: u32)
    requires
        exact(m, d),
        d.contains(t) && unit(t) == t && d.contains(hardness),
        unit(difference(m, F_ONE, t)) == difference(m, F_ONE, t),
        ({
            let e = quotient(m, F_ONE, larger(difference(m, F_ONE, hardness), LEAST_SOFTNESS));
            power(m, F_ZERO, e) == F_ZERO && power(m, F_ONE, e) == F_ONE
        }),
        power(m, t, F_ONE) == t,
    ensures
        tip_curve(m, F_ZERO, hardness) == F_ONE,
        tip_curve(m, F_ONE, hardness) == F_ZERO,
        tip_curve(m, t, F_ZERO) == difference(m, F_ONE, t),
        ({
            let soft = difference(m, F_ONE, hardness);
            let far = power(m, t, quotient(m, F_ONE, soft));
            &&& less(LEAST_SOFTNESS, soft) && d.contains(far) && unit(difference(m, F_ONE, far))
                == difference(m, F_ONE, far) && power(m, far, soft) == t ==> power(
                m,
                difference(m, F_ONE, tip_curve(m, t, hardness)),
                soft,
            ) == t
        }),
{
    adding_cancels(m, d, F_ONE, F_ONE);
    adding_cancels(m, d, F_ONE, F_ZERO);
    two(m, d, F_ONE, F_ONE);
    quotients_are_unique(m, d, F_ONE, F_ONE, F_ONE);
    let soft = difference(m, F_ONE, hardness);
    let far = power(m, t, quotient(m, F_ONE, soft));
    if d.contains(far) {
        two(m, d, F_ONE, far);
        differences_are_unique(m, d, F_ONE, difference(m, F_ONE, far), far);
    }
}

/// Stamps are at least a pixel apart, and else as far as the spacing's share of the
/// size.
pub proof fn steps_are_at_least_one<M: Arith>(m: &M, size: u32, spacing: u32)
    ensures
        ({
            let share = product(m, at_least_zero(size), clamped(spacing, F_ZERO, F_ONE));
            &&& at_most(F_ONE, step_of(m, size, spacing))
            &&& at_most(F_ONE, share) ==> step_of(m, size, spacing) == share
            &&& !at_most(F_ONE, share) ==> step_of(m, size, spacing) == F_ONE
        }),
{
}

/// A pixel is as far from the center of a stamp as its middle is.
pub proof fn stamps_measure_from_pixel_middles<M: Arith>(k: &FloatKernel<M>, p: IVec2, center: Vec2)
    requires
        ({
            let sq = apart(&k.math, center, middle_of(&k.math, p));
            product(&k.math, root(&k.math, sq), root(&k.math, sq)) == sq
        }),
    ensures
        product(&k.math, k.distance_of(p, center), k.distance_of(p, center)) == apart(
            &k.math,
            center,
            middle_of(&k.math, p),
        ),
{
}

/// A number that some coordinate is near to.
pub open spec fn reachable(v: u32) -> bool {
    at_most(I32_LOW, v) && less(v, I32_END)
}

/// The box around a stamp reaches its radius to every side, where rounding down and up
/// do what they say.
pub proof fn boxes_reach_the_radius<M: Arith>(k: &FloatKernel<M>, center: Vec2, radius: u32)
    requires
        forall|v: u32|
            reachable(v) ==> at_most(number_of_i32(#[trigger] whole_below(&k.math, v)), v),
        forall|v: u32|
            reachable(v) ==> at_most(v, number_of_i32(#[trigger] whole_above(&k.math, v))),
        reachable(difference(&k.math, center.x, radius)),
        reachable(difference(&k.math, center.y, radius)),
        reachable(sum(&k.math, center.x, radius)),
        reachable(sum(&k.math, center.y, radius)),
    ensures
        ({
            let (low, high) = k.corners_of(center, radius);
            &&& at_most(number_of_i32(low.x), difference(&k.math, center.x, radius))
            &&& at_most(number_of_i32(low.y), difference(&k.math, center.y, radius))
            &&& at_most(sum(&k.math, center.x, radius), number_of_i32(high.x))
            &&& at_most(sum(&k.math, center.y, radius), number_of_i32(high.y))
        }),
{
}

/// What an eraser leaves of an alpha and the share that it takes make the alpha: all
/// is left by none and nothing by a whole one.
pub proof fn erasing_takes_a_share<M: Arith>(k: &FloatKernel<M>, d: Set<u32>, a: u32, alpha: u32)
    requires
        exact(&k.math, d),
        d.contains(a) && d.contains(alpha),
    ensures
        sum(&k.math, k.faded(a, alpha), product(&k.math, a, alpha)) == a,
        k.faded(a, F_ZERO) == a,
        k.faded(a, F_ONE) == F_ZERO,
{
    let m = &k.math;
    two(m, d, F_ONE, alpha);
    two(m, d, a, F_ONE);
    spreads(m, d, a, difference(m, F_ONE, alpha), alpha);
    adding_cancels(m, d, F_ONE, F_ONE);
    nothing_absorbs(m, d, a);
}

/// A position seen from a layer, moved by the layer's place, is the position.
pub proof fn local_positions_lead_back<M: Arith>(
    k: &FloatKernel<M>,
    d: Set<u32>,
    pos: Vec2,
    offset: IVec2,
)
    requires
        exact(&k.math, d),
        placed(d, pos),
        d.contains(number_of_i32(offset.x)) && d.contains(number_of_i32(offset.y)),
    ensures
        ({
            let local = k.localized(pos, offset);
            &&& sum(&k.math, local.x, number_of_i32(offset.x)) == pos.x
            &&& sum(&k.math, local.y, number_of_i32(offset.y)) == pos.y
        }),
{
    two(&k.math, d, pos.x, number_of_i32(offset.x));
    two(&k.math, d, pos.y, number_of_i32(offset.y));
}

/// The radius of a stamp is half its width. Pressure scales the width and the opacity
/// where it is set to, from nothing to the whole, and else does nothing. The strength
/// is the flow's share of the opacity.
pub proof fn pressure_scales_stamps<M: Arith>(k: &FloatKernel<M>, d: Set<u32>, dab: Dab, p: u32)
    requires
        exact(&k.math, d),
        halving(&k.math, d),
        d.contains(at_least_zero(dab.settings.size)),
        d.contains(clamped(dab.settings.opacity, F_ZERO, F_ONE)),
        d.contains(clamped(dab.pressure, F_ZERO, F_ONE)),
        d.contains(dab.settings.flow),
    ensures
        sum(&k.math, dab.radius(k), dab.radius(k)) == dab.settings.width_for(k, dab.pressure),
        dab.settings.pressure_size ==> {
            &&& dab.settings.width_for(k, F_ONE) == at_least_zero(dab.settings.size)
            &&& dab.settings.width_for(k, F_ZERO) == F_ZERO
        },
        !dab.settings.pressure_size ==> dab.settings.width_for(k, p) == dab.settings.width_for(
            k,
            F_ONE,
        ),
        dab.settings.pressure_opacity ==> {
            &&& dab.settings.opacity_for(k, F_ONE) == clamped(dab.settings.opacity, F_ZERO, F_ONE)
            &&& dab.settings.opacity_for(k, F_ZERO) == F_ZERO
        },
        !dab.settings.pressure_opacity ==> dab.settings.opacity_for(k, p)
            == dab.settings.opacity_for(k, F_ONE),
        dab.settings.flow == F_ONE ==> dab.strength(k) == dab.settings.opacity_for(k, dab.pressure),
        dab.settings.flow == F_ZERO ==> dab.strength(k) == F_ZERO,
{
    let m = &k.math;
    let size = at_least_zero(dab.settings.size);
    let most = clamped(dab.settings.opacity, F_ZERO, F_ONE);
    let press = clamped(dab.pressure, F_ZERO, F_ONE);
    two(m, d, size, press);
    two(m, d, most, press);
    two(m, d, size, F_ONE);
    two(m, d, most, F_ONE);
    nothing_absorbs(m, d, size);
    nothing_absorbs(m, d, most);
    let width = dab.settings.width_for(k, dab.pressure);
    // width half + width half = width (half + half)
    two(m, d, width, F_HALF);
    spreads(m, d, width, F_HALF, F_HALF);
    spreads(m, d, F_HALF, F_ONE, F_ONE);
    two(m, d, F_HALF, F_ONE);
    two(m, d, F_TWO, F_HALF);
    two(m, d, width, F_ONE);
    let opacity = dab.settings.opacity_for(k, dab.pressure);
    two(m, d, opacity, F_ONE);
    nothing_absorbs(m, d, opacity);
}

/// The alpha of a stamp in its very center is its strength, of the color's alpha where
/// it paints. A pixel at its radius or beyond is left as it was.
pub proof fn stamps_are_strongest_in_their_center<M: Arith>(
    k: &FloatKernel<M>,
    d: Set<u32>,
    dab: Dab,
    p: IVec2,
    was: Rgba32F,
)
    requires
        exact(&k.math, d),
        d.contains(dab.strength(k)) && d.contains(dab.color.a),
        d.contains(dab.radius(k)) && less(F_ZERO, dab.radius(k)),
    ensures
        k.distance_of(p, dab.center) == F_ZERO ==> ({
            let a = if dab.mode == PaintMode::Brush {
                product(&k.math, dab.strength(k), dab.color.a)
            } else {
                dab.strength(k)
            };
            dab.alpha_at(k, k, p) == if at_most(a, F_ZERO) { None::<u32> } else { Some(a) }
        }),
        at_most(dab.radius(k), k.distance_of(p, dab.center)) ==> dab.stamped(k, k, p, was) == was,
{
    let m = &k.math;
    let (s, r) = (dab.strength(k), dab.radius(k));
    two(m, d, s, s);
    nothing_absorbs(m, d, r);
    quotients_are_unique(m, d, F_ZERO, r, F_ZERO);
    two(m, d, s, dab.color.a);
}

/// Brightness adds the channels up, whichever is which, and a matte's band is one wide
/// without softness.
pub proof fn brightness_adds_up<M: Arith>(k: &FloatKernel<M>, d: Set<u32>, c: Rgba32F, x: u32)
    requires
        exact(&k.math, d),
        d.contains(c.r) && d.contains(c.g) && d.contains(c.b) && d.contains(x),
    ensures
        k.brightness(c) == k.brightness(Rgba32F { r: c.g, g: c.r, ..c }),
        k.brightness(c) == k.brightness(Rgba32F { g: c.b, b: c.g, ..c }),
        k.brightness(Rgba32F { b: sum(&k.math, c.b, x), ..c }) == sum(&k.math, k.brightness(c), x),
        k.brightness(Rgba32F { r: x, g: F_ZERO, b: F_ZERO, a: c.a }) == x,
{
    let m = &k.math;
    sums(m, d, c.r, c.g, c.b);
    two(m, d, c.r, c.g);
    sums(m, d, sum(m, c.r, c.g), c.b, x);
    two(m, d, x, F_ZERO);
}

/// Settings are brought into range and sensible ones kept: each by itself, from zero on
/// or between zero and one.
pub proof fn sensible_settings_are_kept(s: BrushSettings)
    requires
        !nan(s.size) && !nan(s.hardness) && !nan(s.opacity) && !nan(s.flow) && !nan(s.spacing),
    ensures
        s.sane().sane() == s.sane(),
        at_most(F_ZERO, s.sane().size),
        unit(s.sane().hardness) == s.sane().hardness && unit(s.sane().opacity) == s.sane().opacity,
        unit(s.sane().flow) == s.sane().flow && unit(s.sane().spacing) == s.sane().spacing,
        s.sane().hardness == unit(s.hardness) && s.sane().opacity == unit(s.opacity),
        s.sane().flow == unit(s.flow) && s.sane().spacing == unit(s.spacing),
        less(F_ZERO, s.size) ==> s.sane().size == s.size,
        s.sane().pressure_size == s.pressure_size,
        s.sane().pressure_opacity == s.pressure_opacity,
{
}

/// What reaches a share is reached by more, the whole of a whole is everything, and
/// without softness the band of a matte is one pixel wide.
pub proof fn shares_and_bands_have_ends<M: Arith>(
    k: &FloatKernel<M>,
    n: usize,
    more: usize,
    of: usize,
    share: u32,
)
    requires
        rounding(&k.math),
    ensures
        k.is_share(n, of, share) && at_most(
            number_of(n as nat) as u32,
            number_of(more as nat) as u32,
        ) ==> k.is_share(more, of, share),
        !nan(number_of(of as nat) as u32) ==> k.is_share(of, of, F_ONE),
        k.band_of(F_ZERO) == 1,
{
    assert(zero(product(&k.math, F_ZERO, F_TWO)));
    assert(at_least_zero(F_ZERO) == F_ZERO);
    lemma2_to64();
}

} // verus!
