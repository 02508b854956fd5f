//! Distances of colors.
use vstd::prelude::*;

use crate::arith::{difference, product, sum, Arith};
use crate::buffer::pixel_at;
use crate::coord::IVec2;
use crate::exact::{exact, made_of, rounding, squares_have_no_sign, sums, two};
use crate::float_bits::{at_most, finite, less, nan};
use crate::float_kernel::{color_gap, FloatKernel};
use crate::ops::matte::Scene;
use crate::ops::region::is_route;
use crate::pixel::{sanitized, Rgba32F};

verus! {

/// The square of what lies between two numbers.
pub open spec fn square_between<M: Arith>(m: &M, x: u32, y: u32) -> u32 {
    product(m, difference(m, x, y), difference(m, x, y))
}

/// Colors are at least as far apart as they are in each one of red, green and blue.
pub proof fn colors_are_as_far_apart_as_each_channel<M: Arith>(m: &M, a: Rgba32F, b: Rgba32F)
    requires
        rounding(m),
        !nan(difference(m, a.r, b.r)),
        !nan(difference(m, a.g, b.g)),
        !nan(difference(m, a.b, b.b)),
    ensures
        at_most(square_between(m, a.r, b.r), color_gap(m, a, b)),
        at_most(square_between(m, a.g, b.g), color_gap(m, a, b)),
        at_most(square_between(m, a.b, b.b), color_gap(m, a, b)),
{
}

/// Colors that differ in one channel are as far apart as that channel says, and the
/// distance of any two is the sum of what each channel adds on its own.
pub proof fn each_channel_adds_its_own<M: Arith>(m: &M, a: Rgba32F, b: Rgba32F)
    requires
        rounding(m),
        finite(a.r) && finite(a.g) && finite(a.b),
        !nan(difference(m, a.r, b.r)),
        !nan(difference(m, a.g, b.g)),
        !nan(difference(m, a.b, b.b)),
    ensures
        ({
            let red = color_gap(m, a, Rgba32F { r: b.r, ..a });
            let green = color_gap(m, a, Rgba32F { g: b.g, ..a });
            let blue = color_gap(m, a, Rgba32F { b: b.b, ..a });
            &&& red == square_between(m, a.r, b.r)
            &&& green == square_between(m, a.g, b.g)
            &&& blue == square_between(m, a.b, b.b)
            &&& color_gap(m, a, b) == sum(m, sum(m, red, green), blue)
        }),
{
    assert(difference(m, a.r, a.r) == 0 && difference(m, a.g, a.g) == 0 && difference(m, a.b, a.b)
        == 0);
}

/// The distance of two colors is that of the second from the first, stays the same
/// when two channels of both are exchanged, and does not depend on the alphas.
pub proof fn channels_count_alike<M: Arith>(
    m: &M,
    d: Set<u32>,
    a: Rgba32F,
    b: Rgba32F,
    p: u32,
    q: u32,
)
    requires
        exact(m, d),
        made_of(d, a),
        made_of(d, b),
    ensures
        color_gap(m, a, b) == color_gap(m, b, a),
        color_gap(m, a, b) == color_gap(
            m,
            Rgba32F { r: a.g, g: a.r, ..a },
            Rgba32F { r: b.g, g: b.r, ..b },
        ),
        color_gap(m, a, b) == color_gap(
            m,
            Rgba32F { g: a.b, b: a.g, ..a },
            Rgba32F { g: b.b, b: b.g, ..b },
        ),
        color_gap(m, a, b) == color_gap(m, Rgba32F { a: p, ..a }, Rgba32F { a: q, ..b }),
{
    let (x, y, z) = (difference(m, a.r, b.r), difference(m, a.g, b.g), difference(m, a.b, b.b));
    two(m, d, a.r, b.r);
    two(m, d, a.g, b.g);
    two(m, d, a.b, b.b);
    two(m, d, x, x);
    two(m, d, y, y);
    two(m, d, z, z);
    squares_have_no_sign(m, d, a.r, b.r);
    squares_have_no_sign(m, d, a.g, b.g);
    squares_have_no_sign(m, d, a.b, b.b);
    sums(m, d, product(m, x, x), product(m, y, y), product(m, z, z));
    two(m, d, product(m, x, x), product(m, y, y));
}

/// A pixel that is farther from the matte than the tolerance in one of red, green and
/// blue is neither matte nor background.
pub proof fn one_channel_off_is_no_background<M: Arith>(
    k: &FloatKernel<M>,
    s: Scene,
    p: IVec2,
)
    requires
        rounding(&k.math),
        ({
            let px = sanitized(pixel_at(s.m, p));
            let c = s.key.color(p);
            let limit = product(&k.math, s.inner, s.inner);
            &&& !nan(difference(&k.math, px.r, c.r))
            &&& !nan(difference(&k.math, px.g, c.g))
            &&& !nan(difference(&k.math, px.b, c.b))
            &&& less(limit, square_between(&k.math, px.r, c.r)) || less(
                limit,
                square_between(&k.math, px.g, c.g),
            ) || less(limit, square_between(&k.math, px.b, c.b))
        }),
    ensures
        !s.is_matte(k, p),
        !s.background(k, p),
{
    let m = &k.math;
    let px = sanitized(pixel_at(s.m, p));
    let c = s.key.color(p);
    colors_are_as_far_apart_as_each_channel(m, px, c);
    assert(!s.is_matte(k, p));
    if s.background(k, p) {
        let path = choose|path: Seq<IVec2>| #[trigger]
            is_route(path, s.matte(k), false) && s.sources()(path[0]) && path.last() == p;
        assert(s.matte(k)(path[path.len() - 1]));
        assert(false);
    }
}

} // verus!
