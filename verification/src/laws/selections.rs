//! Selections, masks and what they take of a pixel.
use vstd::prelude::*;

use crate::arith::{difference, product, sum, Arith};
use crate::buffer::pixel_at;
use crate::compositor::masked_px;
use crate::coord::{fits_i32, IVec2, Rect};
use crate::exact::{exact, rounding, spreads, two};
use crate::float_bits::{
    at_most, complement_of_ends, complement_spec, less, nan, unit, zero, F_ONE, F_ZERO,
};
use crate::float_kernel::FloatKernel;
use crate::kernel::Kernel;
use crate::ops::extract::scaled_px;
use crate::ops::magic_wand::in_disk;
use crate::ops::mask::baked_px;
use crate::pixel::Rgba32F;
use crate::selection::{combined, is_coverage, near, SelectionMode};

verus! {

/// Adding covers what either covers, intersecting what both do, subtracting what the
/// first does and the second does not; replacing forgets the first.
pub proof fn combining_selections(a: u32, b: u32)
    requires
        is_coverage(a) && is_coverage(b),
    ensures
        ({
            let both = combined(SelectionMode::Add, a, b);
            &&& both == a || both == b
            &&& at_most(a, both) && at_most(b, both)
        }),
        ({
            let common = combined(SelectionMode::Intersect, a, b);
            &&& common == a || common == b
            &&& at_most(common, a) && at_most(common, b)
        }),
        combined(SelectionMode::Subtract, a, b) == combined(
            SelectionMode::Intersect,
            a,
            complement_spec(b),
        ),
        combined(SelectionMode::Subtract, F_ONE, F_ONE) == F_ZERO,
        combined(SelectionMode::Subtract, F_ONE, F_ZERO) == F_ONE,
        combined(SelectionMode::Subtract, F_ZERO, b) == F_ZERO || at_most(
            combined(SelectionMode::Subtract, F_ZERO, b),
            F_ZERO,
        ),
        combined(SelectionMode::Replace, a, b) == b,
{
    complement_of_ends();
}

/// What a selection takes of a pixel and what it leaves make the pixel's alpha, and
/// neither changes its color.
pub proof fn taken_and_left_make_the_pixel<M: Arith>(
    k: &FloatKernel<M>,
    d: Set<u32>,
    px: Rgba32F,
    cov: u32,
)
    requires
        exact(&k.math, d),
        d.contains(px.a) && d.contains(cov) && !nan(px.a),
        complement_spec(cov) == difference(&k.math, F_ONE, cov),
    ensures
        ({
            let (taken, left) = (scaled_px(k, px, cov), scaled_px(k, px, complement_spec(cov)));
            &&& !zero(taken.a) && !zero(left.a) ==> sum(&k.math, taken.a, left.a) == px.a
            &&& !zero(taken.a) ==> taken.r == px.r && taken.g == px.g && taken.b == px.b
            &&& !zero(left.a) ==> left.r == px.r && left.g == px.g && left.b == px.b
        }),
{
    let m = &k.math;
    two(m, d, F_ONE, cov);
    two(m, d, px.a, F_ONE);
    spreads(m, d, px.a, cov, difference(m, F_ONE, cov));
    two(m, d, cov, difference(m, F_ONE, cov));
}

/// Baking a coverage into a visible pixel leaves what a mask of that coverage shows of
/// it.
pub proof fn baking_keeps_what_a_mask_shows<M: Arith>(
    k: &FloatKernel<M>,
    m: Map<(i32, i32), Seq<Rgba32F>>,
    mask: Map<(i32, i32), Seq<Rgba32F>>,
    p: IVec2,
)
    requires
        rounding(&k.math),
        !zero(pixel_at(m, p).a) && !nan(pixel_at(m, p).a),
    ensures
        baked_px(k, pixel_at(m, p), unit(pixel_at(mask, p).r)) == masked_px(k, m, Some(mask), p),
{
    let c = unit(pixel_at(mask, p).r);
    if !less(c, F_ONE) {
        assert(c == F_ONE);
        assert(product(&k.math, pixel_at(m, p).a, F_ONE) == pixel_at(m, p).a);
    }
}

/// A disk holds its center, what is as many pixels away along an axis as its radius
/// and nothing farther, and does not care for direction.
pub proof fn disks_are_round(p: IVec2, q: IVec2, c: IVec2, r: u32)
    requires
        r <= 0x7fff_ffff,
    ensures
        in_disk(c, c, Some(r)),
        p.y == c.y ==> (in_disk(p, c, Some(r)) <==> -r <= p.x - c.x <= r),
        p.x == c.x ==> (in_disk(p, c, Some(r)) <==> -r <= p.y - c.y <= r),
        p.x - c.x == q.y - c.y && p.y - c.y == q.x - c.x ==> in_disk(p, c, Some(r)) == in_disk(
            q,
            c,
            Some(r),
        ),
        p.x - c.x == c.x - q.x && p.y - c.y == q.y - c.y ==> in_disk(p, c, Some(r)) == in_disk(
            q,
            c,
            Some(r),
        ),
        in_disk(p, c, None),
{
    let (x, y) = (p.x - c.x, p.y - c.y);
    assert(0int * 0int == 0) by (nonlinear_arith);
    assert(r * r >= 0) by (nonlinear_arith);
    assert(x * x <= r * r <==> -r <= x <= r) by (nonlinear_arith)
        requires
            r >= 0,
    ;
    assert(y * y <= r * r <==> -r <= y <= r) by (nonlinear_arith)
        requires
            r >= 0,
    ;
    let u = q.x - c.x;
    assert(u == -x ==> u * u == x * x) by (nonlinear_arith);
}

/// A rectangle moved outwards by `n` holds exactly the pixels that are within `n` rows
/// and columns of one of its own, as far as coordinates reach.
pub proof fn outset_rectangles_hold_what_is_near(r: Rect, n: int, p: IVec2)
    requires
        !r.empty(),
        0 <= n,
        fits_i32(r.x - n) && fits_i32(r.y - n),
        fits_i32(r.right_edge() + n) && fits_i32(r.bottom_edge() + n),
    ensures
        r.outset(n).has(p.x as int, p.y as int) <==> exists|q: IVec2| #[trigger]
            near(p, q, n) && r.has(q.x as int, q.y as int),
{
    if r.outset(n).has(p.x as int, p.y as int) {
        let x = if p.x < r.x {
            r.x as int
        } else if p.x >= r.right_edge() {
            r.right_edge() - 1
        } else {
            p.x as int
        };
        let y = if p.y < r.y {
            r.y as int
        } else if p.y >= r.bottom_edge() {
            r.bottom_edge() - 1
        } else {
            p.y as int
        };
        let q = IVec2 { x: x as i32, y: y as i32 };
        assert(near(p, q, n));
    }
}

/// A rectangle moved inwards by `n` holds exactly the pixels all of whose surroundings
/// within `n` rows and columns it held.
pub proof fn inset_rectangles_hold_what_is_deep(r: Rect, n: int, p: IVec2)
    requires
        !r.empty(),
        0 <= n < 0x4000_0000,
        -0x3fff_ffff <= r.x && -0x3fff_ffff <= r.y,
        r.right_edge() <= 0x3fff_ffff && r.bottom_edge() <= 0x3fff_ffff,
        -0x3fff_ffff <= p.x <= 0x3fff_ffff && -0x3fff_ffff <= p.y <= 0x3fff_ffff,
    ensures
        r.outset(-n).has(p.x as int, p.y as int) <==> forall|q: IVec2| #[trigger]
            near(p, q, n) ==> r.has(q.x as int, q.y as int),
{
    let a = IVec2 { x: (p.x - n) as i32, y: (p.y - n) as i32 };
    let b = IVec2 { x: (p.x + n) as i32, y: (p.y + n) as i32 };
    assert(near(p, a, n) && near(p, b, n));
}

} // verus!
