//! Recognizing a checkerboard.
use vstd::prelude::*;

use vstd::arithmetic::div_mod::{lemma_div_pos_is_pos, lemma_fundamental_div_mod, lemma_mod_bound};

use crate::buffer::pixel_at;
use crate::coord::{IVec2, Rect};
use crate::float_bits::at_most;
use crate::laws::mattes::rings_go_round;
use crate::ops::matte::on_edge;
use crate::ops::matte_key::{
    agreeing, border, changes, checker_of, class_of, even_cell, gaps, is_mode, left_classes,
    most_frequent, readable, ring_at, top_classes, MatteKey,
};
use crate::ops::matte_math::MatteKernel;
use crate::pixel::{sanitized, Rgba32F};

verus! {

/// The gaps of an ascending sequence lead from each entry to the next.
pub proof fn gaps_lead_on(tr: Seq<usize>, i: int)
    requires
        0 <= i < tr.len() - 1,
        tr[i] <= tr[i + 1],
    ensures
        gaps(tr).len() == tr.len() - 1,
        tr[i] + gaps(tr)[i] == tr[i + 1],
{
}

/// The pixels of a rectangle are a checkerboard of cells `t` wide from its corner on.
pub open spec fn checkered(
    m: Map<(i32, i32), Seq<Rgba32F>>,
    r: Rect,
    t: int,
    c_a: Rgba32F,
    c_b: Rgba32F,
) -> bool {
    forall|p: IVec2|
        r.has(p.x as int, p.y as int) ==> sanitized(#[trigger] pixel_at(m, p)) == if even_cell(
            IVec2 { x: r.x, y: r.y },
            t,
            p,
        ) {
            c_a
        } else {
            c_b
        }
}

/// The multiples of `t` from `t` on, `k` of them.
pub open spec fn multiples(t: usize, k: nat) -> Seq<usize> {
    Seq::new(k, |j: int| ((j + 1) * t) as usize)
}

proof fn lemma_next_multiple(n: int, t: int)
    requires
        n >= 1,
        t >= 1,
    ensures
        n % t == 0 ==> n / t == (n - 1) / t + 1 && (n / t) * t == n,
        n % t != 0 ==> n / t == (n - 1) / t,
        (n - 1) / t >= 0,
{
    lemma_fundamental_div_mod(n, t);
    lemma_fundamental_div_mod(n - 1, t);
    lemma_mod_bound(n, t);
    lemma_mod_bound(n - 1, t);
    lemma_div_pos_is_pos(n - 1, t);
    let (q, s) = (n / t, n % t);
    let (u, v) = ((n - 1) / t, (n - 1) % t);
    assert(q * t == t * q) by (nonlinear_arith);
    if s == 0 {
        assert(u == q - 1) by (nonlinear_arith)
            requires
                n == t * q + s,
                n - 1 == t * u + v,
                s == 0,
                0 <= v < t,
                t >= 1,
        ;
    } else {
        assert(u == q) by (nonlinear_arith)
            requires
                n == t * q + s,
                n - 1 == t * u + v,
                0 < s < t,
                0 <= v < t,
        ;
    }
}

/// A row of cells changes where each cell after the first begins.
proof fn lemma_cells_change(s: Seq<usize>, t: usize, n: int)
    requires
        1 <= n <= s.len() <= usize::MAX,
        t >= 1,
        forall|i: int| 0 <= i < s.len() ==> #[trigger] s[i] == (i / t as int) % 2,
    ensures
        changes(s, n) == multiples(t, ((n - 1) / t as int) as nat),
    decreases n,
{
    let w = t as int;
    if n == 1 {
        assert(0int / w == 0) by (nonlinear_arith)
            requires
                w >= 1,
        ;
        assert(changes(s, n) =~= multiples(t, 0));
    } else {
        lemma_cells_change(s, t, n - 1);
        lemma_next_multiple(n - 1, w);
        let (k, j) = ((n - 1) / w, (n - 2) / w);
        assert(s[n - 1] == k % 2 && s[n - 2] == j % 2);
        if (n - 1) % w == 0 {
            assert(multiples(t, j as nat).push((n - 1) as usize) =~= multiples(t, k as nat));
        }
    }
}

proof fn lemma_one_gap(t: usize, k: nat)
    requires
        k * t <= usize::MAX,
    ensures
        forall|i: int| 0 <= i < gaps(multiples(t, k)).len() ==> #[trigger] gaps(multiples(t, k))[i]
            == t,
{
    let tr = multiples(t, k);
    assert forall|i: int| 0 <= i < gaps(tr).len() implies #[trigger] gaps(tr)[i] == t by {
        assert((i + 2) * t == (i + 1) * t + t) by (nonlinear_arith);
        assert((i + 2) * t <= k * t) by (nonlinear_arith)
            requires
                i + 2 <= k,
                t >= 0,
        ;
        assert(0 <= (i + 1) * t) by (nonlinear_arith)
            requires
                i >= 0,
                t >= 0,
        ;
    }
}

proof fn lemma_only_value(values: Seq<usize>, t: usize)
    requires
        values.len() > 0,
        forall|i: int| 0 <= i < values.len() ==> #[trigger] values[i] == t,
    ensures
        most_frequent(values) == Some(t),
{
    assert(values[0] == t);
    assert(values.contains(t));
    assert(is_mode(values, t));
    let v = choose|v: usize| is_mode(values, v);
    assert(is_mode(values, v));
    assert(values.contains(v));
}

/// A cell further in both directions the colors are the same.
proof fn lemma_same_cells(r: Rect, t: int, p: IVec2)
    requires
        t >= 1,
        -0x8000_0000 <= r.x + t <= 0x7fff_ffff,
        -0x8000_0000 <= r.y + t <= 0x7fff_ffff,
    ensures
        even_cell(IVec2 { x: (r.x + t) as i32, y: (r.y + t) as i32 }, t, p) == even_cell(
            IVec2 { x: r.x, y: r.y },
            t,
            p,
        ),
{
    let (x, y) = (p.x - r.x, p.y - r.y);
    assert((x - t) / t == x / t - 1) by (nonlinear_arith)
        requires
            t >= 1,
    ;
    assert((y - t) / t == y / t - 1) by (nonlinear_arith)
        requires
            t >= 1,
    ;
}

proof fn lemma_all_agree<M: MatteKernel>(
    math: &M,
    b: Seq<(IVec2, Rgba32F)>,
    origin: IVec2,
    t: int,
    c_a: Rgba32F,
    c_b: Rgba32F,
)
    requires
        forall|i: int|
            0 <= i < b.len() ==> (even_cell(origin, t, (#[trigger] b[i]).0) == (class_of(
                math,
                b[i].1,
                c_a,
                c_b,
            ) == 0)),
    ensures
        agreeing(math, b, origin, t, c_a, c_b) == b.len(),
    decreases b.len(),
{
    if b.len() > 0 {
        assert(b.last() == b[b.len() - 1]);
        assert forall|i: int| 0 <= i < b.drop_last().len() implies (even_cell(
            origin,
            t,
            (#[trigger] b.drop_last()[i]).0,
        ) == (class_of(math, b.drop_last()[i].1, c_a, c_b) == 0)) by {
            assert(b.drop_last()[i] == b[i]);
        }
        lemma_all_agree(math, b.drop_last(), origin, t, c_a, c_b);
    }
}

/// A checkerboard with more than two cells along each side is recognized from its two
/// colors: what is found predicts the color of every pixel.
pub proof fn checkerboards_are_recognized<M: MatteKernel>(
    math: &M,
    m: Map<(i32, i32), Seq<Rgba32F>>,
    r: Rect,
    t: usize,
    c_a: Rgba32F,
    c_b: Rgba32F,
)
    requires
        readable(r),
        t >= 1,
        2 * t < r.w && 2 * t < r.h,
        checkered(m, r, t as int, c_a, c_b),
        at_most(math.apart(c_a, c_a), math.apart(c_a, c_b)),
        !at_most(math.apart(c_b, c_a), math.apart(c_b, c_b)),
    ensures
        checker_of(math, m, r, c_a, c_b) matches Some(key) && forall|p: IVec2|
            r.has(p.x as int, p.y as int) ==> key.color(p) == sanitized(#[trigger] pixel_at(m, p)),
{
    let w = t as int;
    let corner = IVec2 { x: r.x, y: r.y };
    let (tc, lc) = (top_classes(math, m, r, c_a, c_b), left_classes(math, m, r, c_a, c_b));
    assert(0int / w == 0) by (nonlinear_arith)
        requires
            w >= 1,
    ;
    assert forall|i: int| 0 <= i < tc.len() implies #[trigger] tc[i] == (i / w) % 2 by {
        let p = IVec2 { x: (r.x + i) as i32, y: r.y };
        assert(r.has(p.x as int, p.y as int));
        assert(even_cell(corner, w, p) <==> (i / w) % 2 == 0);
        assert(sanitized(pixel_at(m, p)) == if even_cell(corner, w, p) { c_a } else { c_b });
        lemma_mod_bound(i / w, 2);
    }
    assert forall|i: int| 0 <= i < lc.len() implies #[trigger] lc[i] == (i / w) % 2 by {
        let p = IVec2 { x: r.x, y: (r.y + i) as i32 };
        assert(r.has(p.x as int, p.y as int));
        assert(even_cell(corner, w, p) <==> (i / w) % 2 == 0);
        assert(sanitized(pixel_at(m, p)) == if even_cell(corner, w, p) { c_a } else { c_b });
        lemma_mod_bound(i / w, 2);
    }
    lemma_cells_change(tc, t, r.w as int);
    lemma_cells_change(lc, t, r.h as int);
    let (kw, kh) = ((r.w - 1) / w, (r.h - 1) / w);
    lemma_enough(r.w - 1, w);
    lemma_enough(r.h - 1, w);
    let (top, left) = (multiples(t, kw as nat), multiples(t, kh as nat));
    lemma_one_gap(t, kw as nat);
    lemma_one_gap(t, kh as nat);
    let all = gaps(top) + gaps(left);
    assert forall|i: int| 0 <= i < all.len() implies #[trigger] all[i] == t by {
        if i < gaps(top).len() {
            assert(all[i] == gaps(top)[i]);
        } else {
            assert(all[i] == gaps(left)[i - gaps(top).len()]);
        }
    }
    lemma_only_value(all, t);
    assert(top[0] == t && left[0] == t) by {
        assert((0int + 1) * t == t) by (nonlinear_arith);
    }
    let origin = IVec2 { x: (r.x + t) as i32, y: (r.y + t) as i32 };
    let b = border(m, r);
    assert forall|i: int| 0 <= i < b.len() implies (even_cell(origin, w, (#[trigger] b[i]).0) == (
    class_of(math, b[i].1, c_a, c_b) == 0)) by {
        let p = ring_at(r, i);
        rings_go_round(r, p);
        assert(on_edge(r, p));
        lemma_same_cells(r, w, p);
        assert(b[i].1 == sanitized(pixel_at(m, p)));
    }
    lemma_all_agree(math, b, origin, w, c_a, c_b);
    let key = MatteKey::Checker { c_even: c_a, c_odd: c_b, tile: t as i64, origin };
    assert(checker_of(math, m, r, c_a, c_b) == Some(key));
    assert forall|p: IVec2| r.has(p.x as int, p.y as int) implies key.color(p) == sanitized(
        #[trigger] pixel_at(m, p),
    ) by {
        lemma_same_cells(r, w, p);
    }
}

proof fn lemma_enough(n: int, t: int)
    requires
        t >= 1,
        n >= 2 * t,
        n <= u32::MAX,
    ensures
        n / t >= 2,
        (n / t) * t <= u32::MAX,
{
    lemma_fundamental_div_mod(n, t);
    lemma_mod_bound(n, t);
    let (q, s) = (n / t, n % t);
    assert(q >= 2) by (nonlinear_arith)
        requires
            n == t * q + s,
            n >= 2 * t,
            0 <= s < t,
    ;
    assert(q * t == t * q) by (nonlinear_arith);
}

} // verus!
