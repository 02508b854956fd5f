//! Filled polygons.
use vstd::prelude::*;

use crate::arith::{difference, product, quotient, sum, whole_above, Arith};
use crate::coord::IVec2;
use crate::exact::{
    adding_cancels, differences_are_unique, differences_chain, differences_spread, exact,
    nothing_absorbs, products, quotients_are_unique, spreads, squares_have_no_sign, sums, two,
};
use crate::float_bits::{at_most, less, nan, number_of_i32, F_HALF, F_ONE, F_ZERO};
use crate::laws::colors::between_two_numbers;
use crate::scanline::{
    crossing, crossings, extremes, insert_number, polygon_pixels, row_of, row_pixels, rows_before,
    span,
};

verus! {

/// An edge crosses a height that lies between its ends, and there lies on the edge: as
/// far along in x as in y. It is the same edge from the other end.
pub proof fn crossings_lie_on_their_edge<M: Arith>(m: &M, d: Set<u32>, a: IVec2, b: IVec2, yc: u32)
    requires
        exact(m, d),
        d.contains(number_of_i32(a.x)) && d.contains(number_of_i32(a.y)),
        d.contains(number_of_i32(b.x)) && d.contains(number_of_i32(b.y)),
        d.contains(yc),
    ensures
        crossing(m, a, b, yc) is Some <==> at_most(number_of_i32(a.y), yc) != at_most(
            number_of_i32(b.y),
            yc,
        ),
        crossing(m, a, b, yc) matches Some(x) ==> d.contains(x) && product(
            m,
            difference(m, x, number_of_i32(a.x)),
            difference(m, number_of_i32(b.y), number_of_i32(a.y)),
        ) == product(
            m,
            difference(m, yc, number_of_i32(a.y)),
            difference(m, number_of_i32(b.x), number_of_i32(a.x)),
        ),
        a.x == b.x ==> (crossing(m, a, b, yc) matches Some(x) ==> x == number_of_i32(a.x)),
        crossing(m, a, b, yc) == crossing(m, b, a, yc),
{
    reveal(crossing);
    let (ax, ay) = (number_of_i32(a.x), number_of_i32(a.y));
    let (bx, by) = (number_of_i32(b.x), number_of_i32(b.y));
    if at_most(ay, yc) != at_most(by, yc) {
        let (gx, gy) = (difference(m, bx, ax), difference(m, by, ay));
        let up = difference(m, yc, ay);
        two(m, d, bx, ax);
        two(m, d, by, ay);
        two(m, d, yc, ay);
        two(m, d, ay, ay);
        assert(gy != F_ZERO);
        let t = quotient(m, up, gy);
        two(m, d, up, gy);
        two(m, d, t, gx);
        two(m, d, ax, product(m, t, gx));
        adding_cancels(m, d, product(m, t, gx), ax);
        products(m, d, t, gx, gy);
        two(m, d, up, gx);
        adding_cancels(m, d, ax, ax);
        nothing_absorbs(m, d, t);
        two(m, d, ax, ax);
        // From the other end: the share is one less the share from this one.
        between_two_numbers(m, d, ax, bx, t);
        let back = difference(m, ay, by);
        let down = difference(m, yc, by);
        two(m, d, ay, by);
        two(m, d, yc, by);
        two(m, d, by, by);
        assert(back != F_ZERO);
        let n = difference(m, F_ONE, t);
        two(m, d, F_ONE, t);
        // n back = back - t back = back + up = down
        differences_spread(m, d, back, F_ONE, t);
        two(m, d, back, F_ONE);
        squares_have_no_sign(m, d, by, ay);
        lemma_turned(m, d, t, gy, back);
        two(m, d, t, back);
        two(m, d, back, t);
        two(m, d, n, back);
        differences_chain(m, d, yc, ay, by);
        two(m, d, up, back);
        let z = product(m, t, back);
        two(m, d, z, up);
        sums(m, d, down, z, up);
        two(m, d, back, z);
        sums(m, d, back, up, z);
        two(m, d, back, up);
        two(m, d, down, z);
        two(m, d, up, z);
        two(m, d, back, back);
        differences_are_unique(m, d, back, z, down);
        quotients_are_unique(m, d, down, back, n);
        two(m, d, ax, bx);
        two(m, d, n, difference(m, ax, bx));
    }
}

/// The product with the opposite is the opposite product.
proof fn lemma_turned<M: Arith>(m: &M, d: Set<u32>, t: u32, a: u32, b: u32)
    requires
        exact(m, d),
        d.contains(t) && d.contains(a) && d.contains(b),
        sum(m, a, b) == F_ZERO,
    ensures
        sum(m, product(m, t, a), product(m, t, b)) == F_ZERO,
{
    spreads(m, d, t, a, b);
    nothing_absorbs(m, d, t);
}

/// Numbers are in order, from the least.
pub open spec fn ordered(s: Seq<u32>) -> bool {
    forall|i: int, j: int| 0 <= i < j < s.len() ==> at_most(#[trigger] s[i], #[trigger] s[j])
}

/// Putting a number into its place keeps the order, and adds that number only.
pub proof fn putting_in_keeps_the_order(s: Seq<u32>, v: u32)
    requires
        ordered(s),
        forall|i: int| 0 <= i < s.len() ==> !nan(#[trigger] s[i]),
        !nan(v),
    ensures
        ordered(insert_number(s, v)),
        insert_number(s, v).to_multiset() == s.to_multiset().insert(v),
        forall|i: int|
            0 <= i < insert_number(s, v).len() ==> !nan(#[trigger] insert_number(s, v)[i]),
    decreases s.len(),
{
    broadcast use vstd::seq_lib::group_to_multiset_ensures;

    let out = insert_number(s, v);
    if s.len() == 0 || !less(v, s.last()) {
        assert forall|i: int, j: int| 0 <= i < j < out.len() implies at_most(
            #[trigger] out[i],
            #[trigger] out[j],
        ) by {
            if j == s.len() {
                if i < s.len() - 1 {
                    assert(at_most(s[i], s[s.len() - 1]));
                }
            }
        }
    } else {
        let rest = s.drop_last();
        assert forall|i: int, j: int| 0 <= i < j < rest.len() implies at_most(
            #[trigger] rest[i],
            #[trigger] rest[j],
        ) by {
            assert(at_most(s[i], s[j]));
        }
        putting_in_keeps_the_order(rest, v);
        let below = insert_number(rest, v);
        assert(s =~= rest.push(s.last()));
        assert forall|i: int| 0 <= i < below.len() implies at_most(
            #[trigger] below[i],
            s.last(),
        ) by {
            assert(below.to_multiset().count(below[i]) > 0);
            if below[i] != v {
                assert(rest.to_multiset().count(below[i]) > 0);
                assert(rest.contains(below[i]));
                let k = choose|k: int| 0 <= k < rest.len() && rest[k] == below[i];
                assert(at_most(s[k], s[s.len() - 1]));
            }
        }
    }
}

/// The four corners of an upright rectangle, in turn.
pub open spec fn rectangle(x0: i32, y0: i32, x1: i32, y1: i32) -> Seq<IVec2> {
    seq![
        IVec2 { x: x0, y: y0 },
        IVec2 { x: x1, y: y0 },
        IVec2 { x: x1, y: y1 },
        IVec2 { x: x0, y: y1 },
    ]
}

/// Integers whose numbers, and the halves between them, are not rounded.
pub open spec fn small(a: i32) -> bool {
    -0x40_0000 <= a <= 0x40_0000
}

/// Small integers become numbers in order, with the middle of a row past its own and
/// before the next, and rounding up gives an integer back.
pub open spec fn counts<M: Arith>(m: &M) -> bool {
    &&& forall|a: i32, y: i32|
        small(a) && small(y) ==> (at_most(
            #[trigger] number_of_i32(a),
            sum(m, #[trigger] number_of_i32(y), F_HALF),
        ) <==> a <= y)
    &&& forall|a: i32, b: i32|
        small(a) && small(b) ==> (less(#[trigger] number_of_i32(a), #[trigger] number_of_i32(b))
            <==> a < b)
    &&& forall|a: i32|
        small(a) ==> whole_above(m, #[trigger] number_of_i32(a)) == a && whole_above(
            m,
            difference(m, number_of_i32(a), F_ONE),
        ) == a - 1
}

/// Filling an upright rectangle fills the pixels from its left and upper edge on, up
/// to but without those at its right and lower edge.
pub proof fn rectangles_fill_their_pixels<M: Arith>(
    m: &M,
    d: Set<u32>,
    x0: i32,
    y0: i32,
    x1: i32,
    y1: i32,
    p: IVec2,
)
    requires
        exact(m, d),
        counts(m),
        forall|a: i32| small(a) ==> d.contains(#[trigger] number_of_i32(a)),
        small(x0) && small(y0) && small(x1) && small(y1),
        d.contains(F_HALF),
        x0 < x1 && y0 < y1,
    ensures
        polygon_pixels(m, rectangle(x0, y0, x1, y1)).contains(p) <==> x0 <= p.x < x1 && y0 <= p.y
            < y1,
{
    let pts = rectangle(x0, y0, x1, y1);
    assert(pts.len() == 4);
    reveal_with_fuel(extremes, 5);
    assert(extremes(pts, 4) == (x0, x1, y0, y1));
    lemma_rows(m, d, x0, y0, x1, y1, y1 + 1, p);
}

proof fn lemma_rows<M: Arith>(
    m: &M,
    d: Set<u32>,
    x0: i32,
    y0: i32,
    x1: i32,
    y1: i32,
    y: int,
    p: IVec2,
)
    requires
        exact(m, d),
        counts(m),
        forall|a: i32| small(a) ==> d.contains(#[trigger] number_of_i32(a)),
        small(x0) && small(y0) && small(x1) && small(y1),
        d.contains(F_HALF),
        x0 < x1 && y0 < y1,
        y0 <= y <= y1 + 1,
        extremes(rectangle(x0, y0, x1, y1), 4) == (x0, x1, y0, y1),
    ensures
        rows_before(m, rectangle(x0, y0, x1, y1), y).contains(p) <==> x0 <= p.x < x1 && y0 <= p.y
            < y1 && p.y < y,
    decreases y - y0,
{
    let pts = rectangle(x0, y0, x1, y1);
    if y > y0 {
        lemma_rows(m, d, x0, y0, x1, y1, y - 1, p);
        let row = (y - 1) as i32;
        lemma_row_of_rectangle(m, d, x0, y0, x1, y1, row, p);
        let (before, here) = (rows_before(m, pts, y - 1), row_of(m, pts, row));
        lemma_in_either(before, here, p);
    }
}

proof fn lemma_in_either(a: Seq<IVec2>, b: Seq<IVec2>, p: IVec2)
    ensures
        (a + b).contains(p) <==> a.contains(p) || b.contains(p),
{
    if a.contains(p) {
        let i = choose|i: int| 0 <= i < a.len() && a[i] == p;
        assert((a + b)[i] == p);
    }
    if b.contains(p) {
        let i = choose|i: int| 0 <= i < b.len() && b[i] == p;
        assert((a + b)[a.len() + i] == p);
    }
    if (a + b).contains(p) {
        let i = choose|i: int| 0 <= i < (a + b).len() && (a + b)[i] == p;
        if i < a.len() {
            assert(a[i] == p);
        } else {
            assert(b[i - a.len()] == p);
        }
    }
}

proof fn lemma_row_of_rectangle<M: Arith>(
    m: &M,
    d: Set<u32>,
    x0: i32,
    y0: i32,
    x1: i32,
    y1: i32,
    y: i32,
    p: IVec2,
)
    requires
        exact(m, d),
        counts(m),
        forall|a: i32| small(a) ==> d.contains(#[trigger] number_of_i32(a)),
        small(x0) && small(y0) && small(x1) && small(y1),
        d.contains(F_HALF),
        x0 < x1 && y0 < y1,
        y0 <= y <= y1,
        extremes(rectangle(x0, y0, x1, y1), 4) == (x0, x1, y0, y1),
    ensures
        row_of(m, rectangle(x0, y0, x1, y1), y).contains(p) <==> x0 <= p.x < x1 && p.y == y && y
            < y1,
{
    let pts = rectangle(x0, y0, x1, y1);
    let yc = sum(m, number_of_i32(y), F_HALF);
    two(m, d, number_of_i32(y), F_HALF);
    crossings_lie_on_their_edge(m, d, pts[0], pts[1], yc);
    crossings_lie_on_their_edge(m, d, pts[1], pts[2], yc);
    crossings_lie_on_their_edge(m, d, pts[2], pts[3], yc);
    crossings_lie_on_their_edge(m, d, pts[3], pts[0], yc);
    assert(at_most(number_of_i32(y0), yc));
    assert(at_most(number_of_i32(y1), yc) <==> y1 <= y);
    reveal_with_fuel(row_pixels, 2);
    let xs = crossings(m, pts, yc, 4);
    assert(pts.len() == 4);
    let (c0, c1) = (crossings(m, pts, yc, 0), crossings(m, pts, yc, 1));
    let (c2, c3) = (crossings(m, pts, yc, 2), crossings(m, pts, yc, 3));
    assert(c0 =~= Seq::empty());
    assert(c1 == c0) by {
        assert(crossing(m, pts[0], pts[1], yc) is None);
    }
    assert(c3 == c2) by {
        assert(crossing(m, pts[2], pts[3], yc) is None);
    }
    if y < y1 {
        let (a, b) = (number_of_i32(x0), number_of_i32(x1));
        assert(less(a, b));
        assert(insert_number(Seq::empty(), b) =~= seq![b]);
        assert(c2 =~= seq![b]) by {
            assert(crossing(m, pts[1], pts[2], yc) == Some(b));
        }
        assert(insert_number(seq![b], a) =~= seq![a, b]) by {
            assert(seq![b].drop_last() =~= Seq::<u32>::empty());
            assert(insert_number(Seq::empty(), a) =~= seq![a]);
        }
        assert(xs =~= seq![a, b]) by {
            assert(crossing(m, pts[3], pts[0], yc) == Some(a));
        }
        let s = span(x0, (x1 - 1) as i32, y, x0, x1);
        assert(row_of(m, pts, y) =~= s);
        if x0 <= p.x < x1 && p.y == y {
            assert(s[p.x - x0] == p);
        }
        if s.contains(p) {
            let i = choose|i: int| 0 <= i < s.len() && s[i] == p;
        }
    } else {
        assert(c2 =~= Seq::empty()) by {
            assert(crossing(m, pts[1], pts[2], yc) is None);
        }
        assert(xs =~= Seq::empty()) by {
            assert(crossing(m, pts[3], pts[0], yc) is None);
        }
        assert(row_of(m, pts, y) =~= Seq::empty());
    }
}

} // verus!
