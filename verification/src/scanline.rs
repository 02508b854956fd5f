//! Filling polygons row by row.
use vstd::prelude::*;

use crate::arith::{
    ceil, difference, minus, over, plus, product, quotient, sum, times, whole_above, Arith,
};
use crate::coord::IVec2;
use crate::float_bits::{
    at_most, from_i32, is_at_most, is_less, less, number_of_i32, F_HALF, F_ONE,
};

verus! {

/// The smallest and largest x, then y, of the points before `n`.
pub open spec fn extremes(points: Seq<IVec2>, n: int) -> (i32, i32, i32, i32)
    decreases n,
{
    if n <= 1 {
        (points[0].x, points[0].x, points[0].y, points[0].y)
    } else {
        let e = extremes(points, n - 1);
        let p = points[n - 1];
        (
            if p.x < e.0 { p.x } else { e.0 },
            if p.x > e.1 { p.x } else { e.1 },
            if p.y < e.2 { p.y } else { e.2 },
            if p.y > e.3 { p.y } else { e.3 },
        )
    }
}

/// Where the edge from `a` to `b` crosses the height `yc`, if it does.
#[verifier::opaque]
pub open spec fn crossing<M: Arith>(m: &M, a: IVec2, b: IVec2, yc: u32) -> Option<u32> {
    let (ay, by) = (number_of_i32(a.y), number_of_i32(b.y));
    let (ax, bx) = (number_of_i32(a.x), number_of_i32(b.x));
    if at_most(ay, yc) == at_most(by, yc) {
        None
    } else {
        let t = quotient(m, difference(m, yc, ay), difference(m, by, ay));
        Some(sum(m, ax, product(m, t, difference(m, bx, ax))))
    }
}

fn cross<M: Arith>(m: &M, a: IVec2, b: IVec2, yc: u32) -> (r: Option<u32>)
    requires
        m.wf(),
    ensures
        r == crossing(m, a, b, yc),
{
    proof {
        reveal(crossing);
    }
    let ay: u32 = from_i32(a.y);
    let by: u32 = from_i32(b.y);
    if is_at_most(ay, yc) == is_at_most(by, yc) {
        return None;
    }
    let t: u32 = over(m, minus(m, yc, ay), minus(m, by, ay));
    let ax: u32 = from_i32(a.x);
    Some(plus(m, ax, times(m, t, minus(m, from_i32(b.x), ax))))
}

/// A number put into a sorted sequence, after those that are not larger.
pub open spec fn insert_number(s: Seq<u32>, v: u32) -> Seq<u32>
    decreases s.len(),
{
    if s.len() == 0 || !less(v, s.last()) {
        s.push(v)
    } else {
        insert_number(s.drop_last(), v).push(s.last())
    }
}

/// Where the first `n` edges of a polygon cross the height `yc`, from left to
/// right.
pub open spec fn crossings<M: Arith>(m: &M, points: Seq<IVec2>, yc: u32, n: int) -> Seq<u32>
    decreases n,
{
    if n <= 0 {
        Seq::empty()
    } else {
        let prior = crossings(m, points, yc, n - 1);
        match crossing(m, points[n - 1], points[n % points.len() as int], yc) {
            Some(x) => insert_number(prior, x),
            None => prior,
        }
    }
}

/// The pixels of row `y` from `x0` to `x1`, at least the one at `x0`, as far as they
/// lie between `lo` and `hi`.
pub open spec fn span(x0: i32, x1: i32, y: i32, lo: i32, hi: i32) -> Seq<IVec2> {
    let last = if x1 > x0 { x1 } else { x0 };
    let a = if x0 > lo { x0 } else { lo };
    let b = if last < hi { last } else { hi };
    Seq::new(
        (if a <= b { b - a + 1 } else { 0 }) as nat,
        |i: int| IVec2 { x: (a + i) as i32, y },
    )
}

/// The pixels of row `y` between the first `n` pairs of crossings.
pub open spec fn row_pixels<M: Arith>(
    m: &M,
    xs: Seq<u32>,
    n: int,
    y: i32,
    lo: i32,
    hi: i32,
) -> Seq<IVec2>
    decreases n,
{
    if n <= 0 {
        Seq::empty()
    } else {
        row_pixels(m, xs, n - 1, y, lo, hi) + span(
            whole_above(m, xs[2 * n - 2]),
            whole_above(m, difference(m, xs[2 * n - 1], F_ONE)),
            y,
            lo,
            hi,
        )
    }
}

/// The pixels of row `y` inside a polygon.
pub open spec fn row_of<M: Arith>(m: &M, points: Seq<IVec2>, y: i32) -> Seq<IVec2> {
    let e = extremes(points, points.len() as int);
    let xs = crossings(m, points, sum(m, number_of_i32(y), F_HALF), points.len() as int);
    row_pixels(m, xs, xs.len() as int / 2, y, e.0, e.1)
}

/// The pixels inside a polygon in the rows before `y`.
pub open spec fn rows_before<M: Arith>(m: &M, points: Seq<IVec2>, y: int) -> Seq<IVec2>
    decreases y - extremes(points, points.len() as int).2,
{
    if y <= extremes(points, points.len() as int).2 {
        Seq::empty()
    } else {
        rows_before(m, points, y - 1) + row_of(m, points, (y - 1) as i32)
    }
}

/// The pixels inside a polygon by the even-odd rule, row by row.
pub open spec fn polygon_pixels<M: Arith>(m: &M, points: Seq<IVec2>) -> Seq<IVec2> {
    if points.len() < 3 {
        Seq::empty()
    } else {
        rows_before(m, points, extremes(points, points.len() as int).3 + 1)
    }
}

proof fn lemma_extremes(points: Seq<IVec2>, n: int)
    requires
        1 <= n <= points.len(),
    ensures
        extremes(points, n).0 <= extremes(points, n).1,
        extremes(points, n).2 <= extremes(points, n).3,
    decreases n,
{
    if n > 1 {
        lemma_extremes(points, n - 1);
    }
}

fn find_extremes(points: &Vec<IVec2>) -> (e: (i32, i32, i32, i32))
    requires
        points@.len() >= 1,
    ensures
        e == extremes(points@, points@.len() as int),
        e.2 <= e.3,
{
    let mut e: (i32, i32, i32, i32) = (points[0].x, points[0].x, points[0].y, points[0].y);
    let mut i: usize = 1;
    while i < points.len()
        invariant
            1 <= i <= points@.len(),
            e == extremes(points@, i as int),
        decreases points@.len() - i,
    {
        let p: IVec2 = points[i];
        e = (
            if p.x < e.0 { p.x } else { e.0 },
            if p.x > e.1 { p.x } else { e.1 },
            if p.y < e.2 { p.y } else { e.2 },
            if p.y > e.3 { p.y } else { e.3 },
        );
        i = i + 1;
    }
    proof {
        lemma_extremes(points@, points@.len() as int);
    }
    e
}

fn insert_sorted(xs: &mut Vec<u32>, v: u32)
    ensures
        final(xs)@ == insert_number(old(xs)@, v),
{
    let ghost start = xs@;
    let mut k: usize = xs.len();
    assert(start.take(start.len() as int) =~= start);
    assert(start.skip(start.len() as int) =~= Seq::empty());
    while 0 < k && is_less(v, xs[k - 1])
        invariant
            k <= xs@.len(),
            xs@ == start,
            insert_number(start, v) == insert_number(start.take(k as int), v) + start.skip(k as int),
        decreases k,
    {
        proof {
            let s = start.take(k as int);
            assert(s.drop_last() =~= start.take(k - 1));
            assert(insert_number(start.take(k - 1), v).push(s.last()) + start.skip(k as int)
                =~= insert_number(start.take(k - 1), v) + start.skip(k - 1));
        }
        k = k - 1;
    }
    proof {
        let s = start.take(k as int);
        assert(k > 0 ==> s.last() == start[k - 1]);
        assert(insert_number(s, v) == s.push(v));
        assert(start.insert(k as int, v) =~= s.push(v) + start.skip(k as int));
    }
    xs.insert(k, v);
}

fn find_crossings<M: Arith>(m: &M, points: &Vec<IVec2>, yc: u32) -> (xs: Vec<u32>)
    requires
        m.wf(),
        points@.len() >= 1,
    ensures
        xs@ == crossings(m, points@, yc, points@.len() as int),
{
    let mut xs: Vec<u32> = Vec::new();
    let mut i: usize = 0;
    while i < points.len()
        invariant
            m.wf(),
            i <= points@.len(),
            xs@ == crossings(m, points@, yc, i as int),
        decreases points@.len() - i,
    {
        let next: usize = if i + 1 == points.len() { 0 } else { i + 1 };
        assert(next == (i + 1) % points@.len() as int) by (nonlinear_arith)
            requires
                next == (if i + 1 == points@.len() { 0 } else { i + 1 }),
                0 <= i < points@.len(),
        ;
        match cross(m, points[i], points[next], yc) {
            Some(x) => {
                insert_sorted(&mut xs, x);
            },
            None => {},
        }
        i = i + 1;
    }
    xs
}

fn push_span(out: &mut Vec<IVec2>, x0: i32, x1: i32, y: i32, lo: i32, hi: i32)
    ensures
        final(out)@ == old(out)@ + span(x0, x1, y, lo, hi),
{
    let ghost start = out@;
    let last: i32 = if x1 > x0 { x1 } else { x0 };
    let a: i32 = if x0 > lo { x0 } else { lo };
    let b: i32 = if last < hi { last } else { hi };
    let ghost goal = span(x0, x1, y, lo, hi);
    let mut x: i64 = a as i64;
    while x <= b as i64
        invariant
            a <= x <= (if a <= b { b + 1 } else { a as int }),
            goal == span(x0, x1, y, lo, hi),
            goal.len() == (if a <= b { b - a + 1 } else { 0 }),
            forall|i: int| 0 <= i < goal.len() ==> goal[i] == (IVec2 { x: (a + i) as i32, y }),
            out@ == start + goal.take(x - a),
        decreases b - x + 1,
    {
        out.push(IVec2::new(x as i32, y));
        proof {
            assert(goal.take(x - a + 1) =~= goal.take(x - a).push(goal[x - a]));
        }
        x = x + 1;
    }
    assert(goal.take(x - a) =~= goal);
}

fn push_row<M: Arith>(m: &M, points: &Vec<IVec2>, y: i32, lo: i32, hi: i32, out: &mut Vec<IVec2>)
    requires
        m.wf(),
        points@.len() >= 1,
        lo == extremes(points@, points@.len() as int).0,
        hi == extremes(points@, points@.len() as int).1,
    ensures
        final(out)@ == old(out)@ + row_of(m, points@, y),
{
    let ghost start = out@;
    let xs: Vec<u32> = find_crossings(m, points, plus(m, from_i32(y), F_HALF));
    let pairs: usize = xs.len() / 2;
    let mut i: usize = 0;
    assert(start + Seq::<IVec2>::empty() =~= start);
    while i < pairs
        invariant
            m.wf(),
            i <= pairs,
            pairs == xs@.len() / 2,
            out@ == start + row_pixels(m, xs@, i as int, y, lo, hi),
        decreases pairs - i,
    {
        let x0: i32 = ceil(m, xs[2 * i]);
        let x1: i32 = ceil(m, minus(m, xs[2 * i + 1], F_ONE));
        push_span(out, x0, x1, y, lo, hi);
        proof {
            assert(out@ =~= start + row_pixels(m, xs@, i + 1, y, lo, hi));
        }
        i = i + 1;
    }
}

/// The pixels inside a polygon by the even-odd rule, row by row.
///
/// A row is filled between the first and second place where the outline crosses
/// the middle of the row, between the third and fourth, and so on.
pub fn scanline_fill<M: Arith>(m: &M, points: &Vec<IVec2>) -> (out: Vec<IVec2>)
    requires
        m.wf(),
    ensures
        out@ == polygon_pixels(m, points@),
{
    let mut out: Vec<IVec2> = Vec::new();
    if points.len() < 3 {
        return out;
    }
    let e: (i32, i32, i32, i32) = find_extremes(points);
    let mut y: i64 = e.2 as i64;
    while y <= e.3 as i64
        invariant
            m.wf(),
            points@.len() >= 3,
            e == extremes(points@, points@.len() as int),
            e.2 <= y <= e.3 + 1,
            out@ == rows_before(m, points@, y as int),
        decreases e.3 - y + 1,
    {
        push_row(m, points, y as i32, e.0, e.1, &mut out);
        y = y + 1;
    }
    out
}

} // verus!
