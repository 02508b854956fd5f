//! Connected regions of pixels.
use vstd::prelude::*;

use std::collections::VecDeque;

use ahash::{AHashSet, RandomState};

use crate::coord::{IVec2, Rect};
use crate::coord_set::{coord_members, coord_set_insert, coord_set_new};

verus! {

/// `b` is a neighbour of `a`: to its side, above or below it, or with `diagonal`
/// also across a corner.
pub open spec fn next_to(a: IVec2, b: IVec2, diagonal: bool) -> bool {
    &&& a != b
    &&& -1 <= b.x - a.x <= 1
    &&& -1 <= b.y - a.y <= 1
    &&& diagonal || a.x == b.x || a.y == b.y
}

/// Every pixel of `path` is inside, and each is a neighbour of the one before.
pub open spec fn is_route(
    path: Seq<IVec2>,
    inside: spec_fn(IVec2) -> bool,
    diagonal: bool,
) -> bool {
    &&& path.len() > 0
    &&& forall|i: int| 0 <= i < path.len() ==> inside(#[trigger] path[i])
    &&& forall|i: int| 0 < i < path.len() ==> next_to(path[i - 1], #[trigger] path[i], diagonal)
}

/// A path through the inside leads from one of the `seeds` to `p`.
pub open spec fn reached(
    seeds: spec_fn(IVec2) -> bool,
    inside: spec_fn(IVec2) -> bool,
    diagonal: bool,
    p: IVec2,
) -> bool {
    exists|path: Seq<IVec2>| #[trigger]
        is_route(path, inside, diagonal) && seeds(path[0]) && path.last() == p
}

/// A seed that is inside is reached.
pub proof fn seeds_are_reached(
    seeds: spec_fn(IVec2) -> bool,
    inside: spec_fn(IVec2) -> bool,
    diagonal: bool,
    p: IVec2,
)
    requires
        seeds(p),
        inside(p),
    ensures
        reached(seeds, inside, diagonal, p),
{
    let path = seq![p];
    assert(is_route(path, inside, diagonal));
    assert(path.last() == p);
}

/// A neighbour that is inside of a pixel that is reached is reached.
pub proof fn neighbours_are_reached(
    seeds: spec_fn(IVec2) -> bool,
    inside: spec_fn(IVec2) -> bool,
    diagonal: bool,
    a: IVec2,
    b: IVec2,
)
    requires
        reached(seeds, inside, diagonal, a),
        inside(b),
        next_to(a, b, diagonal),
    ensures
        reached(seeds, inside, diagonal, b),
{
    let path = choose|path: Seq<IVec2>| #[trigger]
        is_route(path, inside, diagonal) && seeds(path[0]) && path.last() == a;
    let longer = path.push(b);
    assert(is_route(longer, inside, diagonal)) by {
        assert forall|i: int| 0 < i < longer.len() implies next_to(
            longer[i - 1],
            #[trigger] longer[i],
            diagonal,
        ) by {
            if i < path.len() {
                assert(next_to(path[i - 1], path[i], diagonal));
            }
        }
    }
    assert(longer.last() == b);
}

/// What is reached lies in every set that holds the seeds and the neighbours of
/// what it holds.
pub proof fn reached_is_the_least_closed_set(
    seeds: spec_fn(IVec2) -> bool,
    inside: spec_fn(IVec2) -> bool,
    diagonal: bool,
    s: spec_fn(IVec2) -> bool,
    p: IVec2,
)
    requires
        forall|a: IVec2| seeds(a) && #[trigger] inside(a) ==> s(a),
        forall|a: IVec2, b: IVec2|
            s(a) && #[trigger] next_to(a, b, diagonal) && inside(b) ==> s(b),
        reached(seeds, inside, diagonal, p),
    ensures
        s(p),
        inside(p),
{
    let path = choose|path: Seq<IVec2>| #[trigger]
        is_route(path, inside, diagonal) && seeds(path[0]) && path.last() == p;
    lemma_along(seeds, inside, diagonal, s, path, path.len() - 1);
}

proof fn lemma_along(
    seeds: spec_fn(IVec2) -> bool,
    inside: spec_fn(IVec2) -> bool,
    diagonal: bool,
    s: spec_fn(IVec2) -> bool,
    path: Seq<IVec2>,
    i: int,
)
    requires
        forall|a: IVec2| seeds(a) && #[trigger] inside(a) ==> s(a),
        forall|a: IVec2, b: IVec2|
            s(a) && #[trigger] next_to(a, b, diagonal) && inside(b) ==> s(b),
        is_route(path, inside, diagonal),
        seeds(path[0]),
        0 <= i < path.len(),
    ensures
        s(path[i]),
        inside(path[i]),
    decreases i,
{
    assert(inside(path[i]));
    if i > 0 {
        lemma_along(seeds, inside, diagonal, s, path, i - 1);
        assert(next_to(path[i - 1], path[i], diagonal));
    }
}

/// What can be reached from a pixel that is reached is reached.
pub proof fn reached_onward(
    seeds: spec_fn(IVec2) -> bool,
    inside: spec_fn(IVec2) -> bool,
    diagonal: bool,
    a: IVec2,
    b: IVec2,
)
    requires
        reached(seeds, inside, diagonal, a),
        reached(|q: IVec2| q == a, inside, diagonal, b),
    ensures
        reached(seeds, inside, diagonal, b),
{
    let s = |q: IVec2| reached(seeds, inside, diagonal, q);
    let from = |q: IVec2| q == a;
    assert forall|x: IVec2| from(x) && #[trigger] inside(x) implies s(x) by {}
    assert forall|x: IVec2, y: IVec2|
        s(x) && #[trigger] next_to(x, y, diagonal) && inside(y) implies s(y) by {
        neighbours_are_reached(seeds, inside, diagonal, x, y);
    }
    reached_is_the_least_closed_set(from, inside, diagonal, s, b);
}

/// If `b` can be reached from `a` then `a` can be reached from `b`.
pub proof fn reached_both_ways(
    inside: spec_fn(IVec2) -> bool,
    diagonal: bool,
    a: IVec2,
    b: IVec2,
)
    requires
        reached(|q: IVec2| q == a, inside, diagonal, b),
    ensures
        reached(|q: IVec2| q == b, inside, diagonal, a),
{
    let from = |q: IVec2| q == a;
    let s = |q: IVec2| inside(q) && reached(|x: IVec2| x == q, inside, diagonal, a);
    assert forall|x: IVec2| from(x) && #[trigger] inside(x) implies s(x) by {
        seeds_are_reached(|y: IVec2| y == x, inside, diagonal, x);
    }
    assert forall|x: IVec2, y: IVec2|
        s(x) && #[trigger] next_to(x, y, diagonal) && inside(y) implies s(y) by {
        let home = |z: IVec2| z == y;
        seeds_are_reached(home, inside, diagonal, y);
        assert(next_to(y, x, diagonal));
        neighbours_are_reached(home, inside, diagonal, y, x);
        reached_onward(home, inside, diagonal, x, a);
    }
    reached_is_the_least_closed_set(from, inside, diagonal, s, b);
}

/// A list of different pixels of a rectangle is no longer than the rectangle has
/// pixels.
pub proof fn lemma_fits_rect(s: Seq<IVec2>, r: Rect)
    requires
        s.no_duplicates(),
        forall|i: int| 0 <= i < s.len() ==> r.has((#[trigger] s[i]).x as int, s[i].y as int),
    ensures
        s.len() <= r.w * r.h,
{
    let f = |p: IVec2| (p.y - r.y) * r.w + (p.x - r.x);
    let t = s.map_values(f);
    let n = (r.w * r.h) as int;
    assert forall|i: int| 0 <= i < t.len() implies 0 <= #[trigger] t[i] < n by {
        let p = s[i];
        let u = p.y - r.y;
        let v = p.x - r.x;
        assert(0 <= u < r.h && 0 <= v < r.w);
        assert(0 <= u * r.w + v < r.w * r.h) by (nonlinear_arith)
            requires
                0 <= u < r.h,
                0 <= v < r.w,
        ;
    }
    assert(t.no_duplicates()) by {
        assert forall|i: int, j: int|
            0 <= i < t.len() && 0 <= j < t.len() && i != j implies t[i] != t[j] by {
            let (a, b) = (s[i], s[j]);
            assert(a != b);
            if t[i] == t[j] {
                let (u, v) = (a.y - r.y, a.x - r.x);
                let (x, y) = (b.y - r.y, b.x - r.x);
                let w = r.w as int;
                assert(0 <= v < w && 0 <= y < w);
                assert(u == x && v == y) by (nonlinear_arith)
                    requires
                        u * w + v == x * w + y,
                        0 <= v < w,
                        0 <= y < w,
                ;
            }
        }
    }
    t.unique_seq_to_set();
    assert(t.to_set().len() == t.len());
    vstd::set_lib::lemma_int_range(0, n);
    assert(t.to_set().subset_of(vstd::set_lib::set_int_range(0, n)));
    vstd::set_lib::lemma_len_subset(t.to_set(), vstd::set_lib::set_int_range(0, n));
}

/// The neighbours of a pixel to its sides, above and below it.
pub fn neighbours(p: IVec2) -> (r: Vec<IVec2>)
    ensures
        forall|q: IVec2| #[trigger] r@.contains(q) <==> next_to(p, q, false),
        r@.no_duplicates(),
{
    let mut r: Vec<IVec2> = Vec::new();
    if p.x < i32::MAX {
        r.push(IVec2::new(p.x + 1, p.y));
    }
    let ghost r1 = r@;
    if p.x > i32::MIN {
        r.push(IVec2::new(p.x - 1, p.y));
    }
    let ghost r2 = r@;
    if p.y < i32::MAX {
        r.push(IVec2::new(p.x, p.y + 1));
    }
    let ghost r3 = r@;
    if p.y > i32::MIN {
        r.push(IVec2::new(p.x, p.y - 1));
    }
    proof {
        assert forall|q: IVec2| #[trigger] r@.contains(q) <==> next_to(p, q, false) by {
            if p.x < i32::MAX {
                assert(r@[0] == IVec2 { x: (p.x + 1) as i32, y: p.y });
            }
            if p.x > i32::MIN {
                assert(r@[r1.len() as int] == IVec2 { x: (p.x - 1) as i32, y: p.y });
            }
            if p.y < i32::MAX {
                assert(r@[r2.len() as int] == IVec2 { x: p.x, y: (p.y + 1) as i32 });
            }
            if p.y > i32::MIN {
                assert(r@[r3.len() as int] == IVec2 { x: p.x, y: (p.y - 1) as i32 });
            }
            if next_to(p, q, false) {
                if q.x == p.x + 1 {
                    assert(r@[0] == q);
                } else if q.x == p.x - 1 {
                    assert(r@[r1.len() as int] == q);
                } else if q.y == p.y + 1 {
                    assert(r@[r2.len() as int] == q);
                } else {
                    assert(r@[r3.len() as int] == q);
                }
            }
        }
    }
    r
}

/// The pixels of `bounds` for which `pass` holds.
pub open spec fn within(bounds: Rect, pass: spec_fn(IVec2) -> bool) -> spec_fn(IVec2) -> bool {
    |p: IVec2| bounds.has(p.x as int, p.y as int) && pass(p)
}

/// The region of `bounds` around `seed` for which `pass` holds.
pub open spec fn region_of(
    seed: IVec2,
    bounds: Rect,
    pass: spec_fn(IVec2) -> bool,
    p: IVec2,
) -> bool {
    reached(|q: IVec2| q == seed, within(bounds, pass), false, p)
}

/// The pixels of a region lie in its bounds and pass.
pub proof fn lemma_region_passes(
    seed: IVec2,
    bounds: Rect,
    pass: spec_fn(IVec2) -> bool,
    p: IVec2,
)
    requires
        region_of(seed, bounds, pass, p),
    ensures
        bounds.has(p.x as int, p.y as int),
        pass(p),
{
    let seeds = |q: IVec2| q == seed;
    let inside = within(bounds, pass);
    reached_is_the_least_closed_set(seeds, inside, false, inside, p);
}

/// The pixels known to the search are those looked at and those queued.
spec fn known(done: Seq<IVec2>, queue: Seq<IVec2>, p: IVec2) -> bool {
    done.contains(p) || queue.contains(p)
}

/// The state of a search that has looked at the pixels `done` and is to look at
/// those in `queue`.
spec fn searching(
    seed: IVec2,
    bounds: Rect,
    pass: spec_fn(IVec2) -> bool,
    done: Seq<IVec2>,
    queue: Seq<IVec2>,
    visited: Set<(i32, i32)>,
) -> bool {
    &&& (done + queue).no_duplicates()
    &&& known(done, queue, seed)
    &&& forall|p: IVec2| #[trigger] visited.contains((p.x, p.y)) <==> known(done, queue, p)
    &&& forall|p: IVec2| #[trigger] known(done, queue, p) ==> bounds.has(p.x as int, p.y as int)
        && (p == seed || exists|q: IVec2|
        #![trigger next_to(q, p, false)]
        next_to(q, p, false) && region_of(seed, bounds, pass, q))
}

/// Every neighbour in `bounds` of a looked-at pixel that passes is known.
spec fn spread(
    bounds: Rect,
    pass: spec_fn(IVec2) -> bool,
    done: Seq<IVec2>,
    queue: Seq<IVec2>,
) -> bool {
    forall|a: IVec2, b: IVec2|
        done.contains(a) && pass(a) && #[trigger] next_to(a, b, false) && bounds.has(
            b.x as int,
            b.y as int,
        ) ==> known(done, queue, b)
}

/// The looked-at pixels that pass, in the order in which they were met.
spec fn passed(done: Seq<IVec2>, pass: spec_fn(IVec2) -> bool) -> Seq<IVec2>
    decreases done.len(),
{
    if done.len() == 0 {
        Seq::empty()
    } else if pass(done.last()) {
        passed(done.drop_last(), pass).push(done.last())
    } else {
        passed(done.drop_last(), pass)
    }
}

proof fn lemma_passed(done: Seq<IVec2>, pass: spec_fn(IVec2) -> bool)
    requires
        done.no_duplicates(),
    ensures
        passed(done, pass).no_duplicates(),
        forall|p: IVec2| #[trigger]
            passed(done, pass).contains(p) <==> done.contains(p) && pass(p),
    decreases done.len(),
{
    if done.len() > 0 {
        let less = done.drop_last();
        lemma_passed(less, pass);
        let t = passed(less, pass);
        let last = done.last();
        assert forall|p: IVec2| #[trigger] passed(done, pass).contains(p) <==> done.contains(p)
            && pass(p) by {
            assert(done.contains(p) <==> less.contains(p) || p == last) by {
                if done.contains(p) {
                    let i = choose|i: int| 0 <= i < done.len() && done[i] == p;
                    if i < less.len() {
                        assert(less[i] == p);
                    }
                }
                if less.contains(p) {
                    let i = choose|i: int| 0 <= i < less.len() && less[i] == p;
                    assert(done[i] == p);
                }
            }
            if pass(last) {
                assert(t.push(last).contains(p) <==> t.contains(p) || p == last) by {
                    if t.contains(p) {
                        let i = choose|i: int| 0 <= i < t.len() && t[i] == p;
                        assert(t.push(last)[i] == p);
                    }
                    assert(t.push(last)[t.len() as int] == last);
                }
            }
        }
        assert(!less.contains(last)) by {
            if less.contains(last) {
                let i = choose|i: int| 0 <= i < less.len() && less[i] == last;
                assert(done[i] == done[done.len() - 1]);
            }
        }
        assert(!t.contains(last));
    }
}

/// One more pixel is queued.
proof fn lemma_queued(
    seed: IVec2,
    bounds: Rect,
    pass: spec_fn(IVec2) -> bool,
    done: Seq<IVec2>,
    queue: Seq<IVec2>,
    visited: Set<(i32, i32)>,
    a: IVec2,
    b: IVec2,
)
    requires
        searching(seed, bounds, pass, done, queue, visited),
        region_of(seed, bounds, pass, a),
        next_to(a, b, false),
        bounds.has(b.x as int, b.y as int),
        !visited.contains((b.x, b.y)),
    ensures
        searching(seed, bounds, pass, done, queue.push(b), visited.insert((b.x, b.y))),
        forall|p: IVec2| known(done, queue, p) ==> #[trigger] known(done, queue.push(b), p),
        known(done, queue.push(b), b),
{
    let longer = queue.push(b);
    assert(longer[queue.len() as int] == b);
    assert forall|p: IVec2| #[trigger] known(done, longer, p) <==> known(done, queue, p) || p
        == b by {
        if queue.contains(p) {
            let i = choose|i: int| 0 <= i < queue.len() && queue[i] == p;
            assert(longer[i] == p);
        }
        if longer.contains(p) {
            let i = choose|i: int| 0 <= i < longer.len() && longer[i] == p;
            if i < queue.len() {
                assert(queue[i] == p);
            }
        }
    }
    assert(!known(done, queue, b));
    let all = done + queue;
    assert(done + longer =~= all.push(b));
    assert(!all.contains(b)) by {
        if all.contains(b) {
            let i = choose|i: int| 0 <= i < all.len() && all[i] == b;
            if i < done.len() {
                assert(done[i] == b);
            } else {
                assert(queue[i - done.len()] == b);
            }
        }
    }
    assert forall|p: IVec2| #[trigger] visited.insert((b.x, b.y)).contains((p.x, p.y)) <==> known(
        done,
        longer,
        p,
    ) by {
        assert(visited.contains((p.x, p.y)) <==> known(done, queue, p));
    }
}

/// The pixel at the front of the queue is looked at.
proof fn lemma_looked_at(
    seed: IVec2,
    bounds: Rect,
    pass: spec_fn(IVec2) -> bool,
    done: Seq<IVec2>,
    queue: Seq<IVec2>,
    visited: Set<(i32, i32)>,
)
    requires
        searching(seed, bounds, pass, done, queue, visited),
        queue.len() > 0,
    ensures
        searching(
            seed,
            bounds,
            pass,
            done.push(queue[0]),
            queue.subrange(1, queue.len() as int),
            visited,
        ),
        pass(queue[0]) ==> region_of(seed, bounds, pass, queue[0]),
        done.push(queue[0]).no_duplicates(),
        forall|p: IVec2|
            known(done, queue, p) ==> #[trigger] known(
                done.push(queue[0]),
                queue.subrange(1, queue.len() as int),
                p,
            ),
        forall|i: int|
            0 <= i <= done.len() ==> bounds.has(
                (#[trigger] done.push(queue[0])[i]).x as int,
                done.push(queue[0])[i].y as int,
            ),
{
    let p0 = queue[0];
    let d2 = done.push(p0);
    let q2 = queue.subrange(1, queue.len() as int);
    assert(d2 + q2 =~= done + queue);
    assert forall|p: IVec2| #[trigger] known(d2, q2, p) <==> known(done, queue, p) by {
        if done.contains(p) {
            let i = choose|i: int| 0 <= i < done.len() && done[i] == p;
            assert(d2[i] == p);
        }
        if queue.contains(p) {
            let i = choose|i: int| 0 <= i < queue.len() && queue[i] == p;
            if i == 0 {
                assert(d2[done.len() as int] == p);
            } else {
                assert(q2[i - 1] == p);
            }
        }
        if d2.contains(p) {
            let i = choose|i: int| 0 <= i < d2.len() && d2[i] == p;
            if i < done.len() {
                assert(done[i] == p);
            } else {
                assert(queue[0] == p);
            }
        }
        if q2.contains(p) {
            let i = choose|i: int| 0 <= i < q2.len() && q2[i] == p;
            assert(queue[i + 1] == p);
        }
    }
    assert(queue.contains(p0));
    assert(known(done, queue, p0));
    if pass(p0) {
        let seeds = |q: IVec2| q == seed;
        let inside = within(bounds, pass);
        assert(inside(p0));
        if p0 == seed {
            seeds_are_reached(seeds, inside, false, p0);
        } else {
            let q = choose|q: IVec2|
                #![trigger next_to(q, p0, false)]
                next_to(q, p0, false) && region_of(seed, bounds, pass, q);
            neighbours_are_reached(seeds, inside, false, q, p0);
        }
    }
    assert(d2.no_duplicates()) by {
        let all = done + queue;
        assert forall|i: int, j: int|
            0 <= i < d2.len() && 0 <= j < d2.len() && i != j implies d2[i] != d2[j] by {
            assert(d2[i] == all[i] && d2[j] == all[j]);
        }
    }
    assert forall|i: int| 0 <= i <= done.len() implies bounds.has(
        (#[trigger] d2[i]).x as int,
        d2[i].y as int,
    ) by {
        assert(d2.contains(d2[i]));
        assert(known(d2, q2, d2[i]));
    }
}

/// The connected region of pixels for which `f` holds around `seed`, each pixel
/// once.
pub(crate) fn flood<F: Fn(IVec2) -> bool>(
    seed: IVec2,
    bounds: Rect,
    f: &F,
    Ghost(pass): Ghost<spec_fn(IVec2) -> bool>,
) -> (out: Vec<IVec2>)
    requires
        bounds.has(seed.x as int, seed.y as int),
        forall|p: IVec2| #[trigger] f.requires((p,)),
        forall|p: IVec2, b: bool| #[trigger] f.ensures((p,), b) ==> b == pass(p),
    ensures
        out@.no_duplicates(),
        forall|p: IVec2| #[trigger] out@.contains(p) <==> region_of(seed, bounds, pass, p),
{
    let mut out: Vec<IVec2> = Vec::new();
    let mut visited: AHashSet<(i32, i32), RandomState> = coord_set_new();
    let mut queue: VecDeque<IVec2> = VecDeque::new();
    let ghost mut done: Seq<IVec2> = Seq::empty();
    let fresh: bool = coord_set_insert(&mut visited, (seed.x, seed.y));
    queue.push_back(seed);
    proof {
        assert(queue@[0] == seed);
        assert(done + queue@ =~= seq![seed]);
        assert forall|p: IVec2| known(done, queue@, p) <==> p == seed by {}
    }
    while queue.len() > 0
        invariant
            forall|p: IVec2| #[trigger] f.requires((p,)),
            forall|p: IVec2, b: bool| #[trigger] f.ensures((p,), b) ==> b == pass(p),
            searching(seed, bounds, pass, done, queue@, coord_members(visited)),
            spread(bounds, pass, done, queue@),
            out@ == passed(done, pass),
            done.len() <= bounds.w * bounds.h,
        decreases bounds.w * bounds.h - done.len(),
    {
        let ghost q0 = queue@;
        let ghost d0 = done;
        let p: IVec2 = match queue.pop_front() {
            Some(p) => p,
            None => seed,
        };
        proof {
            lemma_looked_at(seed, bounds, pass, d0, q0, coord_members(visited));
            done = d0.push(p);
            lemma_fits_rect(done, bounds);
            assert(done.drop_last() =~= d0);
        }
        if f(p) {
            out.push(p);
            let near: Vec<IVec2> = neighbours(p);
            let mut i: usize = 0;
            proof {
                assert forall|a: IVec2, b: IVec2|
                    done.contains(a) && pass(a) && a != p && #[trigger] next_to(a, b, false)
                        && bounds.has(b.x as int, b.y as int) implies known(done, queue@, b) by {
                    let j = choose|j: int| 0 <= j < done.len() && done[j] == a;
                    assert(d0[j] == a);
                    assert(d0.contains(a));
                    assert(known(d0, q0, b));
                }
            }
            while i < near.len()
                invariant
                    i <= near@.len(),
                    forall|q: IVec2| #[trigger] near@.contains(q) <==> next_to(p, q, false),
                    pass(p),
                    region_of(seed, bounds, pass, p),
                    searching(seed, bounds, pass, done, queue@, coord_members(visited)),
                    forall|a: IVec2, b: IVec2|
                        done.contains(a) && pass(a) && a != p && #[trigger] next_to(a, b, false)
                            && bounds.has(b.x as int, b.y as int) ==> known(done, queue@, b),
                    forall|j: int|
                        0 <= j < i && bounds.has(
                            (#[trigger] near@[j]).x as int,
                            near@[j].y as int,
                        ) ==> known(done, queue@, near@[j]),
                decreases near@.len() - i,
            {
                let n: IVec2 = near[i];
                assert(near@.contains(n));
                if bounds.contains(n) {
                    let ghost v1 = coord_members(visited);
                    let ghost q1 = queue@;
                    if coord_set_insert(&mut visited, (n.x, n.y)) {
                        queue.push_back(n);
                        proof {
                            lemma_queued(seed, bounds, pass, done, q1, v1, p, n);
                        }
                    } else {
                        proof {
                            assert(v1.insert((n.x, n.y)) =~= v1);
                            assert(v1.contains((n.x, n.y)));
                        }
                    }
                }
                i = i + 1;
            }
            proof {
                assert forall|a: IVec2, b: IVec2|
                    done.contains(a) && pass(a) && #[trigger] next_to(a, b, false) && bounds.has(
                        b.x as int,
                        b.y as int,
                    ) implies known(done, queue@, b) by {
                    if a == p {
                        assert(near@.contains(b));
                        let j = choose|j: int| 0 <= j < near@.len() && near@[j] == b;
                        assert(known(done, queue@, near@[j]));
                    }
                }
            }
        } else {
            proof {
                assert forall|a: IVec2, b: IVec2|
                    done.contains(a) && pass(a) && #[trigger] next_to(a, b, false) && bounds.has(
                        b.x as int,
                        b.y as int,
                    ) implies known(done, queue@, b) by {
                    let j = choose|j: int| 0 <= j < done.len() && done[j] == a;
                    assert(j < d0.len());
                    assert(d0[j] == a);
                    assert(d0.contains(a));
                    assert(known(d0, q0, b));
                }
            }
        }
    }
    proof {
        assert(done + queue@ =~= done);
        lemma_passed(done, pass);
        let seeds = |q: IVec2| q == seed;
        let inside = within(bounds, pass);
        assert forall|p: IVec2| known(done, queue@, p) <==> #[trigger] done.contains(p) by {}
        assert forall|p: IVec2| #[trigger] out@.contains(p) <==> region_of(
            seed,
            bounds,
            pass,
            p,
        ) by {
            if out@.contains(p) {
                assert(known(done, queue@, p));
                assert(inside(p));
                if p == seed {
                    seeds_are_reached(seeds, inside, false, p);
                } else {
                    let q = choose|q: IVec2|
                        #![trigger next_to(q, p, false)]
                        next_to(q, p, false) && region_of(seed, bounds, pass, q);
                    neighbours_are_reached(seeds, inside, false, q, p);
                }
            }
            if region_of(seed, bounds, pass, p) {
                let s = |q: IVec2| done.contains(q) && pass(q);
                assert forall|a: IVec2| seeds(a) && #[trigger] inside(a) implies s(a) by {
                    assert(known(done, queue@, seed));
                }
                assert forall|a: IVec2, b: IVec2|
                    s(a) && #[trigger] next_to(a, b, false) && inside(b) implies s(b) by {
                    assert(known(done, queue@, b));
                }
                reached_is_the_least_closed_set(seeds, inside, false, s, p);
            }
        }
    }
    out
}

} // verus!
