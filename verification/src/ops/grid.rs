//! Sets of pixels of a rectangle, one flag per pixel.
use vstd::prelude::*;

use crate::buffer_region::{lemma_rect_slot, lemma_rect_slots_differ, rect_slot};
use crate::coord::{IVec2, Rect};
use crate::ops::region::{
    lemma_fits_rect, neighbours, neighbours_are_reached, next_to, reached,
    reached_is_the_least_closed_set, seeds_are_reached,
};

verus! {

/// A set of pixels of a rectangle.
pub struct Grid {
    rect: Rect,
    cells: Vec<bool>,
}

/// The place of a pixel in the row-major pixels of a rectangle.
pub fn slot_in(rect: Rect, p: IVec2) -> (i: usize)
    requires
        rect.w * rect.h <= u32::MAX,
        rect.has(p.x as int, p.y as int),
    ensures
        i == rect_slot(rect, p.x as int, p.y as int),
        i < rect.w * rect.h,
{
    proof {
        lemma_rect_slot(rect, p.x as int, p.y as int);
    }
    let dx: i64 = p.x as i64 - rect.x as i64;
    let dy: i64 = p.y as i64 - rect.y as i64;
    let w: i64 = rect.w as i64;
    assert(0 <= dy * w <= u32::MAX) by (nonlinear_arith)
        requires
            0 <= dy,
            0 <= w,
            dy * w + dx < rect.w * rect.h,
            0 <= dx,
            rect.w * rect.h <= u32::MAX,
    ;
    (dy * w + dx) as usize
}

impl Grid {
    /// There is one flag per pixel.
    pub closed spec fn wf(&self) -> bool {
        &&& self.rect.w * self.rect.h <= u32::MAX
        &&& self.cells@.len() == self.rect.w * self.rect.h
    }

    /// The rectangle.
    pub closed spec fn area(&self) -> Rect {
        self.rect
    }

    /// Pixel `p` is in the set.
    pub closed spec fn on(&self, p: IVec2) -> bool {
        self.rect.has(p.x as int, p.y as int) && self.cells@[rect_slot(
            self.rect,
            p.x as int,
            p.y as int,
        )]
    }

    /// The pixels of the set lie in the rectangle.
    pub proof fn lemma_inside(&self, p: IVec2)
        ensures
            self.on(p) ==> self.area().has(p.x as int, p.y as int),
    {
    }

    /// The empty set of pixels of a rectangle.
    pub fn new(rect: Rect) -> (g: Self)
        requires
            rect.w * rect.h <= u32::MAX,
        ensures
            g.wf(),
            g.area() == rect,
            forall|p: IVec2| !(#[trigger] g.on(p)),
    {
        let n: usize = rect.area() as usize;
        let cells: Vec<bool> = vec![false; n];
        let g = Grid { rect, cells };
        proof {
            assert forall|p: IVec2| !(#[trigger] g.on(p)) by {
                if rect.has(p.x as int, p.y as int) {
                    lemma_rect_slot(rect, p.x as int, p.y as int);
                }
            }
        }
        g
    }

    /// True if a pixel is in the set.
    pub fn get(&self, p: IVec2) -> (r: bool)
        requires
            self.wf(),
        ensures
            r == self.on(p),
    {
        if self.rect.contains(p) { self.cells[slot_in(self.rect, p)] } else { false }
    }

    /// Put a pixel into the set.
    pub fn mark(&mut self, p: IVec2)
        requires
            old(self).wf(),
            old(self).area().has(p.x as int, p.y as int),
        ensures
            final(self).wf(),
            final(self).area() == old(self).area(),
            forall|q: IVec2| #[trigger] final(self).on(q) <==> old(self).on(q) || q == p,
    {
        let i: usize = slot_in(self.rect, p);
        self.cells.set(i, true);
        proof {
            assert forall|q: IVec2| #[trigger] self.on(q) <==> old(self).on(q) || q == p by {
                if self.rect.has(q.x as int, q.y as int) {
                    lemma_rect_slot(self.rect, q.x as int, q.y as int);
                    if q != p {
                        lemma_rect_slots_differ(
                            self.rect,
                            p.x as int,
                            p.y as int,
                            q.x as int,
                            q.y as int,
                        );
                    }
                }
            }
        }
    }

    /// The rectangle.
    pub fn bounds(&self) -> (r: Rect)
        ensures
            r == self.area(),
    {
        self.rect
    }
}

/// Pixel `p` of `rect` comes before `(x, y)`, row by row.
spec fn earlier_in(rect: Rect, x: int, y: int, p: IVec2) -> bool {
    rect.has(p.x as int, p.y as int) && (p.y < y || (p.y == y && p.x < x))
}

/// The pixels of a rectangle for which `f` holds.
pub(crate) fn grid_of<F: Fn(IVec2) -> bool>(
    rect: Rect,
    f: &F,
    Ghost(pred): Ghost<spec_fn(IVec2) -> bool>,
) -> (g: Grid)
    requires
        rect.w * rect.h <= u32::MAX,
        rect.right_edge() <= 0x8000_0000,
        rect.bottom_edge() <= 0x8000_0000,
        forall|p: IVec2| rect.has(p.x as int, p.y as int) ==> #[trigger] f.requires((p,)),
        forall|p: IVec2, b: bool| #[trigger] f.ensures((p,), b) ==> b == pred(p),
    ensures
        g.wf(),
        g.area() == rect,
        forall|p: IVec2| #[trigger] g.on(p) <==> rect.has(p.x as int, p.y as int) && pred(p),
{
    let mut g: Grid = Grid::new(rect);
    let mut y: i64 = rect.y as i64;
    let right: i64 = rect.right();
    let bottom: i64 = rect.bottom();
    while y < bottom
        invariant
            rect.right_edge() <= 0x8000_0000,
            rect.bottom_edge() <= 0x8000_0000,
            right == rect.right_edge(),
            bottom == rect.bottom_edge(),
            forall|p: IVec2| rect.has(p.x as int, p.y as int) ==> #[trigger] f.requires((p,)),
            forall|p: IVec2, b: bool| #[trigger] f.ensures((p,), b) ==> b == pred(p),
            rect.y <= y <= bottom,
            g.wf(),
            g.area() == rect,
            forall|p: IVec2| #[trigger]
                g.on(p) <==> earlier_in(rect, rect.x as int, y as int, p) && pred(p),
        decreases bottom - y,
    {
        let mut x: i64 = rect.x as i64;
        while x < right
            invariant
                rect.right_edge() <= 0x8000_0000,
                rect.bottom_edge() <= 0x8000_0000,
                right == rect.right_edge(),
                bottom == rect.bottom_edge(),
                forall|p: IVec2| rect.has(p.x as int, p.y as int) ==> #[trigger] f.requires((p,)),
                forall|p: IVec2, b: bool| #[trigger] f.ensures((p,), b) ==> b == pred(p),
                rect.y <= y < bottom,
                rect.x <= x <= right,
                g.wf(),
                g.area() == rect,
                forall|p: IVec2| #[trigger]
                    g.on(p) <==> earlier_in(rect, x as int, y as int, p) && pred(p),
            decreases right - x,
        {
            let p: IVec2 = IVec2::new(x as i32, y as i32);
            assert(rect.has(p.x as int, p.y as int));
            if f(p) {
                g.mark(p);
            }
            x = x + 1;
        }
        y = y + 1;
    }
    g
}

/// List the pixels of a rectangle for which `f` holds, row by row.
pub(crate) fn list_of<F: Fn(IVec2) -> bool>(
    rect: Rect,
    f: &F,
    Ghost(pred): Ghost<spec_fn(IVec2) -> bool>,
) -> (list: Vec<IVec2>)
    requires
        rect.right_edge() <= 0x8000_0000,
        rect.bottom_edge() <= 0x8000_0000,
        forall|p: IVec2| rect.has(p.x as int, p.y as int) ==> #[trigger] f.requires((p,)),
        forall|p: IVec2, b: bool| #[trigger] f.ensures((p,), b) ==> b == pred(p),
    ensures
        forall|p: IVec2| #[trigger]
            list@.contains(p) <==> rect.has(p.x as int, p.y as int) && pred(p),
{
    let mut list: Vec<IVec2> = Vec::new();
    let mut y: i64 = rect.y as i64;
    let right: i64 = rect.right();
    let bottom: i64 = rect.bottom();
    while y < bottom
        invariant
            rect.right_edge() <= 0x8000_0000,
            rect.bottom_edge() <= 0x8000_0000,
            right == rect.right_edge(),
            bottom == rect.bottom_edge(),
            forall|p: IVec2| rect.has(p.x as int, p.y as int) ==> #[trigger] f.requires((p,)),
            forall|p: IVec2, b: bool| #[trigger] f.ensures((p,), b) ==> b == pred(p),
            rect.y <= y <= bottom,
            forall|p: IVec2| #[trigger]
                list@.contains(p) <==> earlier_in(rect, rect.x as int, y as int, p) && pred(p),
        decreases bottom - y,
    {
        let mut x: i64 = rect.x as i64;
        while x < right
            invariant
                rect.right_edge() <= 0x8000_0000,
                rect.bottom_edge() <= 0x8000_0000,
                right == rect.right_edge(),
                bottom == rect.bottom_edge(),
                forall|p: IVec2| rect.has(p.x as int, p.y as int) ==> #[trigger] f.requires((p,)),
                forall|p: IVec2, b: bool| #[trigger] f.ensures((p,), b) ==> b == pred(p),
                rect.y <= y < bottom,
                rect.x <= x <= right,
                forall|p: IVec2| #[trigger]
                    list@.contains(p) <==> earlier_in(rect, x as int, y as int, p) && pred(p),
            decreases right - x,
        {
            let p: IVec2 = IVec2::new(x as i32, y as i32);
            assert(rect.has(p.x as int, p.y as int));
            let ghost before = list@;
            if f(p) {
                list.push(p);
                proof {
                    assert forall|q: IVec2| #[trigger] list@.contains(q) <==> before.contains(q)
                        || q == p by {
                        if before.contains(q) {
                            let i = choose|i: int| 0 <= i < before.len() && before[i] == q;
                            assert(list@[i] == q);
                        }
                        assert(list@[before.len() as int] == p);
                    }
                }
            }
            x = x + 1;
        }
        y = y + 1;
    }
    list
}

/// The neighbours of a pixel, with `diagonal` those across a corner too.
pub fn ring(p: IVec2, diagonal: bool) -> (r: Vec<IVec2>)
    ensures
        forall|q: IVec2| #[trigger] r@.contains(q) <==> next_to(p, q, diagonal),
{
    let mut r: Vec<IVec2> = neighbours(p);
    let ghost r0 = r@;
    if !diagonal {
        return r;
    }
    let xs: [i32; 4] = [-1, 1, -1, 1];
    let ys: [i32; 4] = [-1, -1, 1, 1];
    let mut i: usize = 0;
    while i < 4
        invariant
            i <= 4,
            xs@ == seq![-1i32, 1i32, -1i32, 1i32],
            ys@ == seq![-1i32, -1i32, 1i32, 1i32],
            forall|q: IVec2| #[trigger] r0.contains(q) <==> next_to(p, q, false),
            forall|q: IVec2| #[trigger]
                r@.contains(q) <==> r0.contains(q) || exists|k: int|
                    0 <= k < i && q.x == p.x + #[trigger] xs@[k] && q.y == p.y + ys@[k],
        decreases 4 - i,
    {
        let ghost before = r@;
        if let (Some(x), Some(y)) = (p.x.checked_add(xs[i]), p.y.checked_add(ys[i])) {
            r.push(IVec2::new(x, y));
        }
        proof {
            assert forall|q: IVec2| #[trigger] r@.contains(q) <==> r0.contains(q) || exists|k: int|
                0 <= k < i + 1 && q.x == p.x + #[trigger] xs@[k] && q.y == p.y + ys@[k] by {
                if before.contains(q) {
                    let n = choose|n: int| 0 <= n < before.len() && before[n] == q;
                    assert(r@[n] == q);
                    if !r0.contains(q) {
                        let k = choose|k: int|
                            0 <= k < i && q.x == p.x + #[trigger] xs@[k] && q.y == p.y + ys@[k];
                        assert(q.x == p.x + xs@[k]);
                    }
                }
                if r@.contains(q) && !before.contains(q) {
                    let n = choose|n: int| 0 <= n < r@.len() && r@[n] == q;
                    if n < before.len() {
                        assert(before[n] == q);
                    }
                    assert(q.x == p.x + xs@[i as int] && q.y == p.y + ys@[i as int]);
                }
                if q.x == p.x + xs@[i as int] && q.y == p.y + ys@[i as int] {
                    assert(r@[before.len() as int] == q);
                }
                if exists|k: int|
                    0 <= k < i + 1 && q.x == p.x + #[trigger] xs@[k] && q.y == p.y + ys@[k] {
                    let k = choose|k: int|
                        0 <= k < i + 1 && q.x == p.x + #[trigger] xs@[k] && q.y == p.y + ys@[k];
                    if k < i {
                        assert(q.x == p.x + xs@[k]);
                        assert(before.contains(q));
                    }
                }
            }
        }
        i = i + 1;
    }
    proof {
        assert forall|q: IVec2| #[trigger] r@.contains(q) <==> next_to(p, q, diagonal) by {
            if r@.contains(q) && !r0.contains(q) {
                let k = choose|k: int|
                    0 <= k < 4 && q.x == p.x + #[trigger] xs@[k] && q.y == p.y + ys@[k];
                assert(k == 0 || k == 1 || k == 2 || k == 3);
            }
            if next_to(p, q, true) && !next_to(p, q, false) {
                if q.x == p.x - 1 && q.y == p.y - 1 {
                    assert(q.x == p.x + xs@[0]);
                } else if q.x == p.x + 1 && q.y == p.y - 1 {
                    assert(q.x == p.x + xs@[1]);
                } else if q.x == p.x - 1 && q.y == p.y + 1 {
                    assert(q.x == p.x + xs@[2]);
                } else {
                    assert(q.x == p.x + xs@[3]);
                }
            }
        }
    }
    r
}

/// The pixels of a list.
pub open spec fn members(s: Seq<IVec2>) -> spec_fn(IVec2) -> bool {
    |p: IVec2| s.contains(p)
}

/// The pixels of a grid.
pub open spec fn flags(g: Grid) -> spec_fn(IVec2) -> bool {
    |p: IVec2| g.on(p)
}

/// Everything that passes and is a neighbour of something marked is marked.
pub open spec fn settled(pass: Grid, marked: Grid, diagonal: bool) -> bool {
    forall|a: IVec2, b: IVec2|
        marked.on(a) && #[trigger] next_to(a, b, diagonal) && pass.on(b) ==> marked.on(b)
}

/// What [`spread`] keeps while it goes: `list` holds, once each, the pixels that
/// were marked, and the neighbours of the first `n` are marked.
spec fn spreading(
    pass: Grid,
    before: Grid,
    marked: Grid,
    seeds: Seq<IVec2>,
    diagonal: bool,
    list: Seq<IVec2>,
    n: int,
) -> bool {
    &&& marked.wf()
    &&& marked.area() == pass.area()
    &&& list.no_duplicates()
    &&& forall|p: IVec2| #[trigger] marked.on(p) <==> before.on(p) || list.contains(p)
    &&& forall|p: IVec2| #[trigger]
        list.contains(p) ==> !before.on(p) && pass.on(p) && reached(
            members(seeds),
            flags(pass),
            diagonal,
            p,
        )
    &&& forall|i: int, b: IVec2|
        0 <= i < n && #[trigger] next_to(list[i], b, diagonal) && pass.on(b) ==> marked.on(b)
}

proof fn lemma_marked(
    pass: Grid,
    before: Grid,
    marked: Grid,
    then: Grid,
    seeds: Seq<IVec2>,
    diagonal: bool,
    list: Seq<IVec2>,
    n: int,
    p: IVec2,
)
    requires
        spreading(pass, before, marked, seeds, diagonal, list, n),
        0 <= n <= list.len(),
        then.wf(),
        then.area() == marked.area(),
        forall|q: IVec2| #[trigger] then.on(q) <==> marked.on(q) || q == p,
        !marked.on(p),
        pass.on(p),
        reached(members(seeds), flags(pass), diagonal, p),
    ensures
        spreading(pass, before, then, seeds, diagonal, list.push(p), n),
{
    let longer = list.push(p);
    assert forall|q: IVec2| #[trigger] longer.contains(q) <==> list.contains(q) || q == p by {
        if list.contains(q) {
            let i = choose|i: int| 0 <= i < list.len() && list[i] == q;
            assert(longer[i] == q);
        }
        if longer.contains(q) {
            let i = choose|i: int| 0 <= i < longer.len() && longer[i] == q;
            if i < list.len() {
                assert(list[i] == q);
            }
        }
        assert(longer[list.len() as int] == p);
    }
    assert(!list.contains(p));
    assert forall|i: int, b: IVec2|
        0 <= i < n && #[trigger] next_to(longer[i], b, diagonal) && pass.on(b) implies then.on(
        b,
    ) by {
        assert(longer[i] == list[i]);
        assert(next_to(list[i], b, diagonal));
    }
}

/// Mark everything that passes and is connected to one of the `seeds`, and list
/// what was not marked before.
///
/// What is marked already must be closed: nothing unmarked that passes is a
/// neighbour of it.
pub fn spread(
    pass: &Grid,
    marked: &mut Grid,
    seeds: &Vec<IVec2>,
    diagonal: bool,
) -> (list: Vec<IVec2>)
    requires
        pass.wf(),
        old(marked).wf(),
        old(marked).area() == pass.area(),
        settled(*pass, *old(marked), diagonal),
    ensures
        final(marked).wf(),
        final(marked).area() == pass.area(),
        settled(*pass, *final(marked), diagonal),
        list@.no_duplicates(),
        forall|p: IVec2| #[trigger]
            list@.contains(p) <==> !old(marked).on(p) && reached(
                members(seeds@),
                flags(*pass),
                diagonal,
                p,
            ),
        forall|p: IVec2| #[trigger]
            final(marked).on(p) <==> old(marked).on(p) || reached(
                members(seeds@),
                flags(*pass),
                diagonal,
                p,
            ),
{
    let mut list: Vec<IVec2> = Vec::new();
    let ghost before = *marked;
    let mut i: usize = 0;
    while i < seeds.len()
        invariant
            pass.wf(),
            before == *old(marked),
            i <= seeds@.len(),
            spreading(*pass, before, *marked, seeds@, diagonal, list@, 0),
            forall|k: int|
                0 <= k < i && pass.on(#[trigger] seeds@[k]) ==> marked.on(seeds@[k]),
        decreases seeds@.len() - i,
    {
        let p: IVec2 = seeds[i];
        if pass.get(p) && !marked.get(p) {
            let ghost m1 = *marked;
            proof {
                assert(seeds@.contains(p));
                seeds_are_reached(members(seeds@), flags(*pass), diagonal, p);
                pass.lemma_inside(p);
            }
            marked.mark(p);
            proof {
                lemma_marked(*pass, before, m1, *marked, seeds@, diagonal, list@, 0, p);
            }
            list.push(p);
        }
        i = i + 1;
    }
    let mut n: usize = 0;
    let ghost area = pass.area();
    while n < list.len()
        invariant
            pass.wf(),
            before == *old(marked),
            area == pass.area(),
            n <= list@.len(),
            n <= area.w * area.h,
            spreading(*pass, before, *marked, seeds@, diagonal, list@, n as int),
            forall|k: int|
                0 <= k < seeds@.len() && pass.on(#[trigger] seeds@[k]) ==> marked.on(seeds@[k]),
        decreases area.w * area.h - n,
    {
        let a: IVec2 = list[n];
        proof {
            assert(list@.contains(a));
            assert forall|k: int| 0 <= k < list@.len() implies area.has(
                (#[trigger] list@[k]).x as int,
                list@[k].y as int,
            ) by {
                assert(list@.contains(list@[k]));
                pass.lemma_inside(list@[k]);
            }
            lemma_fits_rect(list@, area);
        }
        let near: Vec<IVec2> = ring(a, diagonal);
        let mut j: usize = 0;
        while j < near.len()
            invariant
                pass.wf(),
                n < list@.len(),
                a == list@[n as int],
                j <= near@.len(),
                forall|q: IVec2| #[trigger] near@.contains(q) <==> next_to(a, q, diagonal),
                spreading(*pass, before, *marked, seeds@, diagonal, list@, n as int),
                forall|k: int|
                    0 <= k < seeds@.len() && pass.on(#[trigger] seeds@[k]) ==> marked.on(
                        seeds@[k],
                    ),
                forall|k: int|
                    0 <= k < j && pass.on(#[trigger] near@[k]) ==> marked.on(near@[k]),
            decreases near@.len() - j,
        {
            let b: IVec2 = near[j];
            if pass.get(b) && !marked.get(b) {
                let ghost m1 = *marked;
                let ghost l1 = list@;
                proof {
                    assert(near@.contains(b));
                    assert(list@.contains(a));
                    neighbours_are_reached(members(seeds@), flags(*pass), diagonal, a, b);
                    pass.lemma_inside(b);
                }
                marked.mark(b);
                proof {
                    lemma_marked(*pass, before, m1, *marked, seeds@, diagonal, l1, n as int, b);
                }
                list.push(b);
            }
            j = j + 1;
        }
        proof {
            assert forall|k: int, b: IVec2|
                0 <= k < n + 1 && #[trigger] next_to(list@[k], b, diagonal) && pass.on(
                    b,
                ) implies marked.on(b) by {
                if k == n {
                    assert(near@.contains(b));
                    let q = choose|q: int| 0 <= q < near@.len() && near@[q] == b;
                    assert(pass.on(near@[q]));
                }
            }
        }
        n = n + 1;
    }
    proof {
        assert forall|a: IVec2, b: IVec2|
            marked.on(a) && #[trigger] next_to(a, b, diagonal) && pass.on(b) implies marked.on(
            b,
        ) by {
            if !before.on(a) {
                assert(list@.contains(a));
                let k = choose|k: int| 0 <= k < list@.len() && list@[k] == a;
                assert(next_to(list@[k], b, diagonal));
            } else {
                assert(before.on(b));
            }
        }
        let s = flags(*marked);
        let from = members(seeds@);
        let inside = flags(*pass);
        assert forall|p: IVec2| from(p) && #[trigger] inside(p) implies s(p) by {
            let k = choose|k: int| 0 <= k < seeds@.len() && seeds@[k] == p;
            assert(pass.on(seeds@[k]));
        }
        assert forall|a: IVec2, b: IVec2|
            s(a) && #[trigger] next_to(a, b, diagonal) && inside(b) implies s(b) by {}
        assert forall|p: IVec2| reached(from, inside, diagonal, p) implies #[trigger] marked.on(
            p,
        ) by {
            reached_is_the_least_closed_set(from, inside, diagonal, s, p);
        }
        assert forall|p: IVec2| #[trigger] list@.contains(p) <==> !before.on(p) && reached(
            from,
            inside,
            diagonal,
            p,
        ) by {
            if reached(from, inside, diagonal, p) {
                assert(marked.on(p));
            }
        }
    }
    list
}

} // verus!
