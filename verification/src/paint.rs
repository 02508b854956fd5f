//! Writing every pixel of a rectangle.
use vstd::prelude::*;

use crate::buffer::{
    alike, key, pixel_at, set_pixel_keeps_sparse, set_pixel_then_get, sparse, with_pixel,
    TiledBuffer,
};
use crate::buffer_region::same_tile;
use crate::coord::{tile_of, IVec2};
use crate::pixel::Rgba32F;

verus! {

/// The pixels from `(x0, y0)` up to but not at `(x1, y1)`.
pub open spec fn in_area(area: (int, int, int, int), p: IVec2) -> bool {
    area.0 <= p.x < area.2 && area.1 <= p.y < area.3
}

/// `f` may write what makes `now` of the pixel `was` at `p`; where it writes
/// nothing the pixel stays.
pub open spec fn writes<F: Fn(IVec2) -> Option<Rgba32F>>(
    f: F,
    p: IVec2,
    was: Rgba32F,
    now: Rgba32F,
) -> bool {
    exists|o: Option<Rgba32F>| #[trigger]
        f.ensures((p,), o) && match o {
            Some(px) => alike(now, px),
            None => alike(now, was),
        }
}

/// Pixel `p` once the pixels of `area` before `(x, y)` were written.
spec fn written_at<F: Fn(IVec2) -> Option<Rgba32F>>(
    m0: Map<(i32, i32), Seq<Rgba32F>>,
    m: Map<(i32, i32), Seq<Rgba32F>>,
    area: (int, int, int, int),
    f: F,
    x: int,
    y: int,
    p: IVec2,
) -> bool {
    if in_area(area, p) && (p.y < y || (p.y == y && p.x < x)) {
        writes(f, p, pixel_at(m0, p), pixel_at(m, p))
    } else {
        alike(pixel_at(m, p), pixel_at(m0, p))
    }
}

spec fn written<F: Fn(IVec2) -> Option<Rgba32F>>(
    m0: Map<(i32, i32), Seq<Rgba32F>>,
    m: Map<(i32, i32), Seq<Rgba32F>>,
    area: (int, int, int, int),
    f: F,
    x: int,
    y: int,
) -> bool {
    forall|p: IVec2| #[trigger] written_at(m0, m, area, f, x, y, p)
}

/// The tiles outside of an area are left alone.
pub open spec fn tiles_kept(
    m0: Map<(i32, i32), Seq<Rgba32F>>,
    m: Map<(i32, i32), Seq<Rgba32F>>,
    area: (int, int, int, int),
) -> bool {
    forall|k: (i32, i32)|
        (forall|p: IVec2| #[trigger] in_area(area, p) ==> key(tile_of(p)) != k)
            ==> #[trigger] same_tile(m0, m, k)
}

/// Write what `f` says to every pixel from `(x0, y0)` up to but not at
/// `(x1, y1)`, as far as it has `i32` coordinates.
pub fn paint<F: Fn(IVec2) -> Option<Rgba32F>>(
    buf: &mut TiledBuffer,
    x0: i64,
    y0: i64,
    x1: i64,
    y1: i64,
    f: F,
)
    requires
        old(buf).wf(),
        forall|p: IVec2| #[trigger] f.requires((p,)),
    ensures
        final(buf).wf(),
        sparse(old(buf)@) ==> sparse(final(buf)@),
        tiles_kept(old(buf)@, final(buf)@, (x0 as int, y0 as int, x1 as int, y1 as int)),
        forall|p: IVec2|
            in_area((x0 as int, y0 as int, x1 as int, y1 as int), p) ==> writes(
                f,
                p,
                old(buf).at(p),
                #[trigger] final(buf).at(p),
            ),
        forall|p: IVec2|
            !in_area((x0 as int, y0 as int, x1 as int, y1 as int), p) ==> alike(
                #[trigger] final(buf).at(p),
                old(buf).at(p),
            ),
{
    let ghost area = (x0 as int, y0 as int, x1 as int, y1 as int);
    let ghost m0 = buf@;
    let left: i64 = if x0 < -0x8000_0000 { -0x8000_0000 } else { x0 };
    let top: i64 = if y0 < -0x8000_0000 { -0x8000_0000 } else { y0 };
    let right: i64 = if x1 > 0x8000_0000 { 0x8000_0000 } else { x1 };
    let bottom: i64 = if y1 > 0x8000_0000 { 0x8000_0000 } else { y1 };
    let mut y: i64 = top;
    assert(written(m0, buf@, area, f, left as int, y as int));
    while y < bottom
        invariant
            forall|p: IVec2| #[trigger] f.requires((p,)),
            buf.wf(),
            m0 == old(buf)@,
            sparse(m0) ==> sparse(buf@),
            tiles_kept(m0, buf@, area),
            area == (x0 as int, y0 as int, x1 as int, y1 as int),
            left == (if x0 < -0x8000_0000 { -0x8000_0000 } else { x0 as int }),
            top == (if y0 < -0x8000_0000 { -0x8000_0000 } else { y0 as int }),
            right == (if x1 > 0x8000_0000 { 0x8000_0000 } else { x1 as int }),
            bottom == (if y1 > 0x8000_0000 { 0x8000_0000 } else { y1 as int }),
            top <= y,
            y <= bottom || bottom < top,
            written(m0, buf@, area, f, left as int, y as int),
        decreases bottom - y,
    {
        let mut x: i64 = left;
        while x < right
            invariant
                forall|p: IVec2| #[trigger] f.requires((p,)),
                buf.wf(),
                m0 == old(buf)@,
                sparse(m0) ==> sparse(buf@),
                    tiles_kept(m0, buf@, area),
                area == (x0 as int, y0 as int, x1 as int, y1 as int),
                left == (if x0 < -0x8000_0000 { -0x8000_0000 } else { x0 as int }),
                top == (if y0 < -0x8000_0000 { -0x8000_0000 } else { y0 as int }),
                right == (if x1 > 0x8000_0000 { 0x8000_0000 } else { x1 as int }),
                bottom == (if y1 > 0x8000_0000 { 0x8000_0000 } else { y1 as int }),
                top <= y < bottom,
                left <= x,
                x <= right || right < left,
                written(m0, buf@, area, f, x as int, y as int),
            decreases right - x,
        {
            let p: IVec2 = IVec2::new(x as i32, y as i32);
            let o: Option<Rgba32F> = f(p);
            let ghost before = buf@;
            proof {
                buf.lemma_full();
            }
            if let Some(px) = o {
                buf.set_pixel(p, px);
                proof {
                    if sparse(before) {
                        set_pixel_keeps_sparse(before, p, px);
                    }
                    assert(in_area(area, p));
                    assert forall|k: (i32, i32)|
                        (forall|q: IVec2| #[trigger] in_area(area, q) ==> key(tile_of(q))
                            != k) implies #[trigger] same_tile(m0, buf@, k) by {
                        assert(key(tile_of(p)) != k);
                        assert(same_tile(m0, before, k));
                    }
                }
            }
            proof {
                assert(f.ensures((p,), o));
                assert forall|q: IVec2| #[trigger] written_at(
                    m0,
                    buf@,
                    area,
                    f,
                    x + 1,
                    y as int,
                    q,
                ) by {
                    if let Some(px) = o {
                        set_pixel_then_get(before, p, px, q);
                    }
                    assert(written_at(m0, before, area, f, x as int, y as int, q));
                    if q == p {
                        assert(f.ensures((q,), o));
                        assert(writes(f, q, pixel_at(m0, q), pixel_at(buf@, q)));
                    } else if in_area(area, q) && (q.y < y || (q.y == y && q.x < x)) {
                        let d = choose|d: Option<Rgba32F>| #[trigger]
                            f.ensures((q,), d) && match d {
                                Some(px) => alike(pixel_at(before, q), px),
                                None => alike(pixel_at(before, q), pixel_at(m0, q)),
                            };
                        assert(f.ensures((q,), d));
                    }
                }
            }
            x = x + 1;
        }
        assert forall|q: IVec2| #[trigger] written_at(
            m0,
            buf@,
            area,
            f,
            left as int,
            y + 1,
            q,
        ) by {
            assert(written_at(m0, buf@, area, f, x as int, y as int, q));
        }
        y = y + 1;
    }
    proof {
        assert forall|p: IVec2| in_area(area, p) implies writes(
            f,
            p,
            pixel_at(m0, p),
            #[trigger] buf.at(p),
        ) by {
            assert(written_at(m0, buf@, area, f, left as int, y as int, p));
        }
        assert forall|p: IVec2| !in_area(area, p) implies alike(
            #[trigger] buf.at(p),
            pixel_at(m0, p),
        ) by {
            assert(written_at(m0, buf@, area, f, left as int, y as int, p));
        }
    }
}

/// `f` may write what makes `now` of a pixel like `was` at `p`; where it writes
/// nothing the pixel stays.
pub open spec fn retouches<F: Fn(IVec2, Rgba32F) -> Option<Rgba32F>>(
    f: F,
    p: IVec2,
    was: Rgba32F,
    now: Rgba32F,
) -> bool {
    exists|w: Rgba32F, o: Option<Rgba32F>| #[trigger]
        f.ensures((p, w), o) && alike(w, was) && match o {
            Some(px) => alike(now, px),
            None => alike(now, was),
        }
}

spec fn retouched_at<F: Fn(IVec2, Rgba32F) -> Option<Rgba32F>>(
    m0: Map<(i32, i32), Seq<Rgba32F>>,
    m: Map<(i32, i32), Seq<Rgba32F>>,
    area: (int, int, int, int),
    f: F,
    x: int,
    y: int,
    p: IVec2,
) -> bool {
    if in_area(area, p) && (p.y < y || (p.y == y && p.x < x)) {
        retouches(f, p, pixel_at(m0, p), pixel_at(m, p))
    } else {
        alike(pixel_at(m, p), pixel_at(m0, p))
    }
}

spec fn retouched<F: Fn(IVec2, Rgba32F) -> Option<Rgba32F>>(
    m0: Map<(i32, i32), Seq<Rgba32F>>,
    m: Map<(i32, i32), Seq<Rgba32F>>,
    area: (int, int, int, int),
    f: F,
    x: int,
    y: int,
) -> bool {
    forall|p: IVec2| #[trigger] retouched_at(m0, m, area, f, x, y, p)
}

/// The tiles of `m` once `g` was asked what to write to pixel `p`.
pub open spec fn touched_up(
    m: Map<(i32, i32), Seq<Rgba32F>>,
    g: spec_fn(IVec2, Rgba32F) -> Option<Rgba32F>,
    p: IVec2,
) -> Map<(i32, i32), Seq<Rgba32F>> {
    match g(p, pixel_at(m, p)) {
        Some(px) => with_pixel(m, p, px),
        None => m,
    }
}

/// The tiles of `m` once row `y` was gone through from `x0` up to but not at `x`.
pub open spec fn row_swept(
    m: Map<(i32, i32), Seq<Rgba32F>>,
    g: spec_fn(IVec2, Rgba32F) -> Option<Rgba32F>,
    y: int,
    x0: int,
    x: int,
) -> Map<(i32, i32), Seq<Rgba32F>>
    decreases x - x0,
{
    if x <= x0 {
        m
    } else {
        touched_up(
            row_swept(m, g, y, x0, x - 1),
            g,
            IVec2 { x: (x - 1) as i32, y: y as i32 },
        )
    }
}

/// The tiles of `m` once the rows from `y0` up to but not at `y` were gone through.
pub open spec fn rows_swept(
    m: Map<(i32, i32), Seq<Rgba32F>>,
    g: spec_fn(IVec2, Rgba32F) -> Option<Rgba32F>,
    x0: int,
    x1: int,
    y0: int,
    y: int,
) -> Map<(i32, i32), Seq<Rgba32F>>
    decreases y - y0,
{
    if y <= y0 {
        m
    } else {
        row_swept(rows_swept(m, g, x0, x1, y0, y - 1), g, y - 1, x0, x1)
    }
}

/// The tiles of `m` once the pixels of an area were gone through, row by row, and
/// written as `g` says.
pub open spec fn swept(
    m: Map<(i32, i32), Seq<Rgba32F>>,
    g: spec_fn(IVec2, Rgba32F) -> Option<Rgba32F>,
    area: (int, int, int, int),
) -> Map<(i32, i32), Seq<Rgba32F>> {
    rows_swept(
        m,
        g,
        if area.0 < -0x8000_0000 { -0x8000_0000 } else { area.0 },
        if area.2 > 0x8000_0000 { 0x8000_0000 } else { area.2 },
        if area.1 < -0x8000_0000 { -0x8000_0000 } else { area.1 },
        if area.3 > 0x8000_0000 { 0x8000_0000 } else { area.3 },
    )
}

/// Write what `f` says, given the pixel as it is, to every pixel from `(x0, y0)`
/// up to but not at `(x1, y1)`, as far as it has `i32` coordinates.
pub(crate) fn retouch<F: Fn(IVec2, Rgba32F) -> Option<Rgba32F>>(
    buf: &mut TiledBuffer,
    x0: i64,
    y0: i64,
    x1: i64,
    y1: i64,
    f: F,
    Ghost(g): Ghost<spec_fn(IVec2, Rgba32F) -> Option<Rgba32F>>,
)
    requires
        old(buf).wf(),
        forall|p: IVec2, px: Rgba32F| #[trigger] f.requires((p, px)),
        forall|p: IVec2, px: Rgba32F, o: Option<Rgba32F>| #[trigger]
            f.ensures((p, px), o) ==> o == g(p, px),
    ensures
        final(buf).wf(),
        final(buf)@ == swept(old(buf)@, g, (x0 as int, y0 as int, x1 as int, y1 as int)),
        tiles_kept(old(buf)@, final(buf)@, (x0 as int, y0 as int, x1 as int, y1 as int)),
        forall|p: IVec2|
            in_area((x0 as int, y0 as int, x1 as int, y1 as int), p) ==> retouches(
                f,
                p,
                old(buf).at(p),
                #[trigger] final(buf).at(p),
            ),
        forall|p: IVec2|
            !in_area((x0 as int, y0 as int, x1 as int, y1 as int), p) ==> alike(
                #[trigger] final(buf).at(p),
                old(buf).at(p),
            ),
{
    let ghost area = (x0 as int, y0 as int, x1 as int, y1 as int);
    let ghost m0 = buf@;
    let left: i64 = if x0 < -0x8000_0000 { -0x8000_0000 } else { x0 };
    let top: i64 = if y0 < -0x8000_0000 { -0x8000_0000 } else { y0 };
    let right: i64 = if x1 > 0x8000_0000 { 0x8000_0000 } else { x1 };
    let bottom: i64 = if y1 > 0x8000_0000 { 0x8000_0000 } else { y1 };
    let mut y: i64 = top;
    assert(retouched(m0, buf@, area, f, left as int, y as int));
    while y < bottom
        invariant
            forall|p: IVec2, px: Rgba32F| #[trigger] f.requires((p, px)),
            forall|p: IVec2, px: Rgba32F, o: Option<Rgba32F>| #[trigger]
                f.ensures((p, px), o) ==> o == g(p, px),
            buf.wf(),
            buf@ == rows_swept(m0, g, left as int, right as int, top as int, y as int),
            m0 == old(buf)@,
            area == (x0 as int, y0 as int, x1 as int, y1 as int),
            left == (if x0 < -0x8000_0000 { -0x8000_0000 } else { x0 as int }),
            top == (if y0 < -0x8000_0000 { -0x8000_0000 } else { y0 as int }),
            right == (if x1 > 0x8000_0000 { 0x8000_0000 } else { x1 as int }),
            bottom == (if y1 > 0x8000_0000 { 0x8000_0000 } else { y1 as int }),
            top <= y,
            y <= bottom || bottom < top,
            bottom < top ==> y == top,
            tiles_kept(m0, buf@, area),
            retouched(m0, buf@, area, f, left as int, y as int),
        decreases bottom - y,
    {
        let mut x: i64 = left;
        let ghost above = buf@;
        while x < right
            invariant
                forall|p: IVec2, px: Rgba32F| #[trigger] f.requires((p, px)),
                forall|p: IVec2, px: Rgba32F, o: Option<Rgba32F>| #[trigger]
                    f.ensures((p, px), o) ==> o == g(p, px),
                buf.wf(),
                buf@ == row_swept(above, g, y as int, left as int, x as int),
                m0 == old(buf)@,
                area == (x0 as int, y0 as int, x1 as int, y1 as int),
                left == (if x0 < -0x8000_0000 { -0x8000_0000 } else { x0 as int }),
                top == (if y0 < -0x8000_0000 { -0x8000_0000 } else { y0 as int }),
                right == (if x1 > 0x8000_0000 { 0x8000_0000 } else { x1 as int }),
                bottom == (if y1 > 0x8000_0000 { 0x8000_0000 } else { y1 as int }),
                top <= y < bottom,
                left <= x,
                x <= right || right < left,
                right < left ==> x == left,
                tiles_kept(m0, buf@, area),
                retouched(m0, buf@, area, f, x as int, y as int),
            decreases right - x,
        {
            let p: IVec2 = IVec2::new(x as i32, y as i32);
            let w: Rgba32F = buf.get_pixel(p);
            let o: Option<Rgba32F> = f(p, w);
            let ghost before = buf@;
            proof {
                buf.lemma_full();
                assert(retouched_at(m0, before, area, f, x as int, y as int, p));
                assert(w == pixel_at(before, p));
            }
            if let Some(px) = o {
                buf.set_pixel(p, px);
                proof {
                    assert(in_area(area, p));
                    assert forall|k: (i32, i32)|
                        (forall|q: IVec2| #[trigger] in_area(area, q) ==> key(tile_of(q))
                            != k) implies #[trigger] same_tile(m0, buf@, k) by {
                        assert(key(tile_of(p)) != k);
                        assert(same_tile(m0, before, k));
                    }
                }
            }
            proof {
                assert(f.ensures((p, w), o));
                assert forall|q: IVec2| #[trigger] retouched_at(
                    m0,
                    buf@,
                    area,
                    f,
                    x + 1,
                    y as int,
                    q,
                ) by {
                    if let Some(px) = o {
                        set_pixel_then_get(before, p, px, q);
                    }
                    assert(retouched_at(m0, before, area, f, x as int, y as int, q));
                    if q == p {
                        assert(f.ensures((q, w), o));
                        assert(retouches(f, q, pixel_at(m0, q), pixel_at(buf@, q)));
                    } else if in_area(area, q) && (q.y < y || (q.y == y && q.x < x)) {
                        let (v, d) = choose|v: Rgba32F, d: Option<Rgba32F>| #[trigger]
                            f.ensures((q, v), d) && alike(v, pixel_at(m0, q)) && match d {
                                Some(px) => alike(pixel_at(before, q), px),
                                None => alike(pixel_at(before, q), pixel_at(m0, q)),
                            };
                        assert(f.ensures((q, v), d));
                    }
                }
            }
            x = x + 1;
        }
        assert(buf@ == row_swept(above, g, y as int, left as int, right as int));
        assert forall|q: IVec2| #[trigger] retouched_at(
            m0,
            buf@,
            area,
            f,
            left as int,
            y + 1,
            q,
        ) by {
            assert(retouched_at(m0, buf@, area, f, x as int, y as int, q));
        }
        y = y + 1;
    }
    proof {
        assert forall|p: IVec2| in_area(area, p) implies retouches(
            f,
            p,
            pixel_at(m0, p),
            #[trigger] buf.at(p),
        ) by {
            assert(retouched_at(m0, buf@, area, f, left as int, y as int, p));
        }
        assert forall|p: IVec2| !in_area(area, p) implies alike(
            #[trigger] buf.at(p),
            pixel_at(m0, p),
        ) by {
            assert(retouched_at(m0, buf@, area, f, left as int, y as int, p));
        }
    }
}

} // verus!
