//! A single 256×256 tile of pixels.
use vstd::prelude::*;

use crate::pixel::{clear_px, px_same, Rgba32F};

verus! {

/// Side length of a tile in pixels.
pub const TILE_SIZE: usize = 256;

/// Number of pixels in a tile.
pub const TILE_PIXELS: usize = 65536;

/// A 256×256 block of pixels, row by row, with the number of pixels that are
/// not transparent.
#[derive(Debug)]
pub struct Tile {
    pixels: Vec<Rgba32F>,
    non_transparent: usize,
}

/// How many pixels of `s` are not transparent.
pub open spec fn ink(s: Seq<Rgba32F>) -> nat
    decreases s.len(),
{
    if s.len() == 0 {
        0
    } else {
        ink(s.drop_last()) + (if s.last().is_clear() { 0nat } else { 1nat })
    }
}

/// The place of local pixel `(lx, ly)` in a tile's row-major pixels.
pub open spec fn slot(lx: int, ly: int) -> int {
    ly * 256 + lx
}

impl View for Tile {
    type V = Seq<Rgba32F>;

    closed spec fn view(&self) -> Seq<Rgba32F> {
        self.pixels@
    }
}

/// Two lists of pixels hold equal pixels at the same places.
pub open spec fn pixels_same(s: Seq<Rgba32F>, t: Seq<Rgba32F>) -> bool {
    s.len() == t.len() && forall|i: int| 0 <= i < s.len() ==> px_same(#[trigger] s[i], t[i])
}

/// The pixels of a fully transparent tile.
pub open spec fn blank_pixels() -> Seq<Rgba32F> {
    Seq::new(TILE_PIXELS as nat, |i: int| clear_px())
}

impl Tile {
    /// The tile holds 256×256 pixels and its count agrees with them.
    pub closed spec fn wf(&self) -> bool {
        self.pixels@.len() == TILE_PIXELS && self.non_transparent == ink(self.pixels@)
    }

    /// A fully transparent tile.
    pub fn transparent() -> (t: Self)
        ensures
            t.wf(),
            t@ == blank_pixels(),
            ink(t@) == 0,
    {
        Self::filled(Rgba32F::transparent())
    }

    /// A tile with every pixel set to `px`.
    pub fn filled(px: Rgba32F) -> (t: Self)
        ensures
            t.wf(),
            t@ == Seq::new(TILE_PIXELS as nat, |i: int| px),
            ink(t@) == (if px.is_clear() { 0nat } else { TILE_PIXELS as nat }),
    {
        let mut pixels: Vec<Rgba32F> = Vec::with_capacity(TILE_PIXELS);
        let step: usize = if px.is_transparent() { 0 } else { 1 };
        let mut count: usize = 0;
        let mut i: usize = 0;
        while i < TILE_PIXELS
            invariant
                i <= TILE_PIXELS,
                pixels@ == Seq::new(i as nat, |k: int| px),
                step == (if px.is_clear() { 0usize } else { 1usize }),
                count == step * i,
                ink(pixels@) == count,
            decreases TILE_PIXELS - i,
        {
            let ghost before = pixels@;
            pixels.push(px);
            assert(pixels@.drop_last() =~= before);
            assert(pixels@ =~= Seq::new((i + 1) as nat, |k: int| px));
            assert(step * i <= i && step * (i + 1) == step * i + step) by (nonlinear_arith)
                requires
                    step == 0 || step == 1,
            ;
            count = count + step;
            i = i + 1;
        }
        Tile { pixels, non_transparent: count }
    }

    /// The pixel at local position `(lx, ly)`.
    pub fn get(&self, lx: usize, ly: usize) -> (px: Rgba32F)
        requires
            self.wf(),
            lx < TILE_SIZE,
            ly < TILE_SIZE,
        ensures
            px == self@[slot(lx as int, ly as int)],
    {
        self.pixels[ly * 256 + lx]
    }

    /// Set the pixel at local position `(lx, ly)`.
    pub fn set(&mut self, lx: usize, ly: usize, px: Rgba32F)
        requires
            old(self).wf(),
            lx < TILE_SIZE,
            ly < TILE_SIZE,
        ensures
            final(self).wf(),
            final(self)@ == old(self)@.update(slot(lx as int, ly as int), px),
    {
        let i: usize = ly * 256 + lx;
        proof {
            lemma_ink_update(self.pixels@, i as int, px);
            lemma_ink_bound(self.pixels@);
            lemma_ink_bound(self.pixels@.update(i as int, px));
        }
        let was: bool = self.pixels[i].is_transparent();
        let now: bool = px.is_transparent();
        self.pixels.set(i, px);
        if was && !now {
            self.non_transparent = self.non_transparent + 1;
        } else if !was && now {
            self.non_transparent = self.non_transparent - 1;
        }
    }

    /// True if two tiles hold equal pixels.
    pub fn eq(&self, other: &Self) -> (r: bool)
        ensures
            r == pixels_same(self@, other@),
    {
        if self.pixels.len() != other.pixels.len() {
            return false;
        }
        let mut i: usize = 0;
        while i < self.pixels.len()
            invariant
                self.pixels@.len() == other.pixels@.len(),
                i <= self.pixels@.len(),
                forall|k: int| 0 <= k < i ==> px_same(#[trigger] self.pixels@[k], other.pixels@[k]),
            decreases self.pixels@.len() - i,
        {
            if !(self.pixels[i] == other.pixels[i]) {
                assert(!px_same(self.pixels@[i as int], other.pixels@[i as int]));
                return false;
            }
            i = i + 1;
        }
        true
    }

    /// Number of pixels that are not transparent.
    pub fn non_transparent_count(&self) -> (n: usize)
        requires
            self.wf(),
        ensures
            n == ink(self@),
    {
        self.non_transparent
    }

    /// True if every pixel is transparent. Takes constant time.
    pub fn is_empty(&self) -> (r: bool)
        requires
            self.wf(),
        ensures
            r == (ink(self@) == 0),
            r <==> forall|i: int| 0 <= i < self@.len() ==> (#[trigger] self@[i]).is_clear(),
    {
        proof {
            lemma_ink_zero(self@);
        }
        self.non_transparent == 0
    }

    /// The tile has 256×256 pixels.
    pub proof fn lemma_len(&self)
        requires
            self.wf(),
        ensures
            self@.len() == TILE_PIXELS,
    {
    }
}

impl Clone for Tile {
    fn clone(&self) -> (t: Self)
        ensures
            t@ == self@,
            t.wf() == self.wf(),
    {
        let mut pixels: Vec<Rgba32F> = Vec::with_capacity(self.pixels.len());
        let mut i: usize = 0;
        while i < self.pixels.len()
            invariant
                i <= self.pixels@.len(),
                pixels@ == self.pixels@.take(i as int),
            decreases self.pixels@.len() - i,
        {
            pixels.push(self.pixels[i]);
            assert(pixels@ =~= self.pixels@.take(i + 1));
            i = i + 1;
        }
        assert(pixels@ =~= self.pixels@);
        Tile { pixels, non_transparent: self.non_transparent }
    }
}

/// At most every pixel is counted.
proof fn lemma_ink_bound(s: Seq<Rgba32F>)
    ensures
        ink(s) <= s.len(),
    decreases s.len(),
{
    if s.len() > 0 {
        lemma_ink_bound(s.drop_last());
    }
}

/// Writing one pixel changes the count by what that pixel was and is.
proof fn lemma_ink_update(s: Seq<Rgba32F>, i: int, px: Rgba32F)
    requires
        0 <= i < s.len(),
    ensures
        ink(s.update(i, px)) + (if s[i].is_clear() { 0nat } else { 1nat }) == ink(s) + (
        if px.is_clear() { 0nat } else { 1nat }),
    decreases s.len(),
{
    let u = s.update(i, px);
    if i == s.len() - 1 {
        assert(u.drop_last() =~= s.drop_last());
    } else {
        assert(u.drop_last() =~= s.drop_last().update(i, px));
        assert(u.last() == s.last());
        lemma_ink_update(s.drop_last(), i, px);
    }
}

/// The count is zero exactly if every pixel is transparent.
pub proof fn lemma_ink_zero(s: Seq<Rgba32F>)
    ensures
        ink(s) == 0 <==> forall|i: int| 0 <= i < s.len() ==> (#[trigger] s[i]).is_clear(),
    decreases s.len(),
{
    if s.len() > 0 {
        lemma_ink_zero(s.drop_last());
        if ink(s) == 0 {
            assert forall|i: int| 0 <= i < s.len() implies (#[trigger] s[i]).is_clear() by {
                if i < s.len() - 1 {
                    assert(s.drop_last()[i] == s[i]);
                }
            }
        }
        if forall|i: int| 0 <= i < s.len() ==> (#[trigger] s[i]).is_clear() {
            assert forall|i: int| 0 <= i < s.drop_last().len() implies (
            #[trigger] s.drop_last()[i]).is_clear() by {
                assert(s.drop_last()[i] == s[i]);
            }
            assert(s[s.len() - 1].is_clear());
        }
    }
}

} // verus!
