//! The floating-point arithmetic of matte removal.
use vstd::prelude::*;

use crate::pixel::Rgba32F;

verus! {

/// Arithmetic on the colors of a matte.
pub trait MatteKernel {
    /// The functions are defined everywhere and have one result.
    spec fn wf(&self) -> bool;

    /// What [`MatteKernel::distance`] returns.
    spec fn apart(&self, a: Rgba32F, b: Rgba32F) -> u32;

    /// What [`MatteKernel::product`] returns.
    spec fn times(&self, a: u32, b: u32) -> u32;

    /// What [`MatteKernel::sum`] returns.
    spec fn plus(&self, a: u32, b: u32) -> u32;

    /// What [`MatteKernel::mean`] returns.
    spec fn mean_of(&self, colors: Seq<Rgba32F>) -> Rgba32F;

    /// What [`MatteKernel::luma`] returns.
    spec fn brightness(&self, c: Rgba32F) -> u32;

    /// What [`MatteKernel::unmix`] returns.
    spec fn unmixed(&self, p: Rgba32F, k: Rgba32F) -> Rgba32F;

    /// What [`MatteKernel::reaches`] returns.
    spec fn is_share(&self, n: usize, of: usize, share: u32) -> bool;

    /// What [`MatteKernel::band`] returns.
    spec fn band_of(&self, softness: u32) -> usize;

    /// The squared distance of two colors, alpha left out.
    fn distance(&self, a: Rgba32F, b: Rgba32F) -> (r: u32)
        requires
            self.wf(),
        ensures
            r == self.apart(a, b),
    ;

    /// The product of two numbers.
    fn product(&self, a: u32, b: u32) -> (r: u32)
        requires
            self.wf(),
        ensures
            r == self.times(a, b),
    ;

    /// The sum of two numbers.
    fn sum(&self, a: u32, b: u32) -> (r: u32)
        requires
            self.wf(),
        ensures
            r == self.plus(a, b),
    ;

    /// The mean color.
    fn mean(&self, colors: &Vec<Rgba32F>) -> (r: Rgba32F)
        requires
            self.wf(),
        ensures
            r == self.mean_of(colors@),
    ;

    /// The sum of the color channels.
    fn luma(&self, c: Rgba32F) -> (r: u32)
        requires
            self.wf(),
        ensures
            r == self.brightness(c),
    ;

    /// The straight-alpha pixel that, composited over `k`, gives `p`.
    fn unmix(&self, p: Rgba32F, k: Rgba32F) -> (r: Rgba32F)
        requires
            self.wf(),
        ensures
            r == self.unmixed(p, k),
    ;

    /// True if `n` is at least the share `share` of `of`.
    fn reaches(&self, n: usize, of: usize, share: u32) -> (r: bool)
        requires
            self.wf(),
        ensures
            r == self.is_share(n, of, share),
    ;

    /// The width in pixels of the band that an edge softness asks for.
    fn band(&self, softness: u32) -> (r: usize)
        requires
            self.wf(),
        ensures
            r == self.band_of(softness),
    ;
}

} // verus!
