//! The floating-point arithmetic that the engine's decisions are built around.
//!
//! The engine decides which pixels meet, in which order and with which weights.
//! What the numbers are that come out is the business of a [`Kernel`]: functions
//! of their arguments alone. [`FloatKernel`](crate::float_kernel::FloatKernel) builds
//! one from elementary arithmetic.
use vstd::prelude::*;

use crate::coord::IVec2;
use crate::layer::{AdjustmentKind, BlendMode};
use crate::pixel::Rgba32F;

verus! {

/// Arithmetic on pixels and outlines.
pub trait Kernel {
    /// The functions of the kernel are defined everywhere and have one result.
    spec fn wf(&self) -> bool;

    /// What [`Kernel::blend`] returns.
    spec fn blended(&self, mode: BlendMode, dst: Rgba32F, src: Rgba32F, opacity: u32) -> Rgba32F;

    /// What [`Kernel::scale`] returns.
    spec fn scaled(&self, a: u32, b: u32) -> u32;

    /// What [`Kernel::adjust`] returns.
    spec fn adjusted(&self, kind: AdjustmentKind, opacity: u32, px: Rgba32F) -> Rgba32F;

    /// What [`Kernel::fill`] returns.
    spec fn filled(&self, polygon: Seq<IVec2>) -> Seq<IVec2>;

    /// What [`Kernel::normal`] returns.
    spec fn normal_of(&self, a: IVec2, b: IVec2) -> IVec2;

    /// Blend `src` over `dst` with `mode` and an overall `opacity`.
    fn blend(&self, mode: BlendMode, dst: Rgba32F, src: Rgba32F, opacity: u32) -> (r: Rgba32F)
        requires
            self.wf(),
        ensures
            r == self.blended(mode, dst, src, opacity),
    ;

    /// The product of two numbers.
    fn scale(&self, a: u32, b: u32) -> (r: u32)
        requires
            self.wf(),
        ensures
            r == self.scaled(a, b),
    ;

    /// Apply an adjustment to a pixel.
    fn adjust(&self, kind: AdjustmentKind, opacity: u32, px: Rgba32F) -> (r: Rgba32F)
        requires
            self.wf(),
        ensures
            r == self.adjusted(kind, opacity, px),
    ;

    /// The pixels inside a polygon.
    fn fill(&self, polygon: &Vec<IVec2>) -> (r: Vec<IVec2>)
        requires
            self.wf(),
        ensures
            r@ == self.filled(polygon@),
    ;

    /// The direction across a line, rounded to whole pixels.
    fn normal(&self, a: IVec2, b: IVec2) -> (r: IVec2)
        requires
            self.wf(),
        ensures
            r == self.normal_of(a, b),
    ;
}

} // verus!
