//! Brush input and settings shared by the paint tools.
use vstd::prelude::*;

use crate::buffer::{alike, key, pixel_at, TiledBuffer};
use crate::buffer_region::same_tile;
use crate::coord::{tile_of, IVec2, Vec2};
use crate::float_bits::{
    at_least_zero, at_most, clamp, clamped, is_at_most, is_less, less, max_zero, same, F_HALF,
    F_ONE, F_ZERO,
};
use crate::kernel::Kernel;
use crate::layer::BlendMode;
use crate::paint::{in_area, retouch, retouches, swept};
use crate::pixel::{clear_px, Rgba32F};

verus! {

/// A single tablet or mouse input sample in document-space pixels.
#[derive(Clone, Copy, Debug)]
pub struct InputSample {
    /// Position in document pixels. The origin is at the top-left with +y down.
    pub pos: Vec2,
    /// Normalised pressure from zero to one. Mouse input should report one.
    pub pressure: u32,
}

impl InputSample {
    /// Create a sample with the default pressure (one).
    pub fn new(pos: Vec2) -> (r: Self)
        ensures
            r == (InputSample { pos, pressure: F_ONE }),
    {
        InputSample { pos, pressure: F_ONE }
    }

    /// Create a sample with explicit pressure.
    pub fn with_pressure(pos: Vec2, pressure: u32) -> (r: Self)
        ensures
            r == (InputSample { pos, pressure }),
    {
        InputSample { pos, pressure }
    }
}

/// Settings that describe a round brush tip.
#[derive(Clone, Copy, Debug)]
pub struct BrushSettings {
    /// Base brush diameter in pixels.
    pub size: u32,
    /// How hard the brush edge is: zero is very soft, one is fully hard.
    pub hardness: u32,
    /// Maximum opacity applied by one stamp, from zero to one.
    pub opacity: u32,
    /// How much color is deposited per stamp, from zero to one.
    pub flow: u32,
    /// Stamp distance as a fraction of the brush diameter.
    pub spacing: u32,
    /// When `true`, brush size scales with pressure.
    pub pressure_size: bool,
    /// When `true`, brush opacity scales with pressure.
    pub pressure_opacity: bool,
}

impl Default for BrushSettings {
    /// A soft brush of ten pixels: size `10.0`, hardness `0.5`, opacity and flow
    /// `1.0`, spacing `0.25`, both sensitive to pressure.
    fn default() -> (r: Self)
        ensures
            r == (BrushSettings {
                size: 0x4120_0000,
                hardness: F_HALF,
                opacity: F_ONE,
                flow: F_ONE,
                spacing: 0x3e80_0000,
                pressure_size: true,
                pressure_opacity: true,
            }),
    {
        BrushSettings {
            size: 0x4120_0000,
            hardness: F_HALF,
            opacity: F_ONE,
            flow: F_ONE,
            spacing: 0x3e80_0000,
            pressure_size: true,
            pressure_opacity: true,
        }
    }
}

/// How a stroke should be composited into the destination layer.
#[derive(Clone, Copy, Debug, PartialEq, Eq, Structural)]
pub enum PaintMode {
    /// Normal brush: stamp color is blended over the existing pixels.
    Brush,
    /// Eraser: the stamp reduces the existing pixel's alpha.
    Eraser,
}

/// Arithmetic on brush tips and strokes.
pub trait BrushKernel {
    /// The functions are defined everywhere and have one result.
    spec fn wf(&self) -> bool;

    /// What [`BrushKernel::corners`] returns.
    spec fn corners_of(&self, center: Vec2, radius: u32) -> (IVec2, IVec2);

    /// What [`BrushKernel::distance`] returns.
    spec fn distance_of(&self, p: IVec2, center: Vec2) -> u32;

    /// What [`BrushKernel::ratio`] returns.
    spec fn ratio_of(&self, a: u32, b: u32) -> u32;

    /// What [`BrushKernel::curve`] returns.
    spec fn curve_of(&self, t: u32, hardness: u32) -> u32;

    /// What [`BrushKernel::fade`] returns.
    spec fn faded(&self, a: u32, alpha: u32) -> u32;

    /// What [`BrushKernel::walk`] returns.
    spec fn walked(&self, samples: Seq<InputSample>, settings: BrushSettings) -> Seq<InputSample>;

    /// What [`BrushKernel::localize`] returns.
    spec fn localized(&self, pos: Vec2, offset: IVec2) -> Vec2;

    /// The first and last pixels of the box around a disk.
    fn corners(&self, center: Vec2, radius: u32) -> (r: (IVec2, IVec2))
        requires
            self.wf(),
        ensures
            r == self.corners_of(center, radius),
    ;

    /// The distance of the middle of a pixel from a point.
    fn distance(&self, p: IVec2, center: Vec2) -> (r: u32)
        requires
            self.wf(),
        ensures
            r == self.distance_of(p, center),
    ;

    /// The quotient of two numbers.
    fn ratio(&self, a: u32, b: u32) -> (r: u32)
        requires
            self.wf(),
        ensures
            r == self.ratio_of(a, b),
    ;

    /// The alpha of a soft tip between its center and its edge.
    fn curve(&self, t: u32, hardness: u32) -> (r: u32)
        requires
            self.wf(),
        ensures
            r == self.curve_of(t, hardness),
    ;

    /// What an eraser of strength `alpha` leaves of an alpha.
    fn fade(&self, a: u32, alpha: u32) -> (r: u32)
        requires
            self.wf(),
        ensures
            r == self.faded(a, alpha),
    ;

    /// The stamps along a polyline of at least two samples.
    fn walk(&self, samples: &Vec<InputSample>, settings: BrushSettings) -> (r: Vec<InputSample>)
        requires
            self.wf(),
        ensures
            r@ == self.walked(samples@, settings),
    ;

    /// A document point seen from a layer placed at `offset`.
    fn localize(&self, pos: Vec2, offset: IVec2) -> (r: Vec2)
        requires
            self.wf(),
        ensures
            r == self.localized(pos, offset),
    ;
}

/// Hardness-shaped radial alpha for a normalized position `t`, where zero is the
/// stamp center and one is the stamp edge.
pub open spec fn falloff_at<B: BrushKernel>(brush: &B, t: u32, hardness: u32) -> u32 {
    if at_most(t, F_ZERO) {
        F_ONE
    } else if at_most(F_ONE, t) {
        F_ZERO
    } else if at_most(F_ONE, clamped(hardness, F_ZERO, F_ONE)) {
        F_ONE
    } else {
        brush.curve_of(t, clamped(hardness, F_ZERO, F_ONE))
    }
}

fn falloff_normalized<B: BrushKernel>(brush: &B, t: u32, hardness: u32) -> (r: u32)
    requires
        brush.wf(),
    ensures
        r == falloff_at(brush, t, hardness),
{
    if is_at_most(t, F_ZERO) {
        return F_ONE;
    }
    if is_at_most(F_ONE, t) {
        return F_ZERO;
    }
    let h: u32 = clamp(hardness, F_ZERO, F_ONE);
    if is_at_most(F_ONE, h) {
        return F_ONE;
    }
    brush.curve(t, h)
}

impl BrushSettings {
    /// The settings with all fields in sensible ranges.
    pub open spec fn sane(self) -> BrushSettings {
        BrushSettings {
            size: at_least_zero(self.size),
            hardness: clamped(self.hardness, F_ZERO, F_ONE),
            opacity: clamped(self.opacity, F_ZERO, F_ONE),
            flow: clamped(self.flow, F_ZERO, F_ONE),
            spacing: clamped(self.spacing, F_ZERO, F_ONE),
            pressure_size: self.pressure_size,
            pressure_opacity: self.pressure_opacity,
        }
    }

    /// The stamp width at a pressure.
    pub open spec fn width_for<K: Kernel>(self, kern: &K, pressure: u32) -> u32 {
        if self.pressure_size {
            kern.scaled(at_least_zero(self.size), clamped(pressure, F_ZERO, F_ONE))
        } else {
            at_least_zero(self.size)
        }
    }

    /// The stamp opacity at a pressure.
    pub open spec fn opacity_for<K: Kernel>(self, kern: &K, pressure: u32) -> u32 {
        if self.pressure_opacity {
            kern.scaled(clamped(self.opacity, F_ZERO, F_ONE), clamped(pressure, F_ZERO, F_ONE))
        } else {
            clamped(self.opacity, F_ZERO, F_ONE)
        }
    }

    /// Clamp all fields to sensible ranges.
    pub fn sanitised(self) -> (r: Self)
        ensures
            r == self.sane(),
    {
        BrushSettings {
            size: max_zero(self.size),
            hardness: clamp(self.hardness, F_ZERO, F_ONE),
            opacity: clamp(self.opacity, F_ZERO, F_ONE),
            flow: clamp(self.flow, F_ZERO, F_ONE),
            spacing: clamp(self.spacing, F_ZERO, F_ONE),
            pressure_size: self.pressure_size,
            pressure_opacity: self.pressure_opacity,
        }
    }

    /// Brush radius in pixels.
    pub fn radius<K: Kernel>(self, kern: &K) -> (r: u32)
        requires
            kern.wf(),
        ensures
            r == kern.scaled(at_least_zero(self.size), F_HALF),
    {
        kern.scale(max_zero(self.size), F_HALF)
    }

    /// Map pressure to stamp width for this brush.
    pub fn width_at_pressure<K: Kernel>(self, kern: &K, pressure: u32) -> (r: u32)
        requires
            kern.wf(),
        ensures
            r == self.width_for(kern, pressure),
    {
        if self.pressure_size {
            kern.scale(max_zero(self.size), clamp(pressure, F_ZERO, F_ONE))
        } else {
            max_zero(self.size)
        }
    }

    /// Map pressure to stamp opacity for this brush.
    pub fn opacity_at_pressure<K: Kernel>(self, kern: &K, pressure: u32) -> (r: u32)
        requires
            kern.wf(),
        ensures
            r == self.opacity_for(kern, pressure),
    {
        if self.pressure_opacity {
            kern.scale(clamp(self.opacity, F_ZERO, F_ONE), clamp(pressure, F_ZERO, F_ONE))
        } else {
            clamp(self.opacity, F_ZERO, F_ONE)
        }
    }

    /// Distance between consecutive stamps in pixels.
    ///
    /// A spacing of zero would produce an infinite number of stamps, so the result
    /// is at least one pixel.
    pub fn step_distance<K: Kernel>(self, kern: &K) -> (r: u32)
        requires
            kern.wf(),
        ensures
            ({
                let d = kern.scaled(
                    at_least_zero(self.size),
                    clamped(self.spacing, F_ZERO, F_ONE),
                );
                r == if less(F_ONE, d) { d } else { F_ONE }
            }),
    {
        let d: u32 = kern.scale(max_zero(self.size), clamp(self.spacing, F_ZERO, F_ONE));
        if is_less(F_ONE, d) { d } else { F_ONE }
    }

    /// Radial alpha falloff for a round brush stamp.
    ///
    /// `distance` is the distance from the stamp center in pixels. The result is
    /// one at the center and zero at the radius. Higher hardness keeps the alpha
    /// high further toward the edge.
    pub fn falloff<K: Kernel, B: BrushKernel>(self, kern: &K, brush: &B, distance: u32) -> (r: u32)
        requires
            kern.wf(),
            brush.wf(),
        ensures
            ({
                let radius = kern.scaled(at_least_zero(self.size), F_HALF);
                r == if at_most(radius, F_ZERO) {
                    F_ZERO
                } else {
                    falloff_at(brush, brush.ratio_of(distance, radius), self.hardness)
                }
            }),
    {
        let radius: u32 = self.radius(kern);
        if is_at_most(radius, F_ZERO) {
            return F_ZERO;
        }
        falloff_normalized(brush, brush.ratio(distance, radius), self.hardness)
    }
}

/// A stamp to be set down: where, how strong, in which color and how.
#[derive(Clone, Copy, Debug)]
pub struct Dab {
    /// The center, in layer-local coordinates.
    pub center: Vec2,
    /// The sane settings of the brush.
    pub settings: BrushSettings,
    /// The color.
    pub color: Rgba32F,
    /// The pressure.
    pub pressure: u32,
    /// The mode.
    pub mode: PaintMode,
}

impl Dab {
    /// The radius of the stamp.
    pub open spec fn radius<K: Kernel>(self, kern: &K) -> u32 {
        kern.scaled(self.settings.width_for(kern, self.pressure), F_HALF)
    }

    /// The alpha of the stamp.
    pub open spec fn strength<K: Kernel>(self, kern: &K) -> u32 {
        kern.scaled(self.settings.opacity_for(kern, self.pressure), self.settings.flow)
    }

    /// The stamp changes something.
    pub open spec fn shows<K: Kernel>(self, kern: &K) -> bool {
        !at_most(self.radius(kern), F_ZERO) && !at_most(self.strength(kern), F_ZERO)
    }

    /// The alpha of the stamp at pixel `p`, if the pixel lies on it.
    pub open spec fn alpha_at<K: Kernel, B: BrushKernel>(
        self,
        kern: &K,
        brush: &B,
        p: IVec2,
    ) -> Option<u32> {
        let d = brush.distance_of(p, self.center);
        let r = self.radius(kern);
        let a = kern.scaled(
            kern.scaled(
                falloff_at(brush, brush.ratio_of(d, r), self.settings.hardness),
                self.strength(kern),
            ),
            if self.mode == PaintMode::Brush { self.color.a } else { F_ONE },
        );
        if at_most(r, d) || at_most(a, F_ZERO) { None } else { Some(a) }
    }

    /// What the stamp makes of a pixel that was `was`.
    pub open spec fn stamped<K: Kernel, B: BrushKernel>(
        self,
        kern: &K,
        brush: &B,
        p: IVec2,
        was: Rgba32F,
    ) -> Rgba32F {
        match self.alpha_at(kern, brush, p) {
            None => was,
            Some(alpha) => match self.mode {
                PaintMode::Brush => kern.blended(
                    BlendMode::Normal,
                    was,
                    Rgba32F { a: alpha, ..self.color },
                    F_ONE,
                ),
                PaintMode::Eraser => {
                    let a = brush.faded(was.a, alpha);
                    if at_most(a, F_ZERO) { clear_px() } else { Rgba32F { a, ..was } }
                },
            },
        }
    }

    /// Pixel `p` lies in the box around the stamp.
    pub open spec fn in_box<K: Kernel, B: BrushKernel>(
        self,
        kern: &K,
        brush: &B,
        p: IVec2,
    ) -> bool {
        let b = brush.corners_of(self.center, self.radius(kern));
        &&& self.shows(kern)
        &&& b.0.x <= p.x <= b.1.x
        &&& b.0.y <= p.y <= b.1.y
    }

    /// What the stamp writes to a pixel.
    pub open spec fn writes<K: Kernel, B: BrushKernel>(
        self,
        kern: &K,
        brush: &B,
    ) -> spec_fn(IVec2, Rgba32F) -> Option<Rgba32F> {
        |p: IVec2, was: Rgba32F|
            match self.alpha_at(kern, brush, p) {
                None => None,
                Some(alpha) => Some(self.stamped(kern, brush, p, was)),
            }
    }

    /// The edges (left, top, right, bottom) of the box around the stamp.
    pub open spec fn area<K: Kernel, B: BrushKernel>(
        self,
        kern: &K,
        brush: &B,
    ) -> (int, int, int, int) {
        let b = brush.corners_of(self.center, self.radius(kern));
        (b.0.x as int, b.0.y as int, b.1.x + 1, b.1.y + 1)
    }

    /// The box around the stamp holds a pixel of the tile under key `k`.
    pub open spec fn meets<K: Kernel, B: BrushKernel>(
        self,
        kern: &K,
        brush: &B,
        k: (i32, i32),
    ) -> bool {
        exists|p: IVec2| #[trigger] in_area(self.area(kern, brush), p) && key(tile_of(p)) == k
    }

    /// The buffer `m` with the stamp on it: its pixels are gone through row by row.
    pub open spec fn laid<K: Kernel, B: BrushKernel>(
        self,
        kern: &K,
        brush: &B,
        m: Map<(i32, i32), Seq<Rgba32F>>,
    ) -> Map<(i32, i32), Seq<Rgba32F>> {
        if self.shows(kern) {
            swept(m, self.writes(kern, brush), self.area(kern, brush))
        } else {
            m
        }
    }

    /// `n` is the buffer `m` with the stamp on it: each pixel is as the stamp leaves
    /// it, up to the sign of zeros in transparent pixels.
    pub open spec fn lays<K: Kernel, B: BrushKernel>(
        self,
        kern: &K,
        brush: &B,
        m: Map<(i32, i32), Seq<Rgba32F>>,
        n: Map<(i32, i32), Seq<Rgba32F>>,
    ) -> bool {
        &&& n == self.laid(kern, brush, m)
        &&& forall|p: IVec2| #[trigger] self.lays_at(kern, brush, m, n, p)
    }

    /// Pixel `p` is as the stamp leaves it.
    pub open spec fn lays_at<K: Kernel, B: BrushKernel>(
        self,
        kern: &K,
        brush: &B,
        m: Map<(i32, i32), Seq<Rgba32F>>,
        n: Map<(i32, i32), Seq<Rgba32F>>,
        p: IVec2,
    ) -> bool {
        if self.in_box(kern, brush, p) {
            exists|was: Rgba32F|
                #![trigger self.stamped(kern, brush, p, was)]
                alike(was, pixel_at(m, p)) && alike(
                    pixel_at(n, p),
                    self.stamped(kern, brush, p, was),
                )
        } else {
            alike(pixel_at(n, p), pixel_at(m, p))
        }
    }
}

/// Rasterize a single round brush stamp into `buffer`.
///
/// `center` is in layer-local pixel coordinates.
pub fn stamp<K: Kernel, B: BrushKernel>(
    kern: &K,
    brush: &B,
    buffer: &mut TiledBuffer,
    center: Vec2,
    settings: &BrushSettings,
    color: Rgba32F,
    pressure: u32,
    mode: PaintMode,
)
    requires
        kern.wf(),
        brush.wf(),
        old(buffer).wf(),
    ensures
        final(buffer).wf(),
        (Dab { center, settings: settings.sane(), color, pressure, mode }).lays(
            kern,
            brush,
            old(buffer)@,
            final(buffer)@,
        ),
{
    let dab = Dab { center, settings: settings.sanitised(), color, pressure, mode };
    lay(kern, brush, buffer, &dab);
}

/// Set down one stamp. Tiles that its box does not meet are left alone.
pub(crate) fn lay<K: Kernel, B: BrushKernel>(
    kern: &K,
    brush: &B,
    buffer: &mut TiledBuffer,
    dab: &Dab,
)
    requires
        kern.wf(),
        brush.wf(),
        old(buffer).wf(),
    ensures
        final(buffer).wf(),
        dab.lays(kern, brush, old(buffer)@, final(buffer)@),
        forall|k: (i32, i32)|
            !dab.meets(kern, brush, k) ==> #[trigger] same_tile(
                old(buffer)@,
                final(buffer)@,
                k,
            ),
{
    let ghost m = buffer@;
    let radius: u32 = kern.scale(dab.settings.width_at_pressure(kern, dab.pressure), F_HALF);
    let strength: u32 = kern.scale(
        dab.settings.opacity_at_pressure(kern, dab.pressure),
        dab.settings.flow,
    );
    if is_at_most(radius, F_ZERO) || is_at_most(strength, F_ZERO) {
        proof {
            assert forall|p: IVec2| #[trigger] dab.lays_at(kern, brush, m, buffer@, p) by {}
        }
        return;
    }
    let b: (IVec2, IVec2) = brush.corners(dab.center, radius);
    let x0: i64 = b.0.x as i64;
    let y0: i64 = b.0.y as i64;
    let x1: i64 = b.1.x as i64 + 1;
    let y1: i64 = b.1.y as i64 + 1;
    let weight: u32 = if dab.mode == PaintMode::Brush { dab.color.a } else { F_ONE };
    let f = |p: IVec2, was: Rgba32F| -> (o: Option<Rgba32F>)
        requires
            kern.wf() && brush.wf() && radius == dab.radius(kern) && strength == dab.strength(kern)
                && weight == (if dab.mode == PaintMode::Brush { dab.color.a } else { F_ONE }),
        ensures
            o == dab.writes(kern, brush)(p, was),
        {
            let d: u32 = brush.distance(p, dab.center);
            if is_at_most(radius, d) {
                return None;
            }
            let fall: u32 = falloff_normalized(brush, brush.ratio(d, radius), dab.settings.hardness);
            let alpha: u32 = kern.scale(kern.scale(fall, strength), weight);
            if is_at_most(alpha, F_ZERO) {
                return None;
            }
            match dab.mode {
                PaintMode::Brush => Some(
                    kern.blend(
                        BlendMode::Normal,
                        was,
                        Rgba32F::new(dab.color.r, dab.color.g, dab.color.b, alpha),
                        F_ONE,
                    ),
                ),
                PaintMode::Eraser => {
                    let a: u32 = brush.fade(was.a, alpha);
                    if is_at_most(a, F_ZERO) {
                        Some(Rgba32F::transparent())
                    } else {
                        Some(Rgba32F::new(was.r, was.g, was.b, a))
                    }
                },
            }
        };
    retouch(buffer, x0, y0, x1, y1, f, Ghost(dab.writes(kern, brush)));
    proof {
        let area = (x0 as int, y0 as int, x1 as int, y1 as int);
        assert forall|p: IVec2| #[trigger] dab.lays_at(kern, brush, m, buffer@, p) by {
            assert(buffer.at(p) == pixel_at(buffer@, p));
            assert(in_area(area, p) <==> dab.in_box(kern, brush, p));
            if in_area(area, p) {
                assert(retouches(f, p, pixel_at(m, p), buffer.at(p)));
                let (w, o) = choose|w: Rgba32F, o: Option<Rgba32F>| #[trigger]
                    f.ensures((p, w), o) && alike(w, pixel_at(m, p)) && match o {
                        Some(px) => alike(pixel_at(buffer@, p), px),
                        None => alike(pixel_at(buffer@, p), pixel_at(m, p)),
                    };
                assert(dab.stamped(kern, brush, p, w) == (match o {
                    Some(px) => px,
                    None => w,
                }));
            }
        }
        assert forall|k: (i32, i32)| !dab.meets(kern, brush, k) implies #[trigger] same_tile(
            m,
            buffer@,
            k,
        ) by {
            assert forall|p: IVec2| #[trigger] in_area(area, p) implies key(tile_of(p)) != k by {
                assert(in_area(dab.area(kern, brush), p));
            }
        }
    }
}

/// The stamps of a stroke, in order: those along the polyline and one at its last
/// sample, or one for a single sample.
pub open spec fn stops<B: BrushKernel>(
    brush: &B,
    samples: Seq<InputSample>,
    settings: BrushSettings,
) -> Seq<InputSample> {
    if samples.len() < 2 {
        samples
    } else {
        brush.walked(samples, settings.sane()).push(samples.last())
    }
}

/// `n` is the buffer `m` with stamps at the `stops` set down in order.
pub open spec fn is_stroke<K: Kernel, B: BrushKernel>(
    kern: &K,
    brush: &B,
    stops: Seq<InputSample>,
    settings: BrushSettings,
    color: Rgba32F,
    mode: PaintMode,
    m: Map<(i32, i32), Seq<Rgba32F>>,
    n: Map<(i32, i32), Seq<Rgba32F>>,
) -> bool
    decreases stops.len(),
{
    if stops.len() == 0 {
        n == m
    } else {
        exists|h: Map<(i32, i32), Seq<Rgba32F>>|
            #![trigger stop_dab(stops.last(), settings, color, mode).lays(kern, brush, h, n)]
            stop_dab(stops.last(), settings, color, mode).lays(kern, brush, h, n)
                && is_stroke(kern, brush, stops.drop_last(), settings, color, mode, m, h)
    }
}

/// The stamp at a stop.
pub open spec fn stop_dab(
    s: InputSample,
    settings: BrushSettings,
    color: Rgba32F,
    mode: PaintMode,
) -> Dab {
    Dab { center: s.pos, settings: settings.sane(), color, pressure: s.pressure, mode }
}

/// Rasterize a stroke defined by `samples` into `buffer`.
///
/// Samples are in layer-local pixel coordinates. Stamps are placed along the
/// polyline with spacing controlled by the settings, and the very last sample is
/// always stamped.
pub fn rasterize_stroke<K: Kernel, B: BrushKernel>(
    kern: &K,
    brush: &B,
    buffer: &mut TiledBuffer,
    samples: &Vec<InputSample>,
    settings: &BrushSettings,
    color: Rgba32F,
    mode: PaintMode,
)
    requires
        kern.wf(),
        brush.wf(),
        old(buffer).wf(),
    ensures
        final(buffer).wf(),
        is_stroke(
            kern,
            brush,
            stops(brush, samples@, *settings),
            *settings,
            color,
            mode,
            old(buffer)@,
            final(buffer)@,
        ),
{
    let list: Vec<InputSample> = list_stops(brush, samples, settings);
    lay_stops(kern, brush, buffer, &list, settings, color, mode);
}

/// List the stamps of a stroke, in order.
pub(crate) fn list_stops<B: BrushKernel>(
    brush: &B,
    samples: &Vec<InputSample>,
    settings: &BrushSettings,
) -> (list: Vec<InputSample>)
    requires
        brush.wf(),
    ensures
        list@ == stops(brush, samples@, *settings),
{
    let mut list: Vec<InputSample> = Vec::new();
    if samples.len() >= 2 {
        list = brush.walk(samples, settings.sanitised());
    }
    if samples.len() > 0 {
        list.push(samples[samples.len() - 1]);
    }
    assert(list@ =~= stops(brush, samples@, *settings));
    list
}

/// The box around one of the stamps holds a pixel of the tile under key `k`.
pub open spec fn stamped_tile<K: Kernel, B: BrushKernel>(
    kern: &K,
    brush: &B,
    stops: Seq<InputSample>,
    settings: BrushSettings,
    color: Rgba32F,
    mode: PaintMode,
    k: (i32, i32),
) -> bool {
    exists|i: int|
        0 <= i < stops.len() && stop_dab(#[trigger] stops[i], settings, color, mode).meets(
            kern,
            brush,
            k,
        )
}

/// Set down stamps in order. Tiles that no stamp meets are left alone.
pub(crate) fn lay_stops<K: Kernel, B: BrushKernel>(
    kern: &K,
    brush: &B,
    buffer: &mut TiledBuffer,
    list: &Vec<InputSample>,
    settings: &BrushSettings,
    color: Rgba32F,
    mode: PaintMode,
)
    requires
        kern.wf(),
        brush.wf(),
        old(buffer).wf(),
    ensures
        final(buffer).wf(),
        is_stroke(
            kern,
            brush,
            list@,
            *settings,
            color,
            mode,
            old(buffer)@,
            final(buffer)@,
        ),
        forall|k: (i32, i32)|
            !stamped_tile(kern, brush, list@, *settings, color, mode, k) ==> #[trigger] same_tile(
                old(buffer)@,
                final(buffer)@,
                k,
            ),
{
    let sane: BrushSettings = settings.sanitised();
    let mut i: usize = 0;
    assert(list@.take(0) =~= Seq::empty());
    while i < list.len()
        invariant
            kern.wf(),
            brush.wf(),
            buffer.wf(),
            i <= list@.len(),
            sane == settings.sane(),
            is_stroke(
                kern,
                brush,
                list@.take(i as int),
                *settings,
                color,
                mode,
                old(buffer)@,
                buffer@,
            ),
            forall|k: (i32, i32)|
                !stamped_tile(kern, brush, list@, *settings, color, mode, k)
                    ==> #[trigger] same_tile(old(buffer)@, buffer@, k),
        decreases list@.len() - i,
    {
        let ghost h = buffer@;
        let dab = Dab {
            center: list[i].pos,
            settings: sane,
            color,
            pressure: list[i].pressure,
            mode,
        };
        lay(kern, brush, buffer, &dab);
        proof {
            let t = list@.take(i + 1);
            assert(t.drop_last() =~= list@.take(i as int));
            assert(t.last() == list@[i as int]);
            assert(dab == stop_dab(t.last(), *settings, color, mode));
            assert(stop_dab(t.last(), *settings, color, mode).lays(kern, brush, h, buffer@));
            assert forall|k: (i32, i32)|
                !stamped_tile(kern, brush, list@, *settings, color, mode, k)
                    implies #[trigger] same_tile(old(buffer)@, buffer@, k) by {
                assert(same_tile(old(buffer)@, h, k));
                assert(!dab.meets(kern, brush, k)) by {
                    assert(dab == stop_dab(list@[i as int], *settings, color, mode));
                }
                assert(same_tile(h, buffer@, k));
            }
        }
        i = i + 1;
    }
    assert(list@.take(i as int) =~= list@);
}

/// A stroke makes one buffer only of a buffer.
pub proof fn strokes_have_one_outcome<K: Kernel, B: BrushKernel>(
    kern: &K,
    brush: &B,
    stops: Seq<InputSample>,
    settings: BrushSettings,
    color: Rgba32F,
    mode: PaintMode,
    m: Map<(i32, i32), Seq<Rgba32F>>,
    n: Map<(i32, i32), Seq<Rgba32F>>,
    o: Map<(i32, i32), Seq<Rgba32F>>,
)
    requires
        is_stroke(kern, brush, stops, settings, color, mode, m, n),
        is_stroke(kern, brush, stops, settings, color, mode, m, o),
    ensures
        n == o,
    decreases stops.len(),
{
    if stops.len() > 0 {
        let dab = stop_dab(stops.last(), settings, color, mode);
        let less = stops.drop_last();
        let h = choose|h: Map<(i32, i32), Seq<Rgba32F>>|
            #![trigger dab.lays(kern, brush, h, n)]
            dab.lays(kern, brush, h, n) && is_stroke(
                kern,
                brush,
                less,
                settings,
                color,
                mode,
                m,
                h,
            );
        let k = choose|k: Map<(i32, i32), Seq<Rgba32F>>|
            #![trigger dab.lays(kern, brush, k, o)]
            dab.lays(kern, brush, k, o) && is_stroke(
                kern,
                brush,
                less,
                settings,
                color,
                mode,
                m,
                k,
            );
        strokes_have_one_outcome(kern, brush, less, settings, color, mode, m, h, k);
    }
}

/// The very last sample of a stroke is always stamped.
pub proof fn strokes_end_with_the_last_sample<B: BrushKernel>(
    brush: &B,
    samples: Seq<InputSample>,
    settings: BrushSettings,
)
    requires
        samples.len() > 0,
    ensures
        stops(brush, samples, settings).len() > 0,
        stops(brush, samples, settings).last() == samples.last(),
{
}

/// A stamp leaves the pixels alone that lie no nearer to its center than its radius.
pub proof fn stamps_stay_within_their_radius<K: Kernel, B: BrushKernel>(
    dab: Dab,
    kern: &K,
    brush: &B,
    p: IVec2,
    was: Rgba32F,
)
    requires
        at_most(dab.radius(kern), brush.distance_of(p, dab.center)),
    ensures
        dab.stamped(kern, brush, p, was) == was,
{
}

/// A tip is opaque at its center and transparent from its edge on; a fully hard one
/// is opaque all the way to the edge.
pub proof fn tips_fade_from_center_to_edge<B: BrushKernel>(brush: &B, t: u32, hardness: u32)
    ensures
        at_most(t, F_ZERO) ==> falloff_at(brush, t, hardness) == F_ONE,
        at_most(F_ONE, t) ==> falloff_at(brush, t, hardness) == F_ZERO,
        less(t, F_ONE) && same(hardness, F_ONE) ==> falloff_at(brush, t, hardness) == F_ONE,
{
}

} // verus!
