//! Layer identifiers, blend modes, and the [`Layer`] type.
use vstd::prelude::*;
use vstd::string::*;

use crate::buffer::TiledBuffer;
use crate::coord::IVec2;
use crate::float_bits::{
    clamp01_nan0, from_u32, is_less, less, number_of, rank, unit, F_ONE, F_ZERO,
};
use crate::pixel::Rgba32F;

verus! {

/// Opaque identifier for a layer in a document.
#[derive(Clone, Copy, Debug, PartialEq, Eq, PartialOrd, Ord, Hash, Structural)]
pub struct LayerId {
    /// The identifier's number: the version of its slot above the slot's index.
    pub raw: u64,
}

impl LayerId {
    /// The identifier that no layer ever has.
    pub open spec fn null_spec() -> LayerId {
        LayerId { raw: 0x1_ffff_ffff }
    }

    /// The identifier that no layer ever has.
    pub fn null() -> (id: Self)
        ensures
            id == LayerId::null_spec(),
    {
        LayerId { raw: 0x1_ffff_ffff }
    }
}

/// How a layer's pixels combine with the pixels underneath it.
#[derive(Clone, Copy, Debug, PartialEq, Eq, Structural)]
pub enum BlendMode {
    /// Source pixels replace the destination.
    Normal,
    /// Multiply source and destination channels.
    Multiply,
    /// Invert-multiply: `1 - (1-src)*(1-dst)`.
    Screen,
    /// Multiply or screen depending on destination.
    Overlay,
    /// Keep the darker of source and destination.
    Darken,
    /// Keep the lighter of source and destination.
    Lighten,
    /// Brighten the destination by the source.
    ColorDodge,
    /// Darken the destination by the source.
    ColorBurn,
    /// Hard light: like overlay but with source as the test.
    HardLight,
    /// Soft light: a gentler lighting effect.
    SoftLight,
    /// Absolute difference between source and destination.
    Difference,
    /// Lower-contrast difference.
    Exclusion,
    /// Add source and destination channels.
    Add,
}

impl Default for BlendMode {
    fn default() -> (r: Self)
        ensures
            r == BlendMode::Normal,
    {
        BlendMode::Normal
    }
}

/// The stable name of a blend mode.
pub open spec fn mode_name(m: BlendMode) -> &'static str {
    match m {
        BlendMode::Normal => "normal",
        BlendMode::Multiply => "multiply",
        BlendMode::Screen => "screen",
        BlendMode::Overlay => "overlay",
        BlendMode::Darken => "darken",
        BlendMode::Lighten => "lighten",
        BlendMode::ColorDodge => "color-dodge",
        BlendMode::ColorBurn => "color-burn",
        BlendMode::HardLight => "hard-light",
        BlendMode::SoftLight => "soft-light",
        BlendMode::Difference => "difference",
        BlendMode::Exclusion => "exclusion",
        BlendMode::Add => "add",
    }
}

/// The blend mode that a lower-case name stands for.
pub open spec fn mode_named(s: Seq<char>) -> Option<BlendMode> {
    if s == "normal"@ {
        Some(BlendMode::Normal)
    } else if s == "multiply"@ {
        Some(BlendMode::Multiply)
    } else if s == "screen"@ {
        Some(BlendMode::Screen)
    } else if s == "overlay"@ {
        Some(BlendMode::Overlay)
    } else if s == "darken"@ {
        Some(BlendMode::Darken)
    } else if s == "lighten"@ {
        Some(BlendMode::Lighten)
    } else if s == "color-dodge"@ || s == "colordodge"@ {
        Some(BlendMode::ColorDodge)
    } else if s == "color-burn"@ || s == "colorburn"@ {
        Some(BlendMode::ColorBurn)
    } else if s == "hard-light"@ || s == "hardlight"@ {
        Some(BlendMode::HardLight)
    } else if s == "soft-light"@ || s == "softlight"@ {
        Some(BlendMode::SoftLight)
    } else if s == "difference"@ {
        Some(BlendMode::Difference)
    } else if s == "exclusion"@ {
        Some(BlendMode::Exclusion)
    } else if s == "add"@ {
        Some(BlendMode::Add)
    } else {
        None
    }
}

/// A character with `A` to `Z` mapped to `a` to `z`.
pub open spec fn lower_char(c: char) -> char {
    if 'A' <= c && c <= 'Z' { ((c as u32) + 32) as char } else { c }
}

/// A text with `A` to `Z` mapped to `a` to `z`.
pub open spec fn lowered(s: Seq<char>) -> Seq<char> {
    s.map_values(|c: char| lower_char(c))
}

/// `str::to_ascii_lowercase`: the letters `A` to `Z` become `a` to `z`, every
/// other character stays.
#[verifier::external_body]
fn ascii_lowercase(s: &str) -> (r: String)
    ensures
        r@ == lowered(s@),
{
    s.to_ascii_lowercase()
}

fn is_word(s: &String, w: &str) -> (r: bool)
    ensures
        r == (s@ == w@),
{
    *s == String::from_str(w)
}

impl BlendMode {
    /// Serialize the mode to a stable UI/serialization name.
    pub fn name(self) -> (r: &'static str)
        ensures
            r@ == mode_name(self)@,
    {
        match self {
            BlendMode::Normal => "normal",
            BlendMode::Multiply => "multiply",
            BlendMode::Screen => "screen",
            BlendMode::Overlay => "overlay",
            BlendMode::Darken => "darken",
            BlendMode::Lighten => "lighten",
            BlendMode::ColorDodge => "color-dodge",
            BlendMode::ColorBurn => "color-burn",
            BlendMode::HardLight => "hard-light",
            BlendMode::SoftLight => "soft-light",
            BlendMode::Difference => "difference",
            BlendMode::Exclusion => "exclusion",
            BlendMode::Add => "add",
        }
    }

    /// Parse a mode from its [`BlendMode::name`].
    ///
    /// Matching is case-insensitive and accepts both kebab-case and the variant
    /// spelling.
    pub fn from_name(s: &str) -> (r: Option<Self>)
        ensures
            r == mode_named(lowered(s@)),
    {
        let norm: String = ascii_lowercase(s);
        if is_word(&norm, "normal") {
            Some(BlendMode::Normal)
        } else if is_word(&norm, "multiply") {
            Some(BlendMode::Multiply)
        } else if is_word(&norm, "screen") {
            Some(BlendMode::Screen)
        } else if is_word(&norm, "overlay") {
            Some(BlendMode::Overlay)
        } else if is_word(&norm, "darken") {
            Some(BlendMode::Darken)
        } else if is_word(&norm, "lighten") {
            Some(BlendMode::Lighten)
        } else if is_word(&norm, "color-dodge") || is_word(&norm, "colordodge") {
            Some(BlendMode::ColorDodge)
        } else if is_word(&norm, "color-burn") || is_word(&norm, "colorburn") {
            Some(BlendMode::ColorBurn)
        } else if is_word(&norm, "hard-light") || is_word(&norm, "hardlight") {
            Some(BlendMode::HardLight)
        } else if is_word(&norm, "soft-light") || is_word(&norm, "softlight") {
            Some(BlendMode::SoftLight)
        } else if is_word(&norm, "difference") {
            Some(BlendMode::Difference)
        } else if is_word(&norm, "exclusion") {
            Some(BlendMode::Exclusion)
        } else if is_word(&norm, "add") {
            Some(BlendMode::Add)
        } else {
            None
        }
    }
}

proof fn reveal_mode_words()
    ensures
        "normal"@ == seq!['n', 'o', 'r', 'm', 'a', 'l'],
        "multiply"@ == seq!['m', 'u', 'l', 't', 'i', 'p', 'l', 'y'],
        "screen"@ == seq!['s', 'c', 'r', 'e', 'e', 'n'],
        "overlay"@ == seq!['o', 'v', 'e', 'r', 'l', 'a', 'y'],
        "darken"@ == seq!['d', 'a', 'r', 'k', 'e', 'n'],
        "lighten"@ == seq!['l', 'i', 'g', 'h', 't', 'e', 'n'],
        "color-dodge"@ == seq!['c', 'o', 'l', 'o', 'r', '-', 'd', 'o', 'd', 'g', 'e'],
        "colordodge"@ == seq!['c', 'o', 'l', 'o', 'r', 'd', 'o', 'd', 'g', 'e'],
        "color-burn"@ == seq!['c', 'o', 'l', 'o', 'r', '-', 'b', 'u', 'r', 'n'],
        "colorburn"@ == seq!['c', 'o', 'l', 'o', 'r', 'b', 'u', 'r', 'n'],
        "hard-light"@ == seq!['h', 'a', 'r', 'd', '-', 'l', 'i', 'g', 'h', 't'],
        "hardlight"@ == seq!['h', 'a', 'r', 'd', 'l', 'i', 'g', 'h', 't'],
        "soft-light"@ == seq!['s', 'o', 'f', 't', '-', 'l', 'i', 'g', 'h', 't'],
        "softlight"@ == seq!['s', 'o', 'f', 't', 'l', 'i', 'g', 'h', 't'],
        "difference"@ == seq!['d', 'i', 'f', 'f', 'e', 'r', 'e', 'n', 'c', 'e'],
        "exclusion"@ == seq!['e', 'x', 'c', 'l', 'u', 's', 'i', 'o', 'n'],
        "add"@ == seq!['a', 'd', 'd'],
{
    reveal_strlit("normal");
    reveal_strlit("multiply");
    reveal_strlit("screen");
    reveal_strlit("overlay");
    reveal_strlit("darken");
    reveal_strlit("lighten");
    reveal_strlit("color-dodge");
    reveal_strlit("colordodge");
    reveal_strlit("color-burn");
    reveal_strlit("colorburn");
    reveal_strlit("hard-light");
    reveal_strlit("hardlight");
    reveal_strlit("soft-light");
    reveal_strlit("softlight");
    reveal_strlit("difference");
    reveal_strlit("exclusion");
    reveal_strlit("add");
}

/// Two names that differ in the case of ASCII letters only mean the same mode.
pub proof fn mode_names_ignore_case(s: Seq<char>, t: Seq<char>)
    requires
        s.len() == t.len(),
        forall|i: int| 0 <= i < s.len() ==> lower_char(#[trigger] s[i]) == lower_char(t[i]),
    ensures
        mode_named(lowered(s)) == mode_named(lowered(t)),
{
    assert(lowered(s) =~= lowered(t));
}

/// Parsing the name of a mode gives the mode back.
pub proof fn mode_name_round_trips(m: BlendMode)
    ensures
        mode_named(lowered(mode_name(m)@)) == Some(m),
{
    reveal_mode_words();
    let s = mode_name(m)@;
    assert(forall|i: int| 0 <= i < s.len() ==> !('A' <= #[trigger] s[i] && s[i] <= 'Z'));
    assert(lowered(s) =~= s);
    assert(s.len() > 0);
    assert(m is Normal || s[0] != "normal"@[0]);
}

/// A single input/output point on a curves curve.
#[derive(Clone, Copy, Debug, PartialEq)]
pub struct CurvePoint {
    /// Input channel value in [0, 1].
    pub input: u32,
    /// Output channel value in [0, 1].
    pub output: u32,
}

impl CurvePoint {
    /// Create a new curve point.
    ///
    /// What is no number is treated as `0.0` before clamping to `[0, 1]`.
    pub fn new(input: u32, output: u32) -> (r: Self)
        ensures
            r == (CurvePoint { input: unit(input), output: unit(output) }),
    {
        Self { input: clamp01_nan0(input), output: clamp01_nan0(output) }
    }
}

/// A non-destructive adjustment applied to the accumulated backdrop.
#[derive(Clone, Copy, Debug, PartialEq)]
pub enum AdjustmentKind {
    /// Shift brightness and scale contrast.
    BrightnessContrast {
        /// Brightness offset applied after contrast scaling.
        brightness: u32,
        /// Contrast multiplier applied around the mid-tone.
        contrast: u32,
    },
    /// Invert all RGB channels.
    Invert,
    /// Convert RGB channels to a luminance grayscale.
    Desaturate,
    /// Levels adjustment: remap input black/white points to output points with
    /// a gamma curve on the midtones.
    Levels {
        /// Input black point.
        input_black: u32,
        /// Input white point.
        input_white: u32,
        /// Output black point.
        output_black: u32,
        /// Output white point.
        output_white: u32,
        /// Gamma correction applied to the midtones.
        gamma: u32,
    },
    /// Curves adjustment defined by four sorted control points.
    ///
    /// The first point is anchored at `(0, 0)` and the last at `(1, 1)`; the two
    /// middle points define an S-curve or other tonal remap.
    Curves {
        /// Four control points, sorted by increasing `input`.
        points: [CurvePoint; 4],
    },
    /// Hue/saturation/lightness adjustment.
    HueSat {
        /// Hue shift in degrees.
        hue: u32,
        /// Saturation multiplier.
        saturation: u32,
        /// Lightness offset.
        lightness: u32,
    },
    /// Posterize: quantise each channel to a fixed number of levels.
    Posterize {
        /// Number of discrete levels per channel (at least 2).
        levels: u32,
    },
    /// Threshold: convert to a binary black/white image at a luminance cutoff.
    Threshold {
        /// Luminance cutoff in `0.0..=1.0`; pixels at or above are white.
        level: u32,
    },
    /// Gradient map: remap each pixel's luminance to a position along a
    /// two-colour ramp (duotone).
    GradientMap {
        /// Colour at luminance 0 (shadow).
        fg: Rgba32F,
        /// Colour at luminance 1 (highlight).
        bg: Rgba32F,
    },
}

/// `s`, sorted by input, with `p` put behind every point whose input is not
/// larger.
pub open spec fn insert_point(s: Seq<CurvePoint>, p: CurvePoint) -> Seq<CurvePoint>
    decreases s.len(),
{
    if s.len() == 0 {
        seq![p]
    } else if less(p.input, s.last().input) {
        insert_point(s.drop_last(), p).push(s.last())
    } else {
        s.push(p)
    }
}

/// The points in order of input; points with equal inputs keep their order.
pub open spec fn sort_points(s: Seq<CurvePoint>) -> Seq<CurvePoint>
    decreases s.len(),
{
    if s.len() == 0 {
        s
    } else {
        insert_point(sort_points(s.drop_last()), s.last())
    }
}

/// Every point's input comes no later than that of the points behind it.
pub open spec fn points_ordered(s: Seq<CurvePoint>) -> bool {
    forall|i: int, j: int|
        0 <= i < j < s.len() ==> rank((#[trigger] s[i]).input) <= rank((#[trigger] s[j]).input)
}

/// Every input is a number.
spec fn points_numeric(s: Seq<CurvePoint>) -> bool {
    forall|i: int| 0 <= i < s.len() ==> !crate::float_bits::nan((#[trigger] s[i]).input)
}

proof fn lemma_insert_point(s: Seq<CurvePoint>, p: CurvePoint)
    requires
        points_ordered(s),
        points_numeric(s),
        !crate::float_bits::nan(p.input),
    ensures
        insert_point(s, p).len() == s.len() + 1,
        points_ordered(insert_point(s, p)),
        points_numeric(insert_point(s, p)),
        insert_point(s, p).to_multiset() == s.to_multiset().insert(p),
        s.len() > 0 ==> rank(insert_point(s, p).last().input) == (if less(
            p.input,
            s.last().input,
        ) {
            rank(s.last().input)
        } else {
            rank(p.input)
        }),
    decreases s.len(),
{
    broadcast use vstd::seq_lib::group_to_multiset_ensures;

    if s.len() > 0 {
        assert(s =~= s.drop_last().push(s.last()));
        if less(p.input, s.last().input) {
            lemma_insert_point(s.drop_last(), p);
            let a = insert_point(s.drop_last(), p);
            assert forall|i: int, j: int| 0 <= i < j < a.push(s.last()).len() implies rank(
                (#[trigger] a.push(s.last())[i]).input,
            ) <= rank((#[trigger] a.push(s.last())[j]).input) by {
                if j == a.len() {
                    assert(rank(a[i].input) <= rank(a.last().input) || i == a.len() - 1);
                    if s.drop_last().len() > 0 {
                        assert(rank(s.drop_last().last().input) <= rank(s.last().input));
                    } else {
                        assert(a =~= seq![p]);
                    }
                }
            }
            assert(a.push(s.last()).to_multiset() =~= s.to_multiset().insert(p));
        }
    } else {
        assert(seq![p] =~= s.push(p));
    }
}

/// Sorting keeps the points and orders them.
pub proof fn sorted_points_are_ordered(s: Seq<CurvePoint>)
    requires
        forall|i: int| 0 <= i < s.len() ==> !crate::float_bits::nan((#[trigger] s[i]).input),
    ensures
        sort_points(s).len() == s.len(),
        points_ordered(sort_points(s)),
        sort_points(s).to_multiset() == s.to_multiset(),
{
    lemma_sort_points(s);
}

proof fn lemma_sort_points(s: Seq<CurvePoint>)
    requires
        points_numeric(s),
    ensures
        sort_points(s).len() == s.len(),
        points_ordered(sort_points(s)),
        points_numeric(sort_points(s)),
        sort_points(s).to_multiset() == s.to_multiset(),
    decreases s.len(),
{
    broadcast use vstd::seq_lib::group_to_multiset_ensures;

    if s.len() > 0 {
        lemma_sort_points(s.drop_last());
        lemma_insert_point(sort_points(s.drop_last()), s.last());
        assert(s =~= s.drop_last().push(s.last()));
    }
}

/// Puts `p` into a sorted list of points, behind the points that come no later.
fn insert_curve_point(v: &mut Vec<CurvePoint>, p: CurvePoint)
    requires
        old(v)@.len() < 4,
    ensures
        final(v)@ == insert_point(old(v)@, p),
        final(v)@.len() == old(v)@.len() + 1,
{
    let mut rest: Vec<CurvePoint> = Vec::new();
    let ghost s = v@;
    while v.len() > 0 && is_less(p.input, v[v.len() - 1].input)
        invariant
            v@.len() + rest@.len() == s.len(),
            v@ == s.take(v@.len() as int),
            rest@ == s.skip(v@.len() as int).reverse(),
            insert_point(s, p) == insert_point(v@, p) + rest@.reverse(),
        decreases v@.len(),
    {
        let ghost before = v@;
        let ghost tail = rest@;
        let q: CurvePoint = v.pop().unwrap();
        rest.push(q);
        proof {
            assert(before.drop_last() =~= v@);
            assert(rest@.reverse() =~= seq![q] + tail.reverse());
            assert(insert_point(before, p) + tail.reverse() =~= insert_point(v@, p)
                + rest@.reverse());
            assert(v@ =~= s.take(v@.len() as int));
            assert(rest@ =~= s.skip(v@.len() as int).reverse());
        }
    }
    let ghost head = v@;
    v.push(p);
    proof {
        if head.len() == 0 {
            assert(v@ =~= insert_point(head, p));
        }
        assert(rest@.reverse() == rest@.reverse());
    }
    let ghost all = rest@;
    while rest.len() > 0
        invariant
            v@ + rest@.reverse() == insert_point(s, p),
            v@.len() + rest@.len() == s.len() + 1,
        decreases rest@.len(),
    {
        let ghost before = rest@;
        let ghost front = v@;
        let q: CurvePoint = rest.pop().unwrap();
        v.push(q);
        proof {
            assert(before.reverse() =~= seq![q] + rest@.reverse());
            assert(v@ + rest@.reverse() =~= front + before.reverse());
        }
    }
    assert(v@ + rest@.reverse() =~= v@);
}

/// The points of a curves adjustment: sanitised, in order of input, with the
/// ends anchored at `(0, 0)` and `(1, 1)`.
pub open spec fn curve_points(points: Seq<(u32, u32)>) -> Seq<CurvePoint> {
    let s = sort_points(
        points.map_values(
            |p: (u32, u32)| (CurvePoint { input: unit(p.0), output: unit(p.1) }),
        ),
    );
    s.update(0, CurvePoint { input: F_ZERO, output: F_ZERO }).update(
        3,
        CurvePoint { input: F_ONE, output: F_ONE },
    )
}

impl AdjustmentKind {
    /// Build a curves adjustment from four control points, sorting and clamping
    /// them automatically.
    pub fn curves(points: [(u32, u32); 4]) -> (r: Self)
        ensures
            r matches AdjustmentKind::Curves { points: pts } && pts@ == curve_points(points@),
    {
        let mut v: Vec<CurvePoint> = Vec::new();
        let ghost raw = points@.map_values(
            |p: (u32, u32)| (CurvePoint { input: unit(p.0), output: unit(p.1) }),
        );
        let mut i: usize = 0;
        assert(raw.take(0) =~= Seq::empty());
        while i < 4
            invariant
                i <= 4,
                raw == points@.map_values(
                    |p: (u32, u32)| (CurvePoint { input: unit(p.0), output: unit(p.1) }),
                ),
                points@.len() == 4,
                v@ == sort_points(raw.take(i as int)),
                v@.len() == i,
            decreases 4 - i,
        {
            let p: (u32, u32) = points[i];
            insert_curve_point(&mut v, CurvePoint::new(p.0, p.1));
            assert(raw.take(i + 1).drop_last() =~= raw.take(i as int));
            assert(raw.take(i + 1).last() == raw[i as int]);
            i = i + 1;
        }
        assert(raw.take(4) =~= raw);
        let pts: [CurvePoint; 4] = [
            CurvePoint { input: F_ZERO, output: F_ZERO },
            v[1],
            v[2],
            CurvePoint { input: F_ONE, output: F_ONE },
        ];
        assert(pts@ =~= curve_points(points@));
        AdjustmentKind::Curves { points: pts }
    }
}

/// Fill style for a [`VectorPath`].
#[derive(Clone, Copy, Debug, PartialEq)]
pub enum VectorFill {
    /// No fill.
    NoFill,
    /// Solid color fill.
    Solid(Rgba32F),
}

/// Line cap style for a vector stroke.
#[derive(Clone, Copy, Debug, PartialEq, Eq, Structural)]
pub enum StrokeCap {
    /// Flat cap at the line endpoint.
    Butt,
    /// Rounded cap.
    Round,
    /// Square cap extending past the endpoint.
    Square,
}

/// Line join style for a vector stroke.
#[derive(Clone, Copy, Debug, PartialEq, Eq, Structural)]
pub enum StrokeJoin {
    /// Sharp mitered join.
    Miter,
    /// Rounded join.
    Round,
    /// Beveled join.
    Bevel,
}

/// Stroke style for a [`VectorPath`].
#[derive(Debug, PartialEq)]
pub struct VectorStroke {
    /// Stroke color.
    pub color: Rgba32F,
    /// Stroke width in pixels.
    pub width: u32,
    /// Dash pattern as alternating on/off lengths in pixels.
    pub dash: Vec<u32>,
    /// Line cap style.
    pub cap: StrokeCap,
    /// Line join style.
    pub join: StrokeJoin,
}

/// Flattened vector path for non-destructive vector layers.
#[derive(Debug, PartialEq)]
pub struct VectorPath {
    /// Flattened polygon vertices (layer-local space).
    pub vertices: Vec<IVec2>,
    /// Fill style.
    pub fill: VectorFill,
    /// Stroke style.
    pub stroke: VectorStroke,
    /// Whether the path is closed (last vertex connects to first).
    pub closed: bool,
}

/// A vector path as the first file format stored it: always filled, with a plain
/// stroke of whole width.
#[derive(Debug)]
pub struct VectorPathV1 {
    /// Flattened polygon vertices (layer-local space).
    pub vertices: Vec<IVec2>,
    /// Fill color.
    pub fill: Rgba32F,
    /// Stroke color.
    pub stroke: Rgba32F,
    /// Stroke width in pixels.
    pub stroke_width: u32,
    /// Whether the path is closed.
    pub closed: bool,
}

impl VectorPath {
    /// The path that a path of the first file format stands for.
    pub fn from(v1: VectorPathV1) -> (r: Self)
        ensures
            r.vertices == v1.vertices,
            r.fill == VectorFill::Solid(v1.fill),
            r.stroke.color == v1.stroke,
            r.stroke.width == number_of(v1.stroke_width as nat),
            r.stroke.dash@ == Seq::<u32>::empty(),
            r.stroke.cap == StrokeCap::Butt,
            r.stroke.join == StrokeJoin::Miter,
            r.closed == v1.closed,
    {
        VectorPath {
            vertices: v1.vertices,
            fill: VectorFill::Solid(v1.fill),
            stroke: VectorStroke {
                color: v1.stroke,
                width: from_u32(v1.stroke_width),
                dash: Vec::new(),
                cap: StrokeCap::Butt,
                join: StrokeJoin::Miter,
            },
            closed: v1.closed,
        }
    }
}

/// Original SVG document fragment preserved for re-rasterization of SVG-backed
/// vector layers.
#[derive(Debug, PartialEq)]
pub struct SvgSource {
    /// Full SVG document bytes (UTF-8 XML).
    pub source_bytes: Vec<u8>,
    /// Optional element id that this layer represents. Empty means the whole
    /// document.
    pub element_id: String,
}

/// Non-destructive vector layer content: flattened paths, optional
/// pre-rasterized content (text glyphs or imported SVG pixels), and an optional
/// preserved SVG source for re-rasterization. The `version` field is the dirty
/// flag for the compositor's on-demand rasterization cache.
pub struct VectorData {
    /// Flattened vector paths.
    pub paths: Vec<VectorPath>,
    /// Pre-rasterized content (e.g., text glyphs) in layer-local space.
    pub rasterized: Option<TiledBuffer>,
    /// Optional SVG source preserved for re-rasterization.
    pub svg_source: Option<SvgSource>,
    /// Monotonic version counter; bump to force re-rasterization.
    pub version: u64,
}

/// What a vector path is, as mathematical values.
pub struct PathView {
    /// The polygon vertices.
    pub vertices: Seq<IVec2>,
    /// The fill style.
    pub fill: VectorFill,
    /// The stroke color.
    pub color: Rgba32F,
    /// The stroke width.
    pub width: u32,
    /// The dash pattern.
    pub dash: Seq<u32>,
    /// The cap style.
    pub cap: StrokeCap,
    /// The join style.
    pub join: StrokeJoin,
    /// Whether the path is closed.
    pub closed: bool,
}

/// What vector data is, as mathematical values.
pub struct VectorView {
    /// The paths.
    pub paths: Seq<PathView>,
    /// The tiles of the pre-rasterized content.
    pub rasterized: Option<Map<(i32, i32), Seq<Rgba32F>>>,
    /// The bytes and element of the SVG source.
    pub svg_source: Option<(Seq<u8>, Seq<char>)>,
    /// The version counter.
    pub version: u64,
}

impl View for VectorPath {
    type V = PathView;

    open spec fn view(&self) -> PathView {
        PathView {
            vertices: self.vertices@,
            fill: self.fill,
            color: self.stroke.color,
            width: self.stroke.width,
            dash: self.stroke.dash@,
            cap: self.stroke.cap,
            join: self.stroke.join,
            closed: self.closed,
        }
    }
}

impl View for VectorData {
    type V = VectorView;

    open spec fn view(&self) -> VectorView {
        VectorView {
            paths: self.paths@.map_values(|p: VectorPath| p@),
            rasterized: buffer_view(self.rasterized),
            svg_source: match self.svg_source {
                Some(s) => Some((s.source_bytes@, s.element_id@)),
                None => None,
            },
            version: self.version,
        }
    }
}

/// The tiles of a buffer that may be missing.
pub open spec fn buffer_view(b: Option<TiledBuffer>) -> Option<Map<(i32, i32), Seq<Rgba32F>>> {
    match b {
        Some(x) => Some(x@),
        None => None,
    }
}

/// A buffer that may be missing is well formed.
pub open spec fn buffer_wf(b: Option<TiledBuffer>) -> bool {
    b matches Some(x) ==> x.wf()
}

/// A copy of a buffer that may be missing.
pub fn clone_buffer(b: &Option<TiledBuffer>) -> (r: Option<TiledBuffer>)
    ensures
        buffer_view(r) == buffer_view(*b),
        buffer_wf(*b) ==> buffer_wf(r),
{
    match b {
        Some(x) => Some(x.clone()),
        None => None,
    }
}

fn copy_vec<T: Copy>(v: &Vec<T>) -> (r: Vec<T>)
    ensures
        r@ == v@,
{
    let mut r: Vec<T> = Vec::with_capacity(v.len());
    let mut i: usize = 0;
    while i < v.len()
        invariant
            i <= v@.len(),
            r@ == v@.take(i as int),
        decreases v@.len() - i,
    {
        r.push(v[i]);
        assert(r@ =~= v@.take(i + 1));
        i = i + 1;
    }
    assert(r@ =~= v@);
    r
}

impl Clone for VectorStroke {
    fn clone(&self) -> (r: Self)
        ensures
            r.color == self.color,
            r.width == self.width,
            r.dash@ == self.dash@,
            r.cap == self.cap,
            r.join == self.join,
    {
        VectorStroke {
            color: self.color,
            width: self.width,
            dash: copy_vec(&self.dash),
            cap: self.cap,
            join: self.join,
        }
    }
}

impl Clone for VectorPath {
    fn clone(&self) -> (r: Self)
        ensures
            r@ == self@,
    {
        VectorPath {
            vertices: copy_vec(&self.vertices),
            fill: self.fill,
            stroke: self.stroke.clone(),
            closed: self.closed,
        }
    }
}

impl Clone for SvgSource {
    fn clone(&self) -> (r: Self)
        ensures
            r.source_bytes@ == self.source_bytes@,
            r.element_id@ == self.element_id@,
    {
        SvgSource { source_bytes: copy_vec(&self.source_bytes), element_id: self.element_id.clone() }
    }
}

impl Clone for VectorData {
    fn clone(&self) -> (r: Self)
        ensures
            r@ == self@,
            self.wf() ==> r.wf(),
    {
        let mut paths: Vec<VectorPath> = Vec::with_capacity(self.paths.len());
        let mut i: usize = 0;
        while i < self.paths.len()
            invariant
                i <= self.paths@.len(),
                paths@.map_values(|p: VectorPath| p@) == self.paths@.take(i as int).map_values(
                    |p: VectorPath| p@,
                ),
                paths@.len() == i,
            decreases self.paths@.len() - i,
        {
            let ghost before = paths@;
            paths.push(self.paths[i].clone());
            proof {
                let f = |p: VectorPath| p@;
                assert(paths@.map_values(f) =~= before.map_values(f).push(
                    self.paths@[i as int]@,
                ));
                assert(self.paths@.take(i + 1).map_values(f) =~= self.paths@.take(
                    i as int,
                ).map_values(f).push(self.paths@[i as int]@));
            }
            i = i + 1;
        }
        assert(self.paths@.take(i as int) =~= self.paths@);
        VectorData {
            paths,
            rasterized: clone_buffer(&self.rasterized),
            svg_source: match &self.svg_source {
                Some(s) => Some(s.clone()),
                None => None,
            },
            version: self.version,
        }
    }
}

impl Default for VectorData {
    fn default() -> (r: Self)
        ensures
            r.wf(),
            r@ == (VectorView {
                paths: Seq::empty(),
                rasterized: None,
                svg_source: None,
                version: 0,
            }),
    {
        VectorData::new()
    }
}

impl VectorData {
    /// The pre-rasterized content is well formed.
    pub open spec fn wf(&self) -> bool {
        buffer_wf(self.rasterized)
    }

    /// Create empty vector data.
    pub fn new() -> (r: Self)
        ensures
            r.wf(),
            r@ == (VectorView {
                paths: Seq::empty(),
                rasterized: None,
                svg_source: None,
                version: 0,
            }),
    {
        let r = VectorData { paths: Vec::new(), rasterized: None, svg_source: None, version: 0 };
        assert(r@.paths =~= Seq::empty());
        r
    }

    /// Bump the version, marking the data as dirty for the compositor cache.
    pub fn mark_dirty(&mut self)
        requires
            old(self).wf(),
        ensures
            final(self).wf(),
            final(self)@ == (VectorView {
                version: next_version(old(self).version),
                ..old(self)@
            }),
    {
        self.version = self.version.wrapping_add(1);
    }
}

/// The version after `v`; the counter wraps around.
pub open spec fn next_version(v: u64) -> u64 {
    if v == u64::MAX { 0 } else { (v + 1) as u64 }
}

/// The concrete contents of a layer.
pub enum LayerContent {
    /// A raster layer owns a pixel buffer and an optional layer mask.
    ///
    /// The mask, if present, stores coverage in its red channel.
    Raster {
        /// The pixel data for this layer, in layer-local space.
        buffer: TiledBuffer,
        /// Optional per-pixel mask coverage.
        mask: Option<TiledBuffer>,
    },
    /// A group layer owns an ordered list of child layers.
    ///
    /// Children are stored bottom-to-top within the group.
    Group {
        /// Child layer identifiers, bottom-to-top.
        children: Vec<LayerId>,
    },
    /// An adjustment layer transforms the backdrop already accumulated below
    /// it, rather than holding any pixels of its own.
    Adjustment(AdjustmentKind),
    /// A non-destructive vector layer holds flattened paths that the compositor
    /// rasterizes on the fly.
    Vector(Box<VectorData>),
}

/// What the contents of a layer are, as mathematical values.
pub enum ContentView {
    /// Pixels and an optional mask.
    Raster {
        /// The tiles of the pixels.
        buffer: Map<(i32, i32), Seq<Rgba32F>>,
        /// The tiles of the mask.
        mask: Option<Map<(i32, i32), Seq<Rgba32F>>>,
    },
    /// The children, bottom to top.
    Group(Seq<LayerId>),
    /// An adjustment.
    Adjustment(AdjustmentKind),
    /// Vector data.
    Vector(VectorView),
}

impl View for LayerContent {
    type V = ContentView;

    open spec fn view(&self) -> ContentView {
        match *self {
            LayerContent::Raster { buffer, mask } => ContentView::Raster {
                buffer: buffer@,
                mask: buffer_view(mask),
            },
            LayerContent::Group { children } => ContentView::Group(children@),
            LayerContent::Adjustment(k) => ContentView::Adjustment(k),
            LayerContent::Vector(data) => ContentView::Vector(data@),
        }
    }
}

impl LayerContent {
    /// Every buffer of the contents is well formed.
    pub open spec fn wf(&self) -> bool {
        match *self {
            LayerContent::Raster { buffer, mask } => buffer.wf() && buffer_wf(mask),
            LayerContent::Group { children } => true,
            LayerContent::Adjustment(k) => true,
            LayerContent::Vector(data) => data.wf(),
        }
    }
}

impl Clone for LayerContent {
    fn clone(&self) -> (r: Self)
        ensures
            r@ == self@,
            self.wf() ==> r.wf(),
    {
        match self {
            LayerContent::Raster { buffer, mask } => LayerContent::Raster {
                buffer: buffer.clone(),
                mask: clone_buffer(mask),
            },
            LayerContent::Group { children } => LayerContent::Group {
                children: copy_vec(children),
            },
            LayerContent::Adjustment(k) => LayerContent::Adjustment(*k),
            LayerContent::Vector(data) => {
                let d: VectorData = (&**data).clone();
                LayerContent::Vector(Box::new(d))
            },
        }
    }
}

/// A single layer in a document.
pub struct Layer {
    /// Stable identifier assigned by the document.
    pub id: LayerId,
    /// Human-readable layer name.
    pub name: String,
    /// Offset from document origin to layer-local origin.
    ///
    /// Document coordinates map to layer-local coordinates as
    /// `local = doc - offset`.
    pub offset: IVec2,
    /// Layer opacity, nominally in the range `0.0..=1.0`.
    pub opacity: u32,
    /// Blend mode used when compositing this layer over the result below it.
    pub blend: BlendMode,
    /// Whether the layer is visible in the canvas.
    pub visible: bool,
    /// Whether the layer is locked against edits.
    pub locked: bool,
    /// The actual content of this layer.
    pub content: LayerContent,
}

/// What a layer is, as mathematical values.
pub struct LayerView {
    /// The identifier.
    pub id: LayerId,
    /// The name.
    pub name: Seq<char>,
    /// The offset from document origin to layer-local origin.
    pub offset: IVec2,
    /// The opacity.
    pub opacity: u32,
    /// The blend mode.
    pub blend: BlendMode,
    /// Whether the layer is visible.
    pub visible: bool,
    /// Whether the layer is locked.
    pub locked: bool,
    /// The contents.
    pub content: ContentView,
}

impl View for Layer {
    type V = LayerView;

    open spec fn view(&self) -> LayerView {
        LayerView {
            id: self.id,
            name: self.name@,
            offset: self.offset,
            opacity: self.opacity,
            blend: self.blend,
            visible: self.visible,
            locked: self.locked,
            content: self.content@,
        }
    }
}

impl Clone for Layer {
    fn clone(&self) -> (r: Self)
        ensures
            r@ == self@,
            self.wf() ==> r.wf(),
    {
        Layer {
            id: self.id,
            name: self.name.clone(),
            offset: self.offset,
            opacity: self.opacity,
            blend: self.blend,
            visible: self.visible,
            locked: self.locked,
            content: self.content.clone(),
        }
    }
}

/// A layer as it is made: no identifier yet, at the origin, opaque, with normal
/// blending, visible and unlocked.
pub open spec fn fresh_layer(name: Seq<char>, content: ContentView) -> LayerView {
    LayerView {
        id: LayerId::null_spec(),
        name,
        offset: IVec2 { x: 0, y: 0 },
        opacity: F_ONE,
        blend: BlendMode::Normal,
        visible: true,
        locked: false,
        content,
    }
}

impl Layer {
    /// Every buffer of the layer is well formed.
    pub open spec fn wf(&self) -> bool {
        self.content.wf()
    }

    fn with_content(name: &str, content: LayerContent) -> (r: Self)
        requires
            content.wf(),
        ensures
            r.wf(),
            r@ == fresh_layer(name@, content@),
    {
        Layer {
            id: LayerId::null(),
            name: String::from_str(name),
            offset: IVec2::zero(),
            opacity: F_ONE,
            blend: BlendMode::Normal,
            visible: true,
            locked: false,
            content,
        }
    }

    /// Create a new empty raster layer with the given name.
    ///
    /// The new layer has a placeholder [`LayerId`]; the real id is assigned by
    /// the document when the layer is inserted. It also has zero offset, full
    /// opacity, normal blending, is visible, unlocked, and holds an empty buffer
    /// with no mask.
    pub fn new_raster(name: &str) -> (r: Self)
        ensures
            r.wf(),
            r@ == fresh_layer(
                name@,
                ContentView::Raster { buffer: Map::empty(), mask: None },
            ),
    {
        Self::with_content(name, LayerContent::Raster { buffer: TiledBuffer::new(), mask: None })
    }

    /// Create a new empty group layer with the given name.
    ///
    /// As with [`Layer::new_raster`], the layer's [`LayerId`] is overwritten
    /// by the document on insertion.
    pub fn new_group(name: &str) -> (r: Self)
        ensures
            r.wf(),
            r@ == fresh_layer(name@, ContentView::Group(Seq::empty())),
    {
        Self::with_content(name, LayerContent::Group { children: Vec::new() })
    }

    /// Create a new adjustment layer with the given name and kind.
    ///
    /// As with [`Layer::new_raster`], the layer's [`LayerId`] is overwritten
    /// by the document on insertion.
    pub fn new_adjustment(name: &str, kind: AdjustmentKind) -> (r: Self)
        ensures
            r.wf(),
            r@ == fresh_layer(name@, ContentView::Adjustment(kind)),
    {
        Self::with_content(name, LayerContent::Adjustment(kind))
    }

    /// Create a new vector layer with the given name and data.
    pub fn new_vector(name: &str, data: VectorData) -> (r: Self)
        requires
            data.wf(),
        ensures
            r.wf(),
            r@ == fresh_layer(name@, ContentView::Vector(data@)),
    {
        Self::with_content(name, LayerContent::Vector(Box::new(data)))
    }

    /// Access the vector data if this is a vector layer.
    pub fn vector_data(&self) -> (r: Option<&VectorData>)
        ensures
            r is Some <==> self.content is Vector,
            r matches Some(d) ==> self.content matches LayerContent::Vector(b) && *d == *b,
    {
        match &self.content {
            LayerContent::Vector(data) => Some(&**data),
            _ => None,
        }
    }

    /// Mutably access the vector data if this is a vector layer.
    pub fn vector_data_mut(&mut self) -> (r: Option<&mut VectorData>)
        ensures
            r is Some <==> old(self).content is Vector,
            r matches Some(d) ==> (old(self).content matches LayerContent::Vector(b) && *d == *b) && *final(self)
                == (Layer { content: LayerContent::Vector(Box::new(*final(d))), ..*old(self) }),
            r is None ==> *final(self) == *old(self),
    {
        match &mut self.content {
            LayerContent::Vector(data) => Some(&mut **data),
            _ => None,
        }
    }

    /// Access the raster buffer if this is a raster layer.
    pub fn buffer(&self) -> (r: Option<&TiledBuffer>)
        ensures
            r is Some <==> self.content is Raster,
            r matches Some(b) ==> self.content matches LayerContent::Raster { buffer, mask } && *b
                == buffer,
    {
        match &self.content {
            LayerContent::Raster { buffer, .. } => Some(buffer),
            _ => None,
        }
    }

    /// Mutably access the raster buffer if this is a raster layer.
    pub fn buffer_mut(&mut self) -> (r: Option<&mut TiledBuffer>)
        ensures
            r is Some <==> old(self).content is Raster,
            r matches Some(b) ==> (old(self).content matches LayerContent::Raster { buffer, mask }
                && *b == buffer && *final(self) == (Layer {
                content: LayerContent::Raster { buffer: *final(b), mask },
                ..*old(self)
            })),
            r is None ==> *final(self) == *old(self),
    {
        match &mut self.content {
            LayerContent::Raster { buffer, .. } => Some(buffer),
            _ => None,
        }
    }

    /// Access the raster mask if this is a raster layer with a mask.
    pub fn mask(&self) -> (r: Option<&TiledBuffer>)
        ensures
            r is Some <==> (self.content matches LayerContent::Raster { buffer, mask } && mask is Some),
            r matches Some(m) ==> self.content matches LayerContent::Raster { buffer, mask }
                && mask == Some(*m),
    {
        match &self.content {
            LayerContent::Raster { mask: Some(m), .. } => Some(m),
            _ => None,
        }
    }

    /// Mutably access the raster mask if this is a raster layer with a mask.
    pub fn mask_mut(&mut self) -> (r: Option<&mut TiledBuffer>)
        ensures
            r is Some <==> (old(self).content matches LayerContent::Raster { buffer, mask }
                && mask is Some),
            r matches Some(m) ==> (old(self).content matches LayerContent::Raster { buffer, mask }
                && mask == Some(*m) && *final(self) == (Layer {
                content: LayerContent::Raster { buffer, mask: Some(*final(m)) },
                ..*old(self)
            })),
            r is None ==> *final(self) == *old(self),
    {
        match &mut self.content {
            LayerContent::Raster { mask: Some(m), .. } => Some(m),
            _ => None,
        }
    }

    /// Set or clear the raster mask. No effect on non-raster layers.
    pub fn set_mask(&mut self, mask: Option<TiledBuffer>)
        ensures
            match old(self).content {
                LayerContent::Raster { buffer, mask: before } => *final(self) == (Layer {
                    content: LayerContent::Raster { buffer, mask },
                    ..*old(self)
                }),
                _ => *final(self) == *old(self),
            },
    {
        match &mut self.content {
            LayerContent::Raster { mask: slot, .. } => {
                *slot = mask;
            },
            _ => {},
        }
    }

    /// True if this layer holds raster pixels.
    pub fn is_raster(&self) -> (r: bool)
        ensures
            r == (self.content is Raster),
    {
        matches!(self.content, LayerContent::Raster { .. })
    }

    /// True if this layer is a non-destructive vector layer.
    pub fn is_vector(&self) -> (r: bool)
        ensures
            r == (self.content is Vector),
    {
        matches!(self.content, LayerContent::Vector(_))
    }
}

} // verus!
