#![allow(dead_code)]
use ogre_core::Rgba32F as Pixel;
use ogre_core::{
    BinaryOp, DEFAULT_MATTE_TOLERANCE, FloatKernel, FloatMath, IVec2, MatteOptions, Rect,
    TiledBuffer, UnaryOp, WholeOp,
};

/// A pixel with its channels as numbers.
#[derive(Clone, Copy, Debug, PartialEq)]
struct Rgba32F {
    r: f32,
    g: f32,
    b: f32,
    a: f32,
}

impl Rgba32F {
    const TRANSPARENT: Rgba32F = Rgba32F { r: 0.0, g: 0.0, b: 0.0, a: 0.0 };

    fn new(r: f32, g: f32, b: f32, a: f32) -> Self {
        Rgba32F { r, g, b, a }
    }

    fn bits(self) -> Pixel {
        Pixel::new(self.r.to_bits(), self.g.to_bits(), self.b.to_bits(), self.a.to_bits())
    }
}

fn up(p: Pixel) -> Rgba32F {
    Rgba32F::new(f(p.r), f(p.g), f(p.b), f(p.a))
}

fn b(v: f32) -> u32 {
    v.to_bits()
}

fn f(v: u32) -> f32 {
    f32::from_bits(v)
}

/// Pixels as numbers.
trait Pixels {
    fn look(&self, p: IVec2) -> Rgba32F;
    fn put(&mut self, p: IVec2, c: Rgba32F);
    fn rect(&self, r: Rect) -> Vec<Rgba32F>;
}

impl Pixels for TiledBuffer {
    fn look(&self, p: IVec2) -> Rgba32F {
        up(self.get_pixel(p))
    }

    fn put(&mut self, p: IVec2, c: Rgba32F) {
        self.set_pixel(p, c.bits());
    }

    fn rect(&self, r: Rect) -> Vec<Rgba32F> {
        self.read_rect(r).into_iter().map(up).collect()
    }
}

type Math = FloatMath<
    fn(BinaryOp, u32, u32) -> u32,
    fn(UnaryOp, u32) -> u32,
    fn(WholeOp, u32) -> i32,
    fn(&Vec<u32>) -> u32,
>;

fn binary(op: BinaryOp, x: u32, y: u32) -> u32 {
    let (x, y) = (f32::from_bits(x), f32::from_bits(y));
    let r = match op {
        BinaryOp::Add => x + y,
        BinaryOp::Sub => x - y,
        BinaryOp::Mul => x * y,
        BinaryOp::Div => x / y,
        BinaryOp::Pow => x.powf(y),
        BinaryOp::RemEuclid => x.rem_euclid(y),
        BinaryOp::Atan2 => x.atan2(y),
    };
    r.to_bits()
}

fn unary(op: UnaryOp, x: u32) -> u32 {
    let x = f32::from_bits(x);
    let r = match op {
        UnaryOp::Sqrt => x.sqrt(),
        UnaryOp::Round => x.round(),
    };
    r.to_bits()
}

fn whole(op: WholeOp, x: u32) -> i32 {
    let x = f32::from_bits(x);
    match op {
        WholeOp::Floor => x.floor() as i32,
        WholeOp::Ceil => x.ceil() as i32,
    }
}

fn mean(numbers: &Vec<u32>) -> u32 {
    let sum: f64 = numbers.iter().map(|n| f32::from_bits(*n) as f64).sum();
    ((sum / numbers.len() as f64) as f32).to_bits()
}

fn math() -> Math {
    FloatMath { binary, unary, whole, mean }
}

fn kern() -> FloatKernel<Math> {
    FloatKernel { math: math() }
}

fn px(r: f32, g: f32, b: f32, a: f32) -> Rgba32F {
    Rgba32F::new(r, g, b, a)
}

/// Straight-alpha "over" against an opaque background.
fn over(fg: Rgba32F, bg: Rgba32F) -> Rgba32F {
    Rgba32F::new(
        fg.r * fg.a + bg.r * (1.0 - fg.a),
        fg.g * fg.a + bg.g * (1.0 - fg.a),
        fg.b * fg.a + bg.b * (1.0 - fg.a),
        1.0,
    )
}

fn close(a: Rgba32F, b: Rgba32F, eps: f32) -> bool {
    (a.r - b.r).abs() <= eps
        && (a.g - b.g).abs() <= eps
        && (a.b - b.b).abs() <= eps
        && (a.a - b.a).abs() <= eps
}

// Lossless round-trip — the core guarantee.

#[test]
fn unmix_recomposite_reproduces_original() {
    let mut state: u64 = 7;
    let mut next = || {
        state = state.wrapping_mul(6364136223846793005).wrapping_add(1442695040888963407);
        ((state >> 40) as f32) / ((1u64 << 24) as f32)
    };
    for _ in 0..500 {
        let key = px(next(), next(), next(), 1.0);
        let fg = px(next(), next(), next(), next());
        let original = over(fg, key); // flatten subject over matte
        let lifted = unmix(original, key); // lift back to alpha
        let recomposited = over(lifted, key); // re-flatten over the same matte
        assert!(
            close(original, recomposited, 1e-4),
            "orig {:?} != recomposite {:?}",
            original,
            recomposited
        );
    }
}

#[test]
fn unmix_exact_key_is_transparent() {
    assert_eq!(
        unmix(px(1.0, 1.0, 1.0, 1.0), px(1.0, 1.0, 1.0, 1.0)),
        Rgba32F::TRANSPARENT
    );
    assert_eq!(
        unmix(px(0.5, 0.5, 0.5, 1.0), px(0.5, 0.5, 0.5, 1.0)),
        Rgba32F::TRANSPARENT
    );
}

#[test]
fn unmix_opaque_subject_stays_opaque() {
    // Pure black over white is fully opaque black.
    let out = unmix(px(0.0, 0.0, 0.0, 1.0), px(1.0, 1.0, 1.0, 1.0));
    assert!(close(out, px(0.0, 0.0, 0.0, 1.0), 1e-6));
}

#[test]
fn unmix_half_edge_recovers_half_alpha() {
    // Red at 50% over white = (1.0, 0.5, 0.5). Unmix vs white -> ~50% red.
    let edge = over(px(1.0, 0.0, 0.0, 0.5), px(1.0, 1.0, 1.0, 1.0));
    let out = unmix(edge, px(1.0, 1.0, 1.0, 1.0));
    assert!((out.a - 0.5).abs() <= 1e-4, "alpha {}", out.a);
    assert!(close(over(out, px(1.0, 1.0, 1.0, 1.0)), edge, 1e-4));
}

#[test]
fn unmix_guards_hdr_overshoot() {
    let out = unmix(px(1.5, 0.2, 0.2, 1.0), px(1.0, 1.0, 1.0, 1.0));
    assert!(out.r.is_finite() && out.g.is_finite() && out.b.is_finite() && out.a.is_finite());
}

#[test]
fn unmix_hdr_over_clamped_matte_is_preserved_not_zeroed() {
    // A highlight brighter than a white matte cannot be background; it must
    // be kept, not discarded to transparent.
    let white = px(1.0, 1.0, 1.0, 1.0);
    assert!(close(
        unmix(px(1.5, 1.0, 1.0, 1.0), white),
        px(1.5, 1.0, 1.0, 1.0),
        1e-6
    ));
    // Symmetric case against a black matte at the lower clamp.
    let black = px(0.0, 0.0, 0.0, 1.0);
    assert!(close(
        unmix(px(-0.3, 0.0, 0.0, 1.0), black),
        px(-0.3, 0.0, 0.0, 1.0),
        1e-6
    ));
}

// Solid matte removal.

fn filled(w: i32, h: i32, color: Rgba32F) -> TiledBuffer {
    let mut buf = TiledBuffer::new();
    for y in 0..h {
        for x in 0..w {
            buf.put(IVec2::new(x, y), color);
        }
    }
    buf
}

#[test]
fn solid_white_interior_becomes_transparent_subject_kept() {
    let mut buf = filled(40, 40, px(1.0, 1.0, 1.0, 1.0));
    // Opaque red subject square in the middle.
    for y in 15..25 {
        for x in 15..25 {
            buf.put(IVec2::new(x, y), px(1.0, 0.0, 0.0, 1.0));
        }
    }
    let out = remove_matte(&buf, f(DEFAULT_MATTE_TOLERANCE)).expect("matte detected");
    assert_eq!(out.look(IVec2::new(2, 2)), Rgba32F::TRANSPARENT);
    assert_eq!(out.look(IVec2::new(20, 20)), px(1.0, 0.0, 0.0, 1.0));
}

#[test]
fn non_flat_white_background_clears_to_transparent() {
    // Regression: a near-white background that is NOT perfectly flat (mild
    // gradient / compression noise) must still clear fully. Keying on the
    // mean and unmixing every pixel left brighter-than-mean background with
    // large residual alpha; interior pixels now go fully transparent.
    let mut buf = TiledBuffer::new();
    for y in 0..40 {
        for x in 0..40 {
            // Background ramps 0.85..=1.0 across the canvas — all within
            // tolerance of the mean, so it is one connected region.
            let v = 0.85 + 0.15 * (x as f32 / 39.0);
            buf.put(IVec2::new(x, y), px(v, v, v, 1.0));
        }
    }
    // Distinct opaque subject in the middle.
    for y in 16..24 {
        for x in 16..24 {
            buf.put(IVec2::new(x, y), px(0.1, 0.2, 0.9, 1.0));
        }
    }
    let out = remove_matte(&buf, f(DEFAULT_MATTE_TOLERANCE)).expect("matte detected");
    // Interior background everywhere clears, regardless of local brightness.
    assert_eq!(out.look(IVec2::new(0, 0)), Rgba32F::TRANSPARENT);
    assert_eq!(out.look(IVec2::new(39, 0)), Rgba32F::TRANSPARENT); // brightest corner
    assert_eq!(out.look(IVec2::new(5, 20)), Rgba32F::TRANSPARENT);
    // Subject untouched.
    assert_eq!(out.look(IVec2::new(20, 20)), px(0.1, 0.2, 0.9, 1.0));
}

#[test]
fn subject_touching_border_does_not_skew_removal() {
    // A subject on the border is part of the <=10% that detection tolerates;
    // the key must still resolve to the true matte color so the background
    // (including the column hugging the subject) clears completely.
    let white = px(1.0, 1.0, 1.0, 1.0);
    let mut buf = filled(40, 40, white);
    for y in 14..26 {
        for x in 34..40 {
            buf.put(IVec2::new(x, y), px(0.0, 0.0, 0.0, 1.0));
        }
    }
    let out = remove_matte(&buf, f(DEFAULT_MATTE_TOLERANCE)).expect("matte detected");
    assert_eq!(out.look(IVec2::new(0, 0)), Rgba32F::TRANSPARENT);
    assert_eq!(out.look(IVec2::new(33, 20)), Rgba32F::TRANSPARENT);
    assert_eq!(out.look(IVec2::new(37, 20)), px(0.0, 0.0, 0.0, 1.0));
}

#[test]
fn semi_transparent_pixel_near_matte_is_preserved() {
    // A pixel that already carries real transparency is not a fake matte;
    // it must be left byte-identical even when its RGB is near the matte.
    let mut buf = filled(40, 40, px(1.0, 1.0, 1.0, 1.0));
    let ghost = px(0.99, 0.99, 0.99, 0.5);
    buf.put(IVec2::new(5, 5), ghost);
    let out = remove_matte(&buf, f(DEFAULT_MATTE_TOLERANCE)).expect("matte detected");
    assert_eq!(out.look(IVec2::new(5, 5)), ghost);
    assert_eq!(out.look(IVec2::new(20, 20)), Rgba32F::TRANSPARENT);
}

#[test]
fn solid_offwhite_253_is_detected() {
    let off = 253.0 / 255.0;
    let buf = filled(20, 20, px(off, off, off, 1.0));
    let out = remove_matte(&buf, f(DEFAULT_MATTE_TOLERANCE)).expect("matte detected");
    assert_eq!(out.look(IVec2::new(5, 5)), Rgba32F::TRANSPARENT);
}

#[test]
fn enclosed_background_color_is_not_holed() {
    // A red ring around a white-colored hole that is NOT connected to the
    // border: the hole must stay opaque white (connected-from-border only).
    let mut buf = filled(40, 40, px(1.0, 1.0, 1.0, 1.0));
    for y in 10..30 {
        for x in 10..30 {
            buf.put(IVec2::new(x, y), px(1.0, 0.0, 0.0, 1.0)); // solid red block
        }
    }
    // Punch a white hole in the middle of the red block, enclosed by red.
    for y in 18..22 {
        for x in 18..22 {
            buf.put(IVec2::new(x, y), px(1.0, 1.0, 1.0, 1.0));
        }
    }
    let out = remove_matte(&buf, f(DEFAULT_MATTE_TOLERANCE)).expect("matte detected");
    assert_eq!(out.look(IVec2::new(1, 1)), Rgba32F::TRANSPARENT); // outer bg gone
    assert_eq!(out.look(IVec2::new(20, 20)), px(1.0, 1.0, 1.0, 1.0)); // hole kept
    assert_eq!(out.look(IVec2::new(12, 12)), px(1.0, 0.0, 0.0, 1.0)); // red kept
}

#[test]
fn despeckle_clears_stranded_matte_specks() {
    // Bits of checkerboard trapped in concavities (between hair strands,
    // fingers, toes) sit just past tolerance AND are cut off from the border
    // flood, so they survive as tiny light specks dotting the cut-out. A
    // small, matte-coloured, *disconnected* island must be cleared — while
    // connected subject and small *non-matte* flecks are kept.
    let white = px(1.0, 1.0, 1.0, 1.0);
    let mut buf = filled(48, 48, white);
    let subject = px(0.1, 0.4, 0.1, 1.0);
    for y in 10..38 {
        for x in 10..38 {
            buf.put(IVec2::new(x, y), subject);
        }
    }
    // Stray light-grey speck in the background: ~0.26 from white, so past the
    // 0.2 tolerance (flood leaves it) but within the despeckle band.
    let speck = px(0.85, 0.85, 0.85, 1.0);
    for y in 3..6 {
        for x in 3..6 {
            buf.put(IVec2::new(x, y), speck);
        }
    }
    // A small saturated fleck stranded in the background must be KEPT.
    let fleck = px(0.9, 0.1, 0.1, 1.0);
    buf.put(IVec2::new(44, 3), fleck);
    let out = remove_matte(&buf, f(DEFAULT_MATTE_TOLERANCE)).expect("matte detected");
    assert_eq!(out.look(IVec2::new(4, 4)), Rgba32F::TRANSPARENT); // speck cleared
    assert_eq!(out.look(IVec2::new(24, 24)), subject); // subject kept
    assert_eq!(out.look(IVec2::new(44, 3)), fleck); // non-matte fleck kept
}

#[test]
fn antialiased_edge_recovers_partial_alpha_losslessly() {
    let white = px(1.0, 1.0, 1.0, 1.0);
    let mut buf = filled(40, 40, white);
    // Solid red block with a 50% red/white anti-aliased edge column. The
    // edge connects the white background to the block.
    let edge_orig = over(px(1.0, 0.0, 0.0, 0.5), white);
    for y in 10..30 {
        for x in 20..30 {
            buf.put(IVec2::new(x, y), px(1.0, 0.0, 0.0, 1.0));
        }
        buf.put(IVec2::new(19, y), edge_orig);
    }
    // Inner tolerance below the 50% edge (dist ~0.71 from white) so it falls
    // in the unmix band (inner, inner + edge_softness], not cleared outright;
    // the solid block (dist ~1.41) lies beyond the band and is untouched.
    let out = remove_matte(&buf, 0.4).expect("matte detected");

    let edge = out.look(IVec2::new(19, 20));
    assert!((edge.a - 0.5).abs() <= 1e-3, "edge alpha {}", edge.a);
    // Lossless: recompositing the recovered edge over white reproduces it.
    assert!(close(over(edge, white), edge_orig, 1e-4));
    // The opaque block is left untouched.
    assert_eq!(out.look(IVec2::new(25, 20)), px(1.0, 0.0, 0.0, 1.0));
}

#[test]
fn defringe_cleans_a_mostly_white_edge() {
    // A subject block with a mostly-white fringe ring (80% white) beyond the
    // inner tolerance. The old hard-threshold left it opaque (white halo);
    // the edge band now unmixes it to a low alpha so the halo disappears.
    let white = px(1.0, 1.0, 1.0, 1.0);
    let mut buf = filled(40, 40, white);
    let fringe = over(px(1.0, 0.0, 0.0, 0.2), white); // ~0.28 from white
    for y in 10..30 {
        for x in 20..30 {
            buf.put(IVec2::new(x, y), px(1.0, 0.0, 0.0, 1.0));
        }
        buf.put(IVec2::new(19, y), fringe);
    }
    let out = remove_matte(&buf, f(DEFAULT_MATTE_TOLERANCE)).expect("matte detected");
    let edge = out.look(IVec2::new(19, 20));
    assert!(
        edge.a < 0.35,
        "fringe should be mostly cleared, alpha {}",
        edge.a
    );
    // Re-compositing the cleaned fringe over white still reproduces it.
    assert!(close(over(edge, white), fringe, 1e-4));
}

#[test]
fn defringe_clears_opaque_aa_halo_beyond_band() {
    // The real-world halo: a sharp silhouette against a near-white matte
    // leaves a single anti-aliased pixel that is *more subject than matte*,
    // so it sits just BEYOND the outer flood band and the old code kept it
    // fully opaque — a light rim around the cut-out. It must now be unmixed
    // to partial alpha and decontaminated, losslessly, while solid subject
    // one pixel further in is left untouched (not eroded).
    let white = px(1.0, 1.0, 1.0, 1.0);
    let mut buf = filled(40, 40, white);
    let subject = px(0.05, 0.25, 0.02, 1.0); // dark, saturated -> a barrier
    let aa = over(px(subject.r, subject.g, subject.b, 0.55), white); // ~0.87 from white
    for y in 5..35 {
        for x in 20..35 {
            buf.put(IVec2::new(x, y), subject);
        }
        buf.put(IVec2::new(19, y), aa);
    }
    let out = remove_matte(&buf, f(DEFAULT_MATTE_TOLERANCE)).expect("matte detected");
    let edge = out.look(IVec2::new(19, 20));
    assert!(
        edge.a < 0.95,
        "halo pixel must be unmixed, alpha {}",
        edge.a
    );
    // Lossless: recompositing the recovered edge over white reproduces it.
    assert!(
        close(over(edge, white), aa, 1e-3),
        "not lossless: {:?}",
        over(edge, white)
    );
    // Solid subject just inside the halo is a barrier — left byte-identical.
    assert_eq!(out.look(IVec2::new(20, 20)), subject);
    assert_eq!(out.look(IVec2::new(27, 20)), subject);
}

#[test]
fn light_subject_connected_to_background_is_not_eaten() {
    // The real-world failure that motivated the strict flood: a near-white
    // matte with a large LIGHT subject region (a cream apron, light paint,
    // pale highlights). Such pixels are beyond `tolerance` but close enough
    // that an over-wide flood band leaks straight through them and guts the
    // subject. The strict flood must clear the surrounding matte while leaving
    // every light-subject pixel — interior AND hard edge — byte-identical.
    let white = px(1.0, 1.0, 1.0, 1.0);
    let mut buf = filled(48, 48, white);
    // Light-grey block ~0.69 from white: well beyond the 0.2 tolerance, but
    // well within the 0.75 band the old flood used — which devoured it.
    let light = px(0.6, 0.6, 0.6, 1.0);
    for y in 12..36 {
        for x in 12..36 {
            buf.put(IVec2::new(x, y), light);
        }
    }
    let out = remove_matte(&buf, f(DEFAULT_MATTE_TOLERANCE)).expect("matte detected");
    // Surrounding matte cleared…
    assert_eq!(out.look(IVec2::new(2, 2)), Rgba32F::TRANSPARENT);
    // …but the light subject is fully preserved, including its hard edge
    // (a hard edge has same-colour neighbours, so defringe leaves it alone).
    assert_eq!(out.look(IVec2::new(24, 24)), light); // interior
    assert_eq!(out.look(IVec2::new(12, 24)), light); // left edge
    assert_eq!(out.look(IVec2::new(35, 24)), light); // right edge
}

#[test]
fn remove_enclosed_clears_trapped_background() {
    // A red block with a white hole fully enclosed by red.
    let mut buf = filled(40, 40, px(1.0, 1.0, 1.0, 1.0));
    for y in 10..30 {
        for x in 10..30 {
            buf.put(IVec2::new(x, y), px(1.0, 0.0, 0.0, 1.0));
        }
    }
    for y in 18..22 {
        for x in 18..22 {
            buf.put(IVec2::new(x, y), px(1.0, 1.0, 1.0, 1.0));
        }
    }
    let out = remove_matte_with(
        &buf,
        MatteOptions {
            remove_enclosed: true,
            ..MatteOptions::default()
        },
    )
    .expect("matte detected");
    // With remove_enclosed, the trapped white hole clears too.
    assert_eq!(out.look(IVec2::new(20, 20)), Rgba32F::TRANSPARENT);
    // The red subject is still kept.
    assert_eq!(out.look(IVec2::new(12, 12)), px(1.0, 0.0, 0.0, 1.0));
}

// Checkerboard matte removal.

fn checker(w: i32, h: i32, tile: i32, c0: Rgba32F, c1: Rgba32F) -> TiledBuffer {
    let mut buf = TiledBuffer::new();
    for y in 0..h {
        for x in 0..w {
            let parity = ((x / tile) + (y / tile)).rem_euclid(2);
            buf.put(IVec2::new(x, y), if parity == 0 { c0 } else { c1 });
        }
    }
    buf
}

fn assert_checker_removed(c0: Rgba32F, c1: Rgba32F) {
    let mut buf = checker(48, 48, 8, c0, c1);
    // Opaque blue subject in the middle, distinct from both checker colors.
    for y in 20..28 {
        for x in 20..28 {
            buf.put(IVec2::new(x, y), px(0.0, 0.0, 1.0, 1.0));
        }
    }
    let out = remove_matte(&buf, f(DEFAULT_MATTE_TOLERANCE)).expect("checker detected");
    // Several near-border checker pixels (both parities) gone.
    assert_eq!(out.look(IVec2::new(0, 0)), Rgba32F::TRANSPARENT);
    assert_eq!(out.look(IVec2::new(8, 0)), Rgba32F::TRANSPARENT);
    assert_eq!(out.look(IVec2::new(0, 8)), Rgba32F::TRANSPARENT);
    // Subject untouched.
    assert_eq!(out.look(IVec2::new(24, 24)), px(0.0, 0.0, 1.0, 1.0));
}

#[test]
fn checker_white_grey_removed() {
    assert_checker_removed(px(1.0, 1.0, 1.0, 1.0), px(0.6, 0.6, 0.6, 1.0));
}

#[test]
fn checker_white_black_removed() {
    assert_checker_removed(px(1.0, 1.0, 1.0, 1.0), px(0.0, 0.0, 0.0, 1.0));
}

#[test]
fn checker_grey_darkgrey_removed() {
    assert_checker_removed(px(0.6, 0.6, 0.6, 1.0), px(0.3, 0.3, 0.3, 1.0));
}

// Negative / edge cases.

#[test]
fn empty_buffer_returns_none() {
    assert!(remove_matte(&TiledBuffer::new(), f(DEFAULT_MATTE_TOLERANCE)).is_none());
}

#[test]
fn degenerate_sparse_bounds_does_not_panic() {
    // Two pixels at opposite extremes give bounds whose area overflows u32.
    let mut buf = TiledBuffer::new();
    buf.put(IVec2::new(0, 0), px(1.0, 1.0, 1.0, 1.0));
    buf.put(IVec2::new(1_000_000, 1_000_000), px(1.0, 1.0, 1.0, 1.0));
    assert!(remove_matte(&buf, f(DEFAULT_MATTE_TOLERANCE)).is_none());
}

#[test]
fn gradient_border_has_no_matte() {
    // Each column a distinct value: not uniform, not a clean checker.
    let mut buf = TiledBuffer::new();
    for y in 0..16 {
        for x in 0..16 {
            let v = x as f32 / 15.0;
            buf.put(IVec2::new(x, y), px(v, 1.0 - v, (v * 0.5).fract(), 1.0));
        }
    }
    assert!(remove_matte(&buf, f(DEFAULT_MATTE_TOLERANCE)).is_none());
}

#[test]
fn non_matte_pixels_are_byte_identical() {
    let mut buf = filled(40, 40, px(1.0, 1.0, 1.0, 1.0));
    let subject = px(0.2, 0.7, 0.3, 1.0);
    for y in 15..25 {
        for x in 15..25 {
            buf.put(IVec2::new(x, y), subject);
        }
    }
    let out = remove_matte(&buf, f(DEFAULT_MATTE_TOLERANCE)).unwrap();
    // Every subject pixel is preserved exactly.
    for y in 15..25 {
        for x in 15..25 {
            assert_eq!(out.look(IVec2::new(x, y)), subject);
        }
    }
}

fn unmix(p: Rgba32F, k: Rgba32F) -> Rgba32F {
    up(ogre_core::float_kernel::unmix(&math(), p.bits(), k.bits()))
}

fn remove_matte(buffer: &TiledBuffer, tolerance: f32) -> Option<TiledBuffer> {
    ogre_core::remove_matte(&kern(), buffer, b(tolerance))
}

fn remove_matte_with(buffer: &TiledBuffer, options: MatteOptions) -> Option<TiledBuffer> {
    ogre_core::remove_matte_with(&kern(), buffer, options)
}
