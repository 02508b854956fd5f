#![allow(dead_code)]
use ogre_core::Rgba32F as Pixel;
use ogre_core::{snap_to_edge, BinaryOp, FloatMath, IVec2, Rect, TiledBuffer, UnaryOp, WholeOp};

/// A pixel with its channels as numbers.
#[derive(Clone, Copy, Debug, PartialEq)]
struct Rgba32F {
    r: f32,
    g: f32,
    b: f32,
    a: f32,
}

impl Rgba32F {
    const TRANSPARENT: Rgba32F = Rgba32F { r: 0.0, g: 0.0, b: 0.0, a: 0.0 };

    fn new(r: f32, g: f32, b: f32, a: f32) -> Self {
        Rgba32F { r, g, b, a }
    }

    fn bits(self) -> Pixel {
        Pixel::new(self.r.to_bits(), self.g.to_bits(), self.b.to_bits(), self.a.to_bits())
    }
}

fn up(p: Pixel) -> Rgba32F {
    Rgba32F::new(f(p.r), f(p.g), f(p.b), f(p.a))
}

fn b(v: f32) -> u32 {
    v.to_bits()
}

fn f(v: u32) -> f32 {
    f32::from_bits(v)
}

/// Pixels as numbers.
trait Pixels {
    fn px(&self, p: IVec2) -> Rgba32F;
    fn put(&mut self, p: IVec2, c: Rgba32F);
}

impl Pixels for TiledBuffer {
    fn px(&self, p: IVec2) -> Rgba32F {
        up(self.get_pixel(p))
    }

    fn put(&mut self, p: IVec2, c: Rgba32F) {
        self.set_pixel(p, c.bits());
    }
}

type Math = FloatMath<
    fn(BinaryOp, u32, u32) -> u32,
    fn(UnaryOp, u32) -> u32,
    fn(WholeOp, u32) -> i32,
    fn(&Vec<u32>) -> u32,
>;

fn binary(op: BinaryOp, x: u32, y: u32) -> u32 {
    let (x, y) = (f32::from_bits(x), f32::from_bits(y));
    let r = match op {
        BinaryOp::Add => x + y,
        BinaryOp::Sub => x - y,
        BinaryOp::Mul => x * y,
        BinaryOp::Div => x / y,
        BinaryOp::Pow => x.powf(y),
        BinaryOp::RemEuclid => x.rem_euclid(y),
        BinaryOp::Atan2 => x.atan2(y),
    };
    r.to_bits()
}

fn unary(op: UnaryOp, x: u32) -> u32 {
    let x = f32::from_bits(x);
    let r = match op {
        UnaryOp::Sqrt => x.sqrt(),
        UnaryOp::Round => x.round(),
    };
    r.to_bits()
}

fn whole(op: WholeOp, x: u32) -> i32 {
    let x = f32::from_bits(x);
    match op {
        WholeOp::Floor => x.floor() as i32,
        WholeOp::Ceil => x.ceil() as i32,
    }
}

fn mean(numbers: &Vec<u32>) -> u32 {
    let sum: f64 = numbers.iter().map(|n| f32::from_bits(*n) as f64).sum();
    ((sum / numbers.len() as f64) as f32).to_bits()
}

fn math() -> Math {
    FloatMath { binary, unary, whole, mean }
}

fn doc_with_circle() -> TiledBuffer {
    // A hard circle edge: bright disk of radius 4 on a dark field, centred
    // at (10,10).
    let mut buf = TiledBuffer::new();
    for y in 0..20 {
        for x in 0..20 {
            let d =
                ((x - 10) as f32).mul_add((x - 10) as f32, (y - 10) as f32 * (y - 10) as f32);
            let c = if d <= 16.0 {
                Rgba32F::new(0.9, 0.9, 0.9, 1.0)
            } else {
                Rgba32F::new(0.1, 0.1, 0.1, 1.0)
            };
            buf.put(IVec2::new(x, y), c);
        }
    }
    buf
}

#[test]
fn edge_magnitude_peaks_at_circle_boundary() {
    let buf = doc_with_circle();
    let region = Rect::new(0, 0, 20, 20);
    let field = edge_magnitude(&buf, region);
    let mag_at = |x, y| {
        field
            .iter()
            .find(|(p, _)| *p == IVec2::new(x, y))
            .unwrap()
            .1
    };
    // Boundary pixel (on the circle edge) has a much higher gradient than an
    // interior (uniform) pixel.
    let boundary = mag_at(10, 6); // top of the circle ≈ edge
    let interior = mag_at(10, 10); // centre, uniform
    assert!(
        boundary > interior * 5.0,
        "boundary={boundary} interior={interior}"
    );
}

#[test]
fn simplify_path_keeps_corners() {
    // A square path: (0,0)-(10,0)-(10,10)-(0,10). All four corners survive.
    let pts = vec![
        IVec2::new(0, 0),
        IVec2::new(5, 0),
        IVec2::new(10, 0),
        IVec2::new(10, 5),
        IVec2::new(10, 10),
        IVec2::new(5, 10),
        IVec2::new(0, 10),
    ];
    let s = simplify_path(pts, 0.5);
    assert!(s.contains(&IVec2::new(0, 0)));
    assert!(s.contains(&IVec2::new(10, 0)));
    assert!(s.contains(&IVec2::new(10, 10)));
    assert!(s.contains(&IVec2::new(0, 10)));
    assert!(s.len() <= 5);
}

fn edge_magnitude(source: &TiledBuffer, region: Rect) -> Vec<(IVec2, f32)> {
    ogre_core::edge_magnitude(&math(), source, region)
        .into_iter()
        .map(|(p, m)| (p, f(m)))
        .collect()
}

fn simplify_path(points: Vec<IVec2>, epsilon: f32) -> Vec<IVec2> {
    ogre_core::simplify_path(&math(), points, b(epsilon))
}

#[test]
fn uniform_buffers_have_no_edges() {
    let mut buf = TiledBuffer::new();
    for y in 0..256 {
        for x in 0..256 {
            buf.put(IVec2::new(x, y), Rgba32F::new(0.5, 0.5, 0.5, 1.0));
        }
    }
    // The corner reads beyond the occupied bounds, where the nearest pixel counts.
    let field = edge_magnitude(&buf, Rect::new(0, 0, 2, 2));
    assert_eq!(field.len(), 4);
    for (_, m) in field {
        assert!(m.abs() < 1e-6);
    }
}

#[test]
fn snapping_takes_the_strongest_edge_in_reach() {
    let field = vec![
        (IVec2::new(0, 0), b(0.1)),
        (IVec2::new(3, 0), b(0.9)),
        (IVec2::new(2, 0), b(0.5)),
        (IVec2::new(9, 0), b(5.0)),
    ];
    let hit = snap_to_edge(&field, IVec2::new(0, 0), 3, b(0.2));
    assert_eq!(hit.0, IVec2::new(3, 0));
    // Nothing in the disk is above the threshold: the center stays.
    let miss = snap_to_edge(&field, IVec2::new(0, 0), 3, b(0.95));
    assert_eq!(miss.0, IVec2::new(0, 0));
}

#[test]
fn the_center_stays_even_where_the_field_does_not_hold_it() {
    let center = IVec2::new(0, 0);
    let field = vec![(IVec2::new(5, 0), b(0.1))];
    assert_eq!(snap_to_edge(&field, center, 10, b(0.5)), (center, b(0.0)));
    assert_eq!(snap_to_edge(&Vec::new(), center, 10, b(0.5)), (center, b(0.0)));
    let field = vec![(IVec2::new(5, 0), b(0.1)), (center, b(0.25))];
    assert_eq!(snap_to_edge(&field, center, 10, b(0.5)), (center, b(0.25)));
}

#[test]
fn straight_paths_simplify_to_their_ends() {
    let pts = vec![IVec2::new(0, 0), IVec2::new(4, 0), IVec2::new(7, 0), IVec2::new(9, 0)];
    assert_eq!(simplify_path(pts, 0.5), vec![IVec2::new(0, 0), IVec2::new(9, 0)]);
}

#[test]
fn only_vertices_nearer_than_epsilon_are_dropped() {
    let pts = vec![IVec2::new(0, 0), IVec2::new(4, 2), IVec2::new(8, 0)];
    let ends = vec![IVec2::new(0, 0), IVec2::new(8, 0)];
    assert_eq!(simplify_path(pts.clone(), 1.5), pts);
    // A vertex at the distance itself is not below it.
    assert_eq!(simplify_path(pts.clone(), 2.0), pts);
    assert_eq!(simplify_path(pts, 2.5), ends);
    // No distance is below zero.
    let straight = vec![IVec2::new(0, 0), IVec2::new(4, 0), IVec2::new(7, 0), IVec2::new(9, 0)];
    assert_eq!(simplify_path(straight.clone(), 0.0), straight);
}
