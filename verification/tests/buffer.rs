#![allow(dead_code)]
use std::sync::Arc;

use ogre_core::Rgba32F as Pixel;
use ogre_core::{IVec2, Rect, Tile, TileCoord, TiledBuffer};

/// A pixel with its channels as numbers.
#[derive(Clone, Copy, Debug, PartialEq)]
struct Rgba32F {
    r: f32,
    g: f32,
    b: f32,
    a: f32,
}

impl Rgba32F {
    const TRANSPARENT: Rgba32F = Rgba32F { r: 0.0, g: 0.0, b: 0.0, a: 0.0 };

    fn new(r: f32, g: f32, b: f32, a: f32) -> Self {
        Rgba32F { r, g, b, a }
    }

    fn bits(self) -> Pixel {
        Pixel::new(self.r.to_bits(), self.g.to_bits(), self.b.to_bits(), self.a.to_bits())
    }
}

fn up(p: Pixel) -> Rgba32F {
    Rgba32F::new(f(p.r), f(p.g), f(p.b), f(p.a))
}

fn b(v: f32) -> u32 {
    v.to_bits()
}

fn f(v: u32) -> f32 {
    f32::from_bits(v)
}

/// Pixels as numbers.
trait Pixels {
    fn px(&self, p: IVec2) -> Rgba32F;
    fn put(&mut self, p: IVec2, c: Rgba32F);
}

impl Pixels for TiledBuffer {
    fn px(&self, p: IVec2) -> Rgba32F {
        up(self.get_pixel(p))
    }

    fn put(&mut self, p: IVec2, c: Rgba32F) {
        self.set_pixel(p, c.bits());
    }
}



#[test]
fn cow_isolation() {
    let mut a = TiledBuffer::new();
    a.put(IVec2::new(10, 10), Rgba32F::new(1.0, 0.0, 0.0, 1.0));
    let b = a.clone();
    let shared_before = a.get_tile(TileCoord { x: 0, y: 0 }).unwrap();

    let mut b2 = b.clone();
    b2.put(IVec2::new(10, 10), Rgba32F::new(0.0, 1.0, 0.0, 1.0));

    assert_eq!(a.px(IVec2::new(10, 10)).g, 0.0); // original untouched
    assert_eq!(b2.px(IVec2::new(10, 10)).g, 1.0); // clone mutated
    assert!(Arc::ptr_eq(
        &shared_before,
        &b.get_tile(TileCoord { x: 0, y: 0 }).unwrap()
    )); // unshared tile still shared
}

#[test]
fn get_pixel_outside_returns_transparent() {
    let buffer = TiledBuffer::new();
    assert_eq!(buffer.px(IVec2::new(-5, 1000)), Rgba32F::TRANSPARENT);
}

#[test]
fn set_and_get_negative_pixel() {
    let mut buffer = TiledBuffer::new();
    let p = IVec2::new(-1, -1);
    let c = Rgba32F::new(0.2, 0.4, 0.6, 0.8);
    buffer.put(p, c);
    assert_eq!(buffer.px(p), c);
    assert_eq!(
        up(buffer
            .get_tile(TileCoord { x: -1, y: -1 })
            .unwrap()
            .get(255, 255)),
        c
    );
}

#[test]
fn bounds_on_empty_is_none() {
    assert!(TiledBuffer::new().bounds().is_none());
}

#[test]
fn bounds_unions_occupied_tiles() {
    let mut buffer = TiledBuffer::new();
    buffer.put(IVec2::new(10, 10), Rgba32F::new(1.0, 0.0, 0.0, 1.0));
    buffer.put(IVec2::new(300, 600), Rgba32F::new(1.0, 0.0, 0.0, 1.0));
    // Tiles at (0,0) and (1,2).
    assert_eq!(buffer.bounds(), Some(Rect::new(0, 0, 512, 768)));
}

#[test]
fn exact_bounds_on_empty_is_none() {
    assert!(TiledBuffer::new().exact_bounds().is_none());
}

#[test]
fn exact_bounds_is_pixel_precise() {
    let mut buffer = TiledBuffer::new();
    buffer.put(IVec2::new(10, 10), Rgba32F::new(1.0, 0.0, 0.0, 1.0));
    buffer.put(IVec2::new(12, 15), Rgba32F::new(0.0, 1.0, 0.0, 1.0));
    assert_eq!(buffer.exact_bounds(), Some(Rect::new(10, 10, 3, 6)));
}

#[test]
fn exact_bounds_ignores_fully_transparent_pixels() {
    let mut buffer = TiledBuffer::new();
    buffer.put(IVec2::new(5, 5), Rgba32F::TRANSPARENT);
    buffer.put(IVec2::new(20, 20), Rgba32F::new(0.0, 0.0, 1.0, 1.0));
    assert_eq!(buffer.exact_bounds(), Some(Rect::new(20, 20, 1, 1)));
}

#[test]
fn exact_bounds_handles_negative_pixels() {
    let mut buffer = TiledBuffer::new();
    buffer.put(IVec2::new(-3, -7), Rgba32F::new(1.0, 0.0, 0.0, 1.0));
    buffer.put(IVec2::new(-1, -1), Rgba32F::new(0.0, 1.0, 0.0, 1.0));
    assert_eq!(buffer.exact_bounds(), Some(Rect::new(-3, -7, 3, 7)));
}

#[test]
fn cow_isolation_proptest() {
    let mut state: u64 = 12345;
    let mut next = |n: u64| {
        state = state.wrapping_mul(6364136223846793005).wrapping_add(1442695040888963407);
        (state >> 33) % n
    };
    for _ in 0..8 {
        let mut original = TiledBuffer::new();
        let seed = IVec2::new(0, 0);
        original.put(seed, Rgba32F::new(1.0, 0.0, 0.0, 1.0));

        let snapshot = original.clone();
        let mut clone = original.clone();

        for _ in 0..1 + next(99) {
            let x = next(601) as i32 - 300;
            let y = next(601) as i32 - 300;
            let v = next(256) as f32 / 255.0;
            let px = match next(4) {
                0 => Rgba32F::new(v, 0.0, 0.0, 1.0),
                1 => Rgba32F::new(0.0, v, 0.0, 1.0),
                2 => Rgba32F::new(0.0, 0.0, v, 1.0),
                _ => Rgba32F::new(v, v, v, 1.0),
            };
            clone.put(IVec2::new(x, y), px);
        }

        // Original and snapshot must remain unchanged.
        assert_eq!(original.px(seed), Rgba32F::new(1.0, 0.0, 0.0, 1.0));
        assert_eq!(snapshot.px(seed), Rgba32F::new(1.0, 0.0, 0.0, 1.0));

        // The tile at (0,0) was never written in `original`/`snapshot`, so it
        // must still be Arc-shared between them.
        assert!(Arc::ptr_eq(
            &original.get_tile(TileCoord { x: 0, y: 0 }).unwrap(),
            &snapshot.get_tile(TileCoord { x: 0, y: 0 }).unwrap(),
        ));
    }
}

#[test]
fn read_rect_row_major() {
    let mut buffer = TiledBuffer::new();
    buffer.put(IVec2::new(0, 0), Rgba32F::new(1.0, 0.0, 0.0, 1.0));
    buffer.put(IVec2::new(1, 0), Rgba32F::new(0.0, 1.0, 0.0, 1.0));
    buffer.put(IVec2::new(0, 1), Rgba32F::new(0.0, 0.0, 1.0, 1.0));
    buffer.put(IVec2::new(1, 1), Rgba32F::new(1.0, 1.0, 1.0, 1.0));

    let data = rect_of(&buffer, Rect::new(0, 0, 2, 2));
    assert_eq!(data.len(), 4);
    assert_eq!(data[0], Rgba32F::new(1.0, 0.0, 0.0, 1.0));
    assert_eq!(data[1], Rgba32F::new(0.0, 1.0, 0.0, 1.0));
    assert_eq!(data[2], Rgba32F::new(0.0, 0.0, 1.0, 1.0));
    assert_eq!(data[3], Rgba32F::new(1.0, 1.0, 1.0, 1.0));
}

#[test]
fn blit_rect_roundtrip() {
    let mut buffer = TiledBuffer::new();
    let data = vec![
        Rgba32F::new(1.0, 0.0, 0.0, 1.0),
        Rgba32F::new(0.0, 1.0, 0.0, 1.0),
        Rgba32F::new(0.0, 0.0, 1.0, 1.0),
        Rgba32F::new(1.0, 1.0, 1.0, 1.0),
    ];
    buffer.blit_rect(Rect::new(5, 5, 2, 2), &bits(&data));
    assert_eq!(rect_of(&buffer, Rect::new(5, 5, 2, 2)), data);
}

#[test]
fn clear_rect_clears_and_prunes() {
    let mut buffer = TiledBuffer::new();
    buffer.put(IVec2::new(0, 0), Rgba32F::new(1.0, 0.0, 0.0, 1.0));
    buffer.put(IVec2::new(1, 0), Rgba32F::new(0.0, 1.0, 0.0, 1.0));
    buffer.put(IVec2::new(300, 0), Rgba32F::new(0.0, 0.0, 1.0, 1.0));

    buffer.clear_rect(Rect::new(0, 0, 2, 1));
    assert_eq!(buffer.px(IVec2::new(0, 0)), Rgba32F::TRANSPARENT);
    assert_eq!(buffer.px(IVec2::new(1, 0)), Rgba32F::TRANSPARENT);
    assert_eq!(
        buffer.px(IVec2::new(300, 0)),
        Rgba32F::new(0.0, 0.0, 1.0, 1.0)
    );
    // The tile at (0,0) became empty and should be pruned.
    assert!(buffer.get_tile(TileCoord { x: 0, y: 0 }).is_none());
}

#[test]
fn copy_region_places_pixels_exactly() {
    let mut src = TiledBuffer::new();
    src.put(IVec2::new(10, 10), Rgba32F::new(1.0, 0.0, 0.0, 1.0));
    src.put(IVec2::new(11, 10), Rgba32F::new(0.0, 1.0, 0.0, 1.0));

    let mut dst = TiledBuffer::new();
    dst.copy_region(&src, Rect::new(10, 10, 2, 1), IVec2::new(100, 200));

    assert_eq!(
        dst.px(IVec2::new(110, 210)),
        Rgba32F::new(1.0, 0.0, 0.0, 1.0)
    );
    assert_eq!(
        dst.px(IVec2::new(111, 210)),
        Rgba32F::new(0.0, 1.0, 0.0, 1.0)
    );
    assert_eq!(dst.px(IVec2::new(10, 10)), Rgba32F::TRANSPARENT);
}

#[test]
fn read_rect_spans_four_tiles() {
    let mut buffer = TiledBuffer::new();
    // Place pixels around the corner shared by tiles (0,0), (1,0), (0,1), (1,1).
    buffer.put(IVec2::new(255, 255), Rgba32F::new(1.0, 0.0, 0.0, 1.0));
    buffer.put(IVec2::new(256, 255), Rgba32F::new(0.0, 1.0, 0.0, 1.0));
    buffer.put(IVec2::new(255, 256), Rgba32F::new(0.0, 0.0, 1.0, 1.0));
    buffer.put(IVec2::new(256, 256), Rgba32F::new(1.0, 1.0, 1.0, 1.0));

    let data = rect_of(&buffer, Rect::new(255, 255, 2, 2));
    assert_eq!(data.len(), 4);
    assert_eq!(data[0], Rgba32F::new(1.0, 0.0, 0.0, 1.0));
    assert_eq!(data[1], Rgba32F::new(0.0, 1.0, 0.0, 1.0));
    assert_eq!(data[2], Rgba32F::new(0.0, 0.0, 1.0, 1.0));
    assert_eq!(data[3], Rgba32F::new(1.0, 1.0, 1.0, 1.0));
}

#[test]
fn read_rect_negative_origin() {
    let mut buffer = TiledBuffer::new();
    buffer.put(IVec2::new(-1, -1), Rgba32F::new(1.0, 0.0, 0.0, 1.0));
    buffer.put(IVec2::new(0, -1), Rgba32F::new(0.0, 1.0, 0.0, 1.0));
    buffer.put(IVec2::new(-1, 0), Rgba32F::new(0.0, 0.0, 1.0, 1.0));
    buffer.put(IVec2::new(0, 0), Rgba32F::new(1.0, 1.0, 1.0, 1.0));

    let data = rect_of(&buffer, Rect::new(-1, -1, 2, 2));
    assert_eq!(data.len(), 4);
    assert_eq!(data[0], Rgba32F::new(1.0, 0.0, 0.0, 1.0));
    assert_eq!(data[1], Rgba32F::new(0.0, 1.0, 0.0, 1.0));
    assert_eq!(data[2], Rgba32F::new(0.0, 0.0, 1.0, 1.0));
    assert_eq!(data[3], Rgba32F::new(1.0, 1.0, 1.0, 1.0));
}

#[test]
fn blit_rect_spans_four_tiles() {
    let mut buffer = TiledBuffer::new();
    let data = vec![
        Rgba32F::new(1.0, 0.0, 0.0, 1.0),
        Rgba32F::new(0.0, 1.0, 0.0, 1.0),
        Rgba32F::new(0.0, 0.0, 1.0, 1.0),
        Rgba32F::new(1.0, 1.0, 1.0, 1.0),
    ];
    buffer.blit_rect(Rect::new(255, 255, 2, 2), &bits(&data));
    assert_eq!(rect_of(&buffer, Rect::new(255, 255, 2, 2)), data);
}

#[test]
fn blit_rect_negative_offset() {
    let mut buffer = TiledBuffer::new();
    let data = vec![
        Rgba32F::new(1.0, 0.0, 0.0, 1.0),
        Rgba32F::new(0.0, 1.0, 0.0, 1.0),
        Rgba32F::new(0.0, 0.0, 1.0, 1.0),
        Rgba32F::new(1.0, 1.0, 1.0, 1.0),
    ];
    buffer.blit_rect(Rect::new(-1, -1, 2, 2), &bits(&data));
    assert_eq!(rect_of(&buffer, Rect::new(-1, -1, 2, 2)), data);
}

#[test]
fn blit_rect_prunes_empty_tiles() {
    let mut buffer = TiledBuffer::new();
    buffer.put(IVec2::new(10, 10), Rgba32F::new(1.0, 0.0, 0.0, 1.0));
    assert!(buffer.get_tile(TileCoord { x: 0, y: 0 }).is_some());

    let transparent = vec![Rgba32F::TRANSPARENT; 121];
    buffer.blit_rect(Rect::new(0, 0, 11, 11), &bits(&transparent));
    assert_eq!(buffer.px(IVec2::new(10, 10)), Rgba32F::TRANSPARENT);
    assert!(buffer.get_tile(TileCoord { x: 0, y: 0 }).is_none());
}

#[test]
fn copy_region_spans_four_tiles() {
    let mut src = TiledBuffer::new();
    src.put(IVec2::new(255, 255), Rgba32F::new(1.0, 0.0, 0.0, 1.0));
    src.put(IVec2::new(256, 255), Rgba32F::new(0.0, 1.0, 0.0, 1.0));
    src.put(IVec2::new(255, 256), Rgba32F::new(0.0, 0.0, 1.0, 1.0));
    src.put(IVec2::new(256, 256), Rgba32F::new(1.0, 1.0, 1.0, 1.0));

    let mut dst = TiledBuffer::new();
    dst.copy_region(&src, Rect::new(255, 255, 2, 2), IVec2::new(-255, -255));

    assert_eq!(
        dst.px(IVec2::new(0, 0)),
        Rgba32F::new(1.0, 0.0, 0.0, 1.0)
    );
    assert_eq!(
        dst.px(IVec2::new(1, 0)),
        Rgba32F::new(0.0, 1.0, 0.0, 1.0)
    );
    assert_eq!(
        dst.px(IVec2::new(0, 1)),
        Rgba32F::new(0.0, 0.0, 1.0, 1.0)
    );
    assert_eq!(
        dst.px(IVec2::new(1, 1)),
        Rgba32F::new(1.0, 1.0, 1.0, 1.0)
    );
}

#[test]
fn copy_region_negative_dst_offset() {
    let mut src = TiledBuffer::new();
    src.put(IVec2::new(0, 0), Rgba32F::new(1.0, 0.0, 0.0, 1.0));
    src.put(IVec2::new(1, 0), Rgba32F::new(0.0, 1.0, 0.0, 1.0));

    let mut dst = TiledBuffer::new();
    dst.copy_region(&src, Rect::new(0, 0, 2, 1), IVec2::new(-10, -10));

    assert_eq!(
        dst.px(IVec2::new(-10, -10)),
        Rgba32F::new(1.0, 0.0, 0.0, 1.0)
    );
    assert_eq!(
        dst.px(IVec2::new(-9, -10)),
        Rgba32F::new(0.0, 1.0, 0.0, 1.0)
    );
}

#[test]
fn bounds_drops_out_of_range_tiles() {
    let mut buffer = TiledBuffer::new();
    // Tile coordinate that, when multiplied by 256, overflows i32.
    let far = TileCoord {
        x: i32::MAX / 256 + 2,
        y: 0,
    };
    buffer.restore_tile(
        far,
        Some(Arc::new(Tile::filled(Rgba32F::new(1.0, 0.0, 0.0, 1.0).bits()))),
    );
    // A normal tile should still produce a valid bound.
    buffer.put(IVec2::new(0, 0), Rgba32F::new(1.0, 0.0, 0.0, 1.0));
    assert_eq!(buffer.bounds(), Some(Rect::new(0, 0, 256, 256)));
}

#[test]
fn exact_bounds_drop_out_of_range_tiles() {
    let mut buffer = TiledBuffer::new();
    let far = TileCoord {
        x: i32::MAX / 256 + 2,
        y: 0,
    };
    buffer.restore_tile(
        far,
        Some(Arc::new(Tile::filled(Rgba32F::new(1.0, 0.0, 0.0, 1.0).bits()))),
    );
    // No pixel lies there.
    assert_eq!(buffer.exact_bounds(), None);
    buffer.put(IVec2::new(7, 9), Rgba32F::new(1.0, 0.0, 0.0, 1.0));
    assert_eq!(buffer.exact_bounds(), Some(Rect::new(7, 9, 1, 1)));
}

#[test]
fn read_rect_extreme_coords_does_not_panic() {
    let buffer = TiledBuffer::new();
    let far = i32::MAX - 10;
    let _ = rect_of(&buffer, Rect::new(far, far, 20, 20));
}

#[test]
fn blit_rect_extreme_coords_does_not_panic() {
    let mut buffer = TiledBuffer::new();
    let far = i32::MAX - 10;
    let data = vec![Rgba32F::new(1.0, 0.0, 0.0, 1.0); 400];
    buffer.blit_rect(Rect::new(far, far, 20, 20), &bits(&data));
}

#[test]
fn clear_rect_extreme_coords_does_not_panic() {
    let mut buffer = TiledBuffer::new();
    let far = i32::MAX - 10;
    buffer.clear_rect(Rect::new(far, far, 20, 20));
}

#[test]
fn copy_region_extreme_coords_does_not_panic() {
    let src = TiledBuffer::new();
    let mut dst = TiledBuffer::new();
    let far = i32::MAX - 10;
    dst.copy_region(&src, Rect::new(far, far, 20, 20), IVec2::new(0, 0));
}

#[test]
fn set_pixel_drops_tile_when_it_becomes_empty_using_count() {
    let mut buffer = TiledBuffer::new();
    let p = IVec2::new(10, 10);
    let c = Rgba32F::new(1.0, 0.0, 0.0, 1.0);
    buffer.put(p, c);

    // The tile should exist and know it has one non-transparent pixel.
    let tile = buffer.get_tile(TileCoord { x: 0, y: 0 }).unwrap();
    assert_eq!(tile.non_transparent_count(), 1);

    // Erasing that single pixel should drop the tile without scanning.
    buffer.put(p, Rgba32F::TRANSPARENT);
    assert!(buffer.get_tile(TileCoord { x: 0, y: 0 }).is_none());
    assert_eq!(buffer.px(p), Rgba32F::TRANSPARENT);
}

fn rect_of(buffer: &TiledBuffer, rect: Rect) -> Vec<Rgba32F> {
    buffer.read_rect(rect).into_iter().map(up).collect()
}

fn bits(data: &[Rgba32F]) -> Vec<Pixel> {
    data.iter().map(|c| c.bits()).collect()
}

#[test]
fn restoring_a_tile_brings_back_what_was_there() {
    let mut buffer = TiledBuffer::new();
    let c = TileCoord { x: 0, y: 0 };
    buffer.put(IVec2::new(3, 4), Rgba32F::new(1.0, 0.0, 0.0, 1.0));
    let before = buffer.get_tile(c);
    buffer.put(IVec2::new(3, 4), Rgba32F::new(0.0, 1.0, 0.0, 1.0));
    buffer.put(IVec2::new(9, 9), Rgba32F::new(0.0, 1.0, 0.0, 1.0));
    buffer.restore_tile(c, before);
    assert_eq!(buffer.px(IVec2::new(3, 4)), Rgba32F::new(1.0, 0.0, 0.0, 1.0));
    assert_eq!(buffer.px(IVec2::new(9, 9)), Rgba32F::TRANSPARENT);
    buffer.restore_tile(c, None);
    assert!(buffer.is_empty());
    assert_eq!(buffer.resident_tile_count(), 0);
}

#[test]
fn buffers_take_the_tiles_they_are_made_from() {
    let red = Rgba32F::new(1.0, 0.0, 0.0, 1.0);
    let mut tiles = ahash::AHashMap::new();
    tiles.insert((0, 0), Arc::new(Tile::filled(red.bits())));
    let buffer = TiledBuffer::from_tiles(tiles);
    assert_eq!(buffer.resident_tile_count(), 1);
    assert_eq!(up(buffer.get_pixel(IVec2::new(3, 5))), red);
    assert_eq!(up(buffer.get_pixel(IVec2::new(-1, 5))), Rgba32F::TRANSPARENT);
}
