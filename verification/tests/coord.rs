use ogre_core::coord::pixel_to_tile;
use ogre_core::{tile_to_pixel, IVec2, Rect, TileCoord};

#[test]
fn rect_contains_and_excludes_points() {
    let r = Rect::new(990, 690, 40, 40);
    assert!(r.contains(IVec2::new(1000, 700)));
    assert!(!r.contains(IVec2::new(1031, 700)));
    assert!(r.contains(IVec2::new(990, 690))); // top-left inclusive
    assert!(!r.contains(IVec2::new(990, 730))); // bottom exclusive
}

#[test]
fn rect_intersection_basic() {
    let a = Rect::new(0, 0, 100, 100);
    let b = Rect::new(50, 50, 100, 100);
    assert_eq!(a.intersect(b), Some(Rect::new(50, 50, 50, 50)));
}

#[test]
fn rect_intersection_empty() {
    let a = Rect::new(0, 0, 10, 10);
    let b = Rect::new(20, 20, 10, 10);
    assert_eq!(a.intersect(b), None);
}

#[test]
fn empty_rect_intersects_none() {
    let a = Rect::new(0, 0, 0, 10);
    let b = Rect::new(0, 0, 10, 10);
    assert_eq!(a.intersect(b), None);
}

#[test]
fn pixel_to_tile_positive() {
    let (c, lx, ly) = pixel_to_tile(IVec2::new(0, 0));
    assert_eq!(c, TileCoord { x: 0, y: 0 });
    assert_eq!((lx, ly), (0, 0));

    let (c, lx, ly) = pixel_to_tile(IVec2::new(255, 256));
    assert_eq!(c, TileCoord { x: 0, y: 1 });
    assert_eq!((lx, ly), (255, 0));
}

#[test]
fn pixel_to_tile_negative_uses_floor_division() {
    let (c, lx, ly) = pixel_to_tile(IVec2::new(-1, -1));
    assert_eq!(c, TileCoord { x: -1, y: -1 });
    assert_eq!((lx, ly), (255, 255));

    let (c, lx, ly) = pixel_to_tile(IVec2::new(-256, -257));
    assert_eq!(c, TileCoord { x: -1, y: -2 });
    assert_eq!((lx, ly), (0, 255));
}

#[test]
fn tile_to_pixel_round_trips() {
    let samples = [
        IVec2::new(0, 0),
        IVec2::new(255, 256),
        IVec2::new(-1, -1),
        IVec2::new(-256, -257),
        IVec2::new(i32::MAX, i32::MIN),
    ];
    for p in samples {
        let (c, lx, ly) = pixel_to_tile(p);
        assert_eq!(tile_to_pixel(c, lx, ly), Some(p));
    }
}

#[test]
fn tile_to_pixel_returns_none_on_overflow() {
    let far = TileCoord {
        x: i32::MAX / 256 + 2,
        y: 0,
    };
    assert!(tile_to_pixel(far, 0, 0).is_none());
}

#[test]
fn tiles_covered_for_40x40_rect() {
    // A 40x40 rect at (990,690) crosses the x tile boundary but stays
    // within tile row y=2 (tile rows span 256 px starting at y=512).
    let r = Rect::new(990, 690, 40, 40);
    let tiles: Vec<_> = r.tiles_covered();
    assert!(tiles.contains(&TileCoord { x: 3, y: 2 }));
    assert!(tiles.contains(&TileCoord { x: 4, y: 2 }));
    assert_eq!(tiles.len(), 2);
}

#[test]
fn tiles_covered_negative_rect() {
    let r = Rect::new(-10, -10, 20, 20);
    let tiles: Vec<_> = r.tiles_covered();
    assert!(tiles.contains(&TileCoord { x: -1, y: -1 }));
    assert!(tiles.contains(&TileCoord { x: 0, y: -1 }));
    assert!(tiles.contains(&TileCoord { x: -1, y: 0 }));
    assert!(tiles.contains(&TileCoord { x: 0, y: 0 }));
}

#[test]
fn rect_expand_grows_by_margin() {
    let r = Rect::new(10, 20, 30, 40);
    let expanded = r.expand(5);
    assert_eq!(expanded, Rect::new(5, 15, 40, 50));
}

#[test]
fn rect_shrink_contracts_by_margin() {
    let r = Rect::new(10, 20, 30, 40);
    let shrunk = r.shrink(5);
    assert_eq!(shrunk, Rect::new(15, 25, 20, 30));
}

#[test]
fn rect_shrink_to_empty_returns_empty() {
    let r = Rect::new(0, 0, 5, 5);
    assert!(r.shrink(3).is_empty());
}
