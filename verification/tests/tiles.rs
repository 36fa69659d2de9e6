//! Tile coordinates and areas.
use std::collections::HashSet;
use tilefeed::tiles::{
    affected_tiles, compare_tiles, distinct_tiles, tiles_for_bounds, TileCoord, TileSpan,
};

struct Bounds {
    min_lon: f64,
    min_lat: f64,
    max_lon: f64,
    max_lat: f64,
}

/// The columns and rows that bounds reach at some zooms.
fn spans(b: &Bounds, min_zoom: u8, max_zoom: u8) -> Vec<TileSpan> {
    (min_zoom..=max_zoom)
        .map(|z| {
            let n = (1u64 << z) as f64;
            let column = |lon: f64| ((lon + 180.0) / 360.0 * n).floor() as u32;
            let row = |lat: f64| {
                let r = lat.to_radians();
                ((1.0 - r.tan().asinh() / std::f64::consts::PI) / 2.0 * n).floor() as u32
            };
            TileSpan {
                z,
                x_min: column(b.min_lon),
                x_max: column(b.max_lon),
                y_min: row(b.max_lat),
                y_max: row(b.min_lat),
            }
        })
        .collect()
}

fn tiles_in(b: &Bounds, min_zoom: u8, max_zoom: u8) -> Vec<TileCoord> {
    tiles_for_bounds(&spans(b, min_zoom, max_zoom))
}

#[test]
fn test_tiles_for_bounds() {
    // A small area around London
    let bounds = Bounds {
        min_lon: -0.2,
        min_lat: 51.4,
        max_lon: 0.0,
        max_lat: 51.6,
    };
    let tiles = tiles_in(&bounds, 10, 10);
    assert!(!tiles.is_empty());
    for t in &tiles {
        assert_eq!(t.z, 10);
    }
}

#[test]
fn test_tiles_for_bounds_zoom_0() {
    // At zoom 0, the entire world is one tile
    let bounds = Bounds {
        min_lon: -10.0,
        min_lat: -10.0,
        max_lon: 10.0,
        max_lat: 10.0,
    };
    let tiles = tiles_in(&bounds, 0, 0);
    assert_eq!(tiles.len(), 1);
    assert_eq!(tiles[0].z, 0);
    assert_eq!(tiles[0].x, 0);
    assert_eq!(tiles[0].y, 0);
}

#[test]
fn test_tiles_for_bounds_multiple_zooms() {
    let bounds = Bounds {
        min_lon: 0.0,
        min_lat: 0.0,
        max_lon: 1.0,
        max_lat: 1.0,
    };
    let tiles = tiles_in(&bounds, 0, 2);
    // Should contain tiles at zoom 0, 1, and 2
    assert!(tiles.iter().any(|t| t.z == 0));
    assert!(tiles.iter().any(|t| t.z == 1));
    assert!(tiles.iter().any(|t| t.z == 2));
}

#[test]
fn test_tiles_for_bounds_whole_world() {
    let bounds = Bounds {
        min_lon: -180.0,
        min_lat: -85.0,
        max_lon: 180.0,
        max_lat: 85.0,
    };
    // At zoom 1, the whole world should return 4 tiles
    let tiles = tiles_in(&bounds, 1, 1);
    assert_eq!(tiles.len(), 4);
}

#[test]
fn test_tiles_for_bounds_antimeridian() {
    // Bounds near the antimeridian (but not crossing it, since min_lon < max_lon)
    let bounds = Bounds {
        min_lon: 179.0,
        min_lat: 0.0,
        max_lon: 179.9,
        max_lat: 1.0,
    };
    let tiles = tiles_in(&bounds, 2, 2);
    assert!(!tiles.is_empty());
    // All tiles should be valid at zoom 2 (x in 0..3, y in 0..3)
    for t in &tiles {
        assert!(t.x < 4);
        assert!(t.y < 4);
    }
}

#[test]
fn test_tiles_for_bounds_near_poles() {
    // Near the north pole
    let bounds = Bounds {
        min_lon: -10.0,
        min_lat: 80.0,
        max_lon: 10.0,
        max_lat: 84.0,
    };
    let tiles = tiles_in(&bounds, 3, 3);
    assert!(!tiles.is_empty());
    for t in &tiles {
        assert_eq!(t.z, 3);
        // Near the north pole, y should be small (top of the map)
        assert!(t.y < 4); // 2^3 / 2 = 4 is the equator
    }
}

#[test]
fn test_tiles_for_bounds_point() {
    // A very tiny bounds (essentially a point)
    let bounds = Bounds {
        min_lon: 0.0,
        min_lat: 0.0,
        max_lon: 0.0001,
        max_lat: 0.0001,
    };
    let tiles = tiles_in(&bounds, 5, 5);
    // Should return at least one tile
    assert!(!tiles.is_empty());
}

#[test]
fn test_tiles_for_bounds_single_zoom() {
    let bounds = Bounds {
        min_lon: -1.0,
        min_lat: 51.0,
        max_lon: 0.0,
        max_lat: 52.0,
    };
    let tiles = tiles_in(&bounds, 8, 8);
    for t in &tiles {
        assert_eq!(t.z, 8);
        assert!(t.x < 256); // 2^8 = 256
        assert!(t.y < 256);
    }
}

#[test]
fn test_tiles_for_bounds_increasing_with_zoom() {
    let bounds = Bounds {
        min_lon: -1.0,
        min_lat: 51.0,
        max_lon: 1.0,
        max_lat: 52.0,
    };
    let tiles_z5 = tiles_in(&bounds, 5, 5);
    let tiles_z8 = tiles_in(&bounds, 8, 8);
    // Higher zoom should produce more tiles for the same bounds
    assert!(tiles_z8.len() >= tiles_z5.len());
}

#[test]
fn test_tile_coord_equality() {
    let a = TileCoord { z: 5, x: 10, y: 20 };
    let b = TileCoord { z: 5, x: 10, y: 20 };
    let c = TileCoord { z: 5, x: 10, y: 21 };
    assert_eq!(a, b);
    assert_ne!(a, c);
}

#[test]
fn test_tile_coord_hash() {
    let mut set = HashSet::new();
    set.insert(TileCoord { z: 1, x: 0, y: 0 });
    set.insert(TileCoord { z: 1, x: 0, y: 0 }); // duplicate
    set.insert(TileCoord { z: 1, x: 1, y: 0 });
    assert_eq!(set.len(), 2);
}

#[test]
fn test_tile_coord_clone() {
    let a = TileCoord { z: 3, x: 4, y: 5 };
    let b = a;
    assert_eq!(a, b);
}

#[test]
fn spans_are_clamped_to_the_grid() {
    let span = TileSpan { z: 1, x_min: 1, x_max: 9, y_min: 0, y_max: 7 };
    let tiles = tiles_for_bounds(&vec![span]);
    assert_eq!(tiles, vec![TileCoord { z: 1, x: 1, y: 0 }, TileCoord { z: 1, x: 1, y: 1 }]);
    let backwards = TileSpan { z: 3, x_min: 5, x_max: 4, y_min: 0, y_max: 7 };
    assert!(tiles_for_bounds(&vec![backwards]).is_empty());
    let edge = TileSpan { z: 31, x_min: u32::MAX, x_max: u32::MAX, y_min: 3, y_max: 3 };
    assert_eq!(tiles_for_bounds(&vec![edge]), vec![TileCoord { z: 31, x: 0x7fff_ffff, y: 3 }]);
}

#[test]
fn overlapping_areas_give_each_tile_once() {
    let a = TileSpan { z: 2, x_min: 0, x_max: 1, y_min: 0, y_max: 1 };
    let b = TileSpan { z: 2, x_min: 1, x_max: 2, y_min: 1, y_max: 1 };
    let c = TileSpan { z: 1, x_min: 1, x_max: 1, y_min: 0, y_max: 0 };
    let tiles = affected_tiles(&vec![a, b, c]);
    let t = |z, x, y| TileCoord { z, x, y };
    assert_eq!(
        tiles,
        vec![t(1, 1, 0), t(2, 0, 0), t(2, 0, 1), t(2, 1, 0), t(2, 1, 1), t(2, 2, 1)]
    );
    assert_eq!(distinct_tiles(&vec![t(2, 0, 1), t(0, 0, 0), t(2, 0, 1)]), vec![t(0, 0, 0), t(2, 0, 1)]);
}

#[test]
fn tiles_of_two_stores_are_told_apart() {
    let t = |z, x, y| TileCoord { z, x, y };
    let c = compare_tiles(
        &vec![t(3, 1, 1), t(0, 0, 0), t(1, 0, 1)],
        &vec![t(1, 0, 1), t(5, 2, 2), t(1, 0, 1), t(4, 0, 0)],
    );
    assert_eq!(c.only_a, vec![t(0, 0, 0), t(3, 1, 1)]);
    assert_eq!(c.only_b, vec![t(4, 0, 0), t(5, 2, 2)]);
    assert_eq!(c.both, vec![t(1, 0, 1)]);
}
