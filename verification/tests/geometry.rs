//! Rectangles, directions and the spatial index, on concrete values.

use bevy_ldtk_procgen::generator::geom::{overlaps, Dir, PlacementId, TilePos, TileRect, TileSize};
use bevy_ldtk_procgen::generator::spatial::{cells_computable_check, SpatialHash};

fn rect(x: i32, y: i32, w: u32, h: u32) -> TileRect {
    TileRect { min: TilePos { x, y }, size: TileSize { width: w, height: h } }
}

#[test]
fn max_is_min_plus_size() {
    assert_eq!(rect(-3, 4, 5, 2).max(), TilePos { x: 2, y: 6 });
    assert_eq!(rect(i32::MAX - 1, 0, 1, 1).checked_max(), Some(TilePos { x: i32::MAX, y: 1 }));
    assert_eq!(rect(i32::MAX, 0, 1, 1).checked_max(), None);
}

#[test]
fn contains_is_half_open() {
    let r = rect(0, 0, 3, 2);
    assert!(r.contains(TilePos { x: 0, y: 0 }));
    assert!(r.contains(TilePos { x: 2, y: 1 }));
    assert!(!r.contains(TilePos { x: 3, y: 1 }));
    assert!(!r.contains(TilePos { x: 2, y: 2 }));
    assert!(!r.contains(TilePos { x: -1, y: 0 }));
}

#[test]
fn overlap_is_symmetric_and_strict() {
    let a = rect(0, 0, 4, 4);
    let b = rect(3, 3, 4, 4);
    assert!(overlaps(a, b));
    assert!(overlaps(b, a));
    // Sharing only an edge is not overlapping.
    let c = rect(4, 0, 4, 4);
    assert!(!overlaps(a, c));
    assert!(!overlaps(c, a));
    let d = rect(0, 4, 4, 4);
    assert!(!overlaps(a, d));
}

#[test]
fn opposite_is_an_involution() {
    for d in [Dir::N, Dir::E, Dir::S, Dir::W] {
        assert_eq!(d.opposite().opposite(), d);
        assert_ne!(d.opposite(), d);
    }
    assert_eq!(Dir::N.opposite(), Dir::S);
    assert_eq!(Dir::E.opposite(), Dir::W);
}

#[test]
fn position_arithmetic() {
    let a = TilePos { x: 3, y: -2 };
    let b = TilePos { x: -5, y: 7 };
    assert_eq!(a.plus(b), TilePos { x: -2, y: 5 });
    assert_eq!(a.checked_plus(b), Some(TilePos { x: -2, y: 5 }));
    assert_eq!(a.checked_minus(b), Some(TilePos { x: 8, y: -9 }));
    assert_eq!(TilePos { x: i32::MAX, y: 0 }.checked_plus(TilePos { x: 1, y: 0 }), None);
    assert_eq!(TilePos { x: 0, y: i32::MIN }.checked_minus(TilePos { x: 0, y: 1 }), None);
}

#[test]
fn inserted_value_is_found_by_an_overlapping_query() {
    let mut h: SpatialHash<PlacementId> = SpatialHash::new(8);
    h.insert(rect(-10, -10, 12, 4), PlacementId(7));
    h.insert(rect(100, 100, 2, 2), PlacementId(9));
    let found = h.query(rect(0, -8, 1, 1));
    assert_eq!(found, vec![PlacementId(7)]);
    assert!(h.query(rect(50, 50, 1, 1)).is_empty());
    assert_eq!(h.query(rect(101, 101, 1, 1)), vec![PlacementId(9)]);
}

#[test]
fn query_reports_each_value_once() {
    let mut h: SpatialHash<PlacementId> = SpatialHash::new(4);
    // Spans four cells.
    h.insert(rect(-2, -2, 4, 4), PlacementId(1));
    h.insert(rect(0, 0, 1, 1), PlacementId(2));
    let found = h.query(rect(-4, -4, 8, 8));
    assert_eq!(found, vec![PlacementId(1), PlacementId(2)]);
}

#[test]
fn negative_coordinates_floor_into_cells() {
    let mut h: SpatialHash<PlacementId> = SpatialHash::new(10);
    // Cell -1 on both axes only.
    h.insert(rect(-10, -10, 10, 10), PlacementId(3));
    assert_eq!(h.query(rect(-1, -1, 1, 1)), vec![PlacementId(3)]);
    assert!(h.query(rect(0, 0, 1, 1)).is_empty());
    assert_eq!(h.cell_size(), 10);
}

#[test]
fn cell_computability() {
    assert!(cells_computable_check(8, rect(0, 0, 4, 4)));
    assert!(!cells_computable_check(0, rect(0, 0, 4, 4)));
    assert!(!cells_computable_check(8, rect(i32::MAX, 0, 4, 4)));
}
