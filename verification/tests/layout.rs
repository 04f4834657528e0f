//! Open-door handles, point lookup, fitting and door matching on a small
//! catalog of 4x4 rooms.

use bevy_ldtk_procgen::generator::catalog::{build_catalog, Catalog};
use bevy_ldtk_procgen::generator::geom::{Dir, PlacementId, RoomId, TilePos, TileRect, TileSize};
use bevy_ldtk_procgen::generator::layout::Layout;
use bevy_ldtk_procgen::generator::ldtk::{
    Definitions, EntityInstance, IPoint, LayerInstance, LayerType, LdtkJson, Level,
};
use bevy_ldtk_procgen::generator::place::{fits, satisfied_doors, DoorAttempt};

const G: i32 = 10;

fn door(px: (i32, i32), width: i32, height: i32) -> EntityInstance {
    EntityInstance {
        identifier: "Door".to_string(),
        grid: IPoint { x: px.0 / G, y: px.1 / G },
        px: IPoint { x: px.0, y: px.1 },
        width,
        height,
    }
}

fn level(name: &str, doors: Vec<EntityInstance>) -> Level {
    Level {
        identifier: name.to_string(),
        iid: name.to_string(),
        px_wid: 40,
        px_hei: 40,
        world_x: 0,
        world_y: 0,
        layer_instances: Some(vec![LayerInstance {
            grid_size: G,
            layer_instance_type: LayerType::Entities,
            entity_instances: doors,
        }]),
        field_instances: Vec::new(),
    }
}

/// Room 0: doors north and south; rooms 1-4: caps N, E, S, W. Doors are one
/// tile wide; every room is 4x4 tiles.
fn catalog() -> Catalog {
    let levels = vec![
        level("Hall", vec![door((10, 0), 10, 10), door((10, 30), 10, 10)]),
        level("CapN", vec![door((10, 0), 10, 10)]),
        level("CapE", vec![door((30, 10), 10, 10)]),
        level("CapS", vec![door((10, 30), 10, 10)]),
        level("CapW", vec![door((0, 10), 10, 10)]),
    ];
    let p = LdtkJson { defs: Definitions { enums: Vec::new(), level_fields: Vec::new() }, levels };
    build_catalog(&p).expect("small catalog should validate")
}

#[test]
fn closed_slots_are_reused_under_a_new_generation() {
    let catalog = catalog();
    let mut layout = Layout::default();
    layout.commit(&catalog, RoomId(0), TilePos { x: 0, y: 0 }, &[]).expect("commit");
    let open = layout.open_doors();
    assert_eq!(open.len(), 2);
    let (first, door) = open[0];
    assert_eq!(door.placement, PlacementId(0));
    assert_eq!(door.door, 0);
    assert_eq!(layout.close_door(first), Some(door));
    assert_eq!(layout.close_door(first), None);
    assert_eq!(layout.door_slot_count(), 2);

    // The cap reuses the freed slot; the stale handle does not reach it.
    layout.commit(&catalog, RoomId(1), TilePos { x: 50, y: 50 }, &[]).expect("commit");
    assert_eq!(layout.door_slot_count(), 2);
    let open = layout.open_doors();
    assert_eq!(open.len(), 2);
    let reused = open.iter().find(|(id, _)| id.slot == first.slot).expect("slot reused");
    assert_ne!(reused.0, first);
    assert_eq!(reused.1.placement, PlacementId(1));
    assert_eq!(layout.close_door(first), None);
}

#[test]
fn room_at_finds_the_containing_placement() {
    let catalog = catalog();
    let mut layout = Layout::default();
    assert_eq!(layout.room_at(&catalog, TilePos { x: 0, y: 0 }), None);
    layout.commit(&catalog, RoomId(2), TilePos { x: -4, y: -4 }, &[]).expect("commit");
    layout.commit(&catalog, RoomId(3), TilePos { x: 0, y: 0 }, &[]).expect("commit");
    assert_eq!(layout.room_at(&catalog, TilePos { x: -1, y: -1 }), Some(RoomId(2)));
    assert_eq!(layout.room_at(&catalog, TilePos { x: 0, y: 0 }), Some(RoomId(3)));
    assert_eq!(layout.room_at(&catalog, TilePos { x: 3, y: 3 }), Some(RoomId(3)));
    assert_eq!(layout.room_at(&catalog, TilePos { x: 4, y: 0 }), None);
    let all = layout.iter();
    assert_eq!(all.len(), 2);
    assert_eq!(all[1].0, PlacementId(1));
    assert_eq!(all[1].1.origin, TilePos { x: 0, y: 0 });
    assert_eq!(layout.get(PlacementId(0)).map(|p| p.room), Some(RoomId(2)));
    assert_eq!(layout.get(PlacementId(2)), None);
}

#[test]
fn an_unknown_room_commits_nothing() {
    let catalog = catalog();
    let mut layout = Layout::default();
    assert_eq!(layout.commit(&catalog, RoomId(99), TilePos { x: 0, y: 0 }, &[]), None);
    assert_eq!(layout.placed_count(), 0);
    assert!(layout.open_doors().is_empty());
}

#[test]
fn fits_rejects_overlap_but_accepts_touching() {
    let catalog = catalog();
    let mut layout = Layout::default();
    layout.commit(&catalog, RoomId(0), TilePos { x: 0, y: 0 }, &[]).expect("commit");
    assert!(!fits(&layout, &catalog, RoomId(1), TilePos { x: 3, y: 3 }));
    assert!(fits(&layout, &catalog, RoomId(1), TilePos { x: 4, y: 0 }));
    assert!(fits(&layout, &catalog, RoomId(1), TilePos { x: 0, y: 4 }));
    assert!(!fits(&layout, &catalog, RoomId(99), TilePos { x: 40, y: 40 }));
    assert_eq!(layout.cell_size(&catalog), 4);
}

#[test]
fn a_room_closes_every_door_it_meets() {
    let catalog = catalog();
    let mut layout = Layout::default();
    // Two hallways, one above the other, with room for a third between them.
    layout.commit(&catalog, RoomId(0), TilePos { x: 0, y: 0 }, &[]).expect("commit");
    layout.commit(&catalog, RoomId(0), TilePos { x: 0, y: 8 }, &[]).expect("commit");
    // The lower hallway's north door is at (1, 3); the upper one's south door
    // at (1, 8). A hallway at (0, 4) has its south door at (1, 4) and north
    // door at (1, 7): it meets both.
    let closes = satisfied_doors(&layout, &catalog, RoomId(0), TilePos { x: 0, y: 4 });
    assert_eq!(closes.len(), 2);
    let open = layout.open_doors();
    let north_of_lower = open
        .iter()
        .find(|(_, d)| d.placement == PlacementId(0) && d.door == 0)
        .expect("lower north door open");
    let south_of_upper = open
        .iter()
        .find(|(_, d)| d.placement == PlacementId(1) && d.door == 1)
        .expect("upper south door open");
    assert!(closes.contains(&north_of_lower.0));
    assert!(closes.contains(&south_of_upper.0));
    assert!(satisfied_doors(&layout, &catalog, RoomId(0), TilePos { x: 1, y: 4 }).is_empty());
}

#[test]
fn a_failed_try_removes_the_candidate() {
    let catalog = catalog();
    let mut layout = Layout::default();
    layout.commit(&catalog, RoomId(0), TilePos { x: 0, y: 0 }, &[]).expect("commit");
    // Block the space above the hallway's north door.
    layout.commit(&catalog, RoomId(4), TilePos { x: 0, y: 4 }, &[]).expect("commit");
    let (north, _) = *layout
        .open_doors()
        .iter()
        .find(|(_, d)| d.placement == PlacementId(0) && d.door == 0)
        .expect("hallway north door open");
    let mut attempt = DoorAttempt::new(&layout, &catalog, north).expect("door is open");
    assert_eq!(attempt.dir, Dir::N);
    assert_eq!(attempt.width, 1);
    assert_eq!(attempt.pos, TilePos { x: 1, y: 3 });
    // Rooms with a south-facing door: the hallway (door 1) and the south cap.
    assert_eq!(attempt.candidates, vec![(RoomId(0), 1), (RoomId(3), 0)]);
    let before = layout.placed_count();
    assert_eq!(attempt.try_candidate(&mut layout, &catalog, 0), None);
    assert_eq!(attempt.candidates, vec![(RoomId(3), 0)]);
    assert_eq!(attempt.try_candidate(&mut layout, &catalog, 0), None);
    assert!(attempt.candidates.is_empty());
    assert_eq!(layout.placed_count(), before);

    layout.close_door(north);
    assert!(DoorAttempt::new(&layout, &catalog, north).is_none());
}

#[test]
fn a_successful_try_places_aligned_and_closes_the_door() {
    let catalog = catalog();
    let mut layout = Layout::default();
    layout.commit(&catalog, RoomId(0), TilePos { x: 0, y: 0 }, &[]).expect("commit");
    let (north, _) = layout.open_doors()[0];
    let mut attempt = DoorAttempt::new(&layout, &catalog, north).expect("door is open");
    assert_eq!(attempt.try_candidate(&mut layout, &catalog, 1), Some(RoomId(3)));
    assert_eq!(layout.placed_count(), 2);
    // The south cap's door sits at local (1, 0); one tile north of (1, 3).
    assert_eq!(layout.get(PlacementId(1)).map(|p| p.origin), Some(TilePos { x: 0, y: 4 }));
    assert!(layout.open_doors().iter().all(|(id, _)| *id != north));
    // The cap's only door is the one that met the filled door: it stays closed.
    assert!(layout.open_doors().iter().all(|(_, d)| d.placement != PlacementId(1)));
    assert_eq!(layout.open_doors().len(), 1);
    let region = TileRect { min: TilePos { x: 0, y: 4 }, size: TileSize { width: 1, height: 1 } };
    assert_eq!(layout.nearby(region), vec![PlacementId(1)]);
}

#[test]
fn a_reused_slot_moves_on_exactly_one_generation() {
    let catalog = catalog();
    let mut layout = Layout::default();
    layout.commit(&catalog, RoomId(1), TilePos { x: 0, y: 0 }, &[]).expect("commit");
    let (first, _) = layout.open_doors()[0];
    assert_eq!(first.generation, 0);
    assert!(layout.close_door(first).is_some());
    layout.commit(&catalog, RoomId(1), TilePos { x: 20, y: 0 }, &[]).expect("commit");
    let (second, _) = layout.open_doors()[0];
    assert_eq!(second.slot, first.slot);
    assert_eq!(second.generation, 1);
    assert!(layout.close_door(second).is_some());
    layout.commit(&catalog, RoomId(1), TilePos { x: 40, y: 0 }, &[]).expect("commit");
    let (third, _) = layout.open_doors()[0];
    assert_eq!(third.generation, 2);
    assert_eq!(layout.close_door(first), None);
    assert_eq!(layout.close_door(second), None);
}

#[test]
fn commit_connected_leaves_the_connecting_doors_closed() {
    let catalog = catalog();
    let mut layout = Layout::default();
    layout.commit(&catalog, RoomId(0), TilePos { x: 0, y: 0 }, &[]).expect("commit");
    let (north, _) = layout.open_doors()[0];
    let placed = layout
        .commit_connected(&catalog, RoomId(0), TilePos { x: 0, y: 4 }, &[north], &[1])
        .expect("commit");
    assert_eq!(placed, PlacementId(1));
    let open = layout.open_doors();
    assert_eq!(open.len(), 2);
    assert!(open.iter().any(|(_, d)| d.placement == PlacementId(1) && d.door == 0));
    assert!(!open.iter().any(|(_, d)| d.placement == PlacementId(1) && d.door == 1));
}

#[test]
fn satisfied_doors_come_in_slot_order() {
    let catalog = catalog();
    let mut layout = Layout::default();
    // Two halls, one above the other with a one-row gap between them, leave
    // a north door below and a south door above the gap.
    layout.commit(&catalog, RoomId(0), TilePos { x: 0, y: 0 }, &[]).expect("commit");
    layout.commit(&catalog, RoomId(0), TilePos { x: 0, y: 8 }, &[]).expect("commit");
    let met = satisfied_doors(&layout, &catalog, RoomId(0), TilePos { x: 0, y: 4 });
    assert!(met.windows(2).all(|w| w[0].slot < w[1].slot));
}
