//! Catalog parsing, layout bookkeeping and door filling against a 44-room,
//! 16px project laid out like the bundled Kenney Tiny Dungeon catalog:
//! `Room_Spawn_1` first (12x8 tiles, doors north, east and south), one
//! single-door cap room per direction, and two-door hallways.

use bevy_ldtk_procgen::generator::catalog::{build_catalog, Catalog};
use bevy_ldtk_procgen::generator::geom::{overlaps, Dir, OpenDoorId, RoomId, TilePos, TileRect, TileSize};
use bevy_ldtk_procgen::generator::layout::{open_door_pos, Layout, OpenDoor};
use bevy_ldtk_procgen::generator::ldtk::{
    Definitions, EntityInstance, IPoint, LayerInstance, LayerType, LdtkJson, Level,
};
use bevy_ldtk_procgen::generator::place::{candidate_origin, step, DoorAttempt};
use rand::rngs::SmallRng;
use rand::{RngExt, SeedableRng};

const GRID: i32 = 16;

fn door(px: (i32, i32), width: i32, height: i32) -> EntityInstance {
    EntityInstance {
        identifier: "Door".to_string(),
        grid: IPoint { x: px.0 / GRID, y: px.1 / GRID },
        px: IPoint { x: px.0, y: px.1 },
        width,
        height,
    }
}

fn level(identifier: &str, px_wid: i32, px_hei: i32, doors: Vec<EntityInstance>) -> Level {
    Level {
        identifier: identifier.to_string(),
        iid: format!("iid-{identifier}"),
        px_wid,
        px_hei,
        world_x: 0,
        world_y: 0,
        layer_instances: Some(vec![
            LayerInstance {
                grid_size: GRID,
                layer_instance_type: LayerType::Entities,
                entity_instances: doors,
            },
            LayerInstance {
                grid_size: GRID,
                layer_instance_type: LayerType::IntGrid,
                entity_instances: Vec::new(),
            },
        ]),
        field_instances: Vec::new(),
    }
}

/// Room_Spawn_1 is 192x128px (12x8 tiles) with three 2-tile doors at px
/// [112,0], [176,64] and [128,112], touching the north, east and south edges.
fn kenney_like_project() -> LdtkJson {
    let mut levels = vec![level(
        "Room_Spawn_1",
        192,
        128,
        vec![door((112, 0), 32, 16), door((176, 64), 16, 32), door((128, 112), 32, 16)],
    )];
    levels.push(level("Cap_N", 96, 96, vec![door((32, 0), 32, 16)]));
    levels.push(level("Cap_E", 96, 96, vec![door((80, 32), 16, 32)]));
    levels.push(level("Cap_S", 96, 96, vec![door((32, 80), 32, 16)]));
    levels.push(level("Cap_W", 96, 96, vec![door((0, 32), 16, 32)]));
    for i in 0..20 {
        levels.push(level(
            &format!("Hallway_V_{i}"),
            64,
            96,
            vec![door((16, 0), 32, 16), door((16, 80), 32, 16)],
        ));
    }
    for i in 0..19 {
        levels.push(level(
            &format!("Hallway_H_{i}"),
            96,
            64,
            vec![door((0, 16), 16, 32), door((80, 16), 16, 32)],
        ));
    }
    LdtkJson {
        defs: Definitions { enums: Vec::new(), level_fields: Vec::new() },
        levels,
    }
}

fn load_catalog() -> Catalog {
    match build_catalog(&kenney_like_project()) {
        Ok(catalog) => catalog,
        Err(errors) => panic!("bundled catalog should validate: {:?}", errors.0),
    }
}

fn room_1() -> RoomId {
    RoomId(0)
}

fn find_level_iid(project: &LdtkJson, identifier: &str) -> String {
    project
        .levels
        .iter()
        .find(|l| l.identifier == identifier)
        .map(|l| l.iid.clone())
        .expect("test fixture level must exist")
}

fn sample_weighted(rng: &mut SmallRng, weights: &[f32]) -> Option<usize> {
    let total: f32 = weights.iter().sum();
    if total <= 0.0 {
        return None;
    }
    let mut draw = rng.random_range(0.0..total);
    for (i, &w) in weights.iter().enumerate() {
        if draw < w {
            return Some(i);
        }
        draw -= w;
    }
    weights.len().checked_sub(1)
}

/// Weighted draw, try, remove on failure, until one candidate is placed or
/// none is left.
fn attempt_door(
    layout: &mut Layout,
    catalog: &Catalog,
    door_id: OpenDoorId,
    rng: &mut SmallRng,
) -> Option<RoomId> {
    let mut attempt = DoorAttempt::new(layout, catalog, door_id)?;
    let weight_tag = catalog.float_tag_id("weight");
    while !attempt.candidates.is_empty() {
        let weights: Vec<f32> = attempt
            .candidates
            .iter()
            .map(|(room, _)| {
                let base = catalog
                    .get(*room)
                    .and_then(|def| weight_tag.map(|id| f32::from_bits(def.float_tag(id))))
                    .unwrap_or(1.0);
                base.max(0.0)
            })
            .collect();
        let pick = sample_weighted(rng, &weights)?;
        if let Some(room) = attempt.try_candidate(layout, catalog, pick) {
            return Some(room);
        }
    }
    None
}

#[test]
fn parses_the_bundled_kenney_catalog_cleanly() {
    let catalog = load_catalog();

    assert_eq!(catalog.grid_size(), 16);
    assert_eq!(catalog.len(), 44);
}

#[test]
fn spawn_room_1_doors_match_hand_verified_geometry() {
    let project = kenney_like_project();
    let catalog = load_catalog();

    let room = catalog
        .iter()
        .find(|r| r.iid == find_level_iid(&project, "Room_Spawn_1"))
        .expect("Room_Spawn_1 must exist in the bundled catalog");

    assert_eq!(room.size, TileSize { width: 12, height: 8 });
    assert_eq!(room.doors.len(), 3);

    let mut dirs: Vec<Dir> = room.doors.iter().map(|d| d.dir).collect();
    dirs.sort_by_key(|d| *d as u8);
    assert_eq!(dirs, vec![Dir::N, Dir::E, Dir::S]);

    for door in &room.doors {
        assert_eq!(door.width, 2, "every door in this room is 2 tiles wide");
    }
}

#[test]
fn commit_close_and_spatial_queries_stay_consistent() {
    let catalog = load_catalog();
    let room = RoomId(0);
    let def = catalog.get(room).expect("room 0 must exist");
    let door_count = def.doors.len();

    let mut layout = Layout::default();

    let first = layout
        .commit(&catalog, room, TilePos { x: 0, y: 0 }, &[])
        .expect("commit against a real catalog room must succeed");
    assert_eq!(layout.placed_count(), 1);
    assert_eq!(layout.open_doors().len(), door_count);

    let closing = layout
        .open_doors()
        .first()
        .map(|(id, _door)| *id)
        .expect("a room with at least one door has at least one open door");

    let second = layout
        .commit(&catalog, room, TilePos { x: 1000, y: 1000 }, &[closing])
        .expect("second commit must succeed");
    assert_ne!(first, second);
    assert_eq!(layout.placed_count(), 2);
    // One door closed by `closes`, `door_count` more opened by the second
    // placement: net change is `door_count - 1`.
    assert_eq!(layout.open_doors().len(), door_count * 2 - 1);
    assert!(
        layout.open_doors().iter().all(|(id, _)| *id != closing),
        "the door named in `closes` must no longer be open"
    );

    // Closing it again is a no-op, not a panic or a double-decrement.
    assert!(layout.close_door(closing).is_none());
    assert_eq!(layout.open_doors().len(), door_count * 2 - 1);

    assert_eq!(layout.room_at(&catalog, TilePos { x: 0, y: 0 }), Some(room));
    assert_eq!(layout.room_at(&catalog, TilePos { x: 1000, y: 1000 }), Some(room));
    assert_eq!(layout.room_at(&catalog, TilePos { x: -5000, y: -5000 }), None);

    let region = TileRect {
        min: TilePos { x: -1, y: -1 },
        size: TileSize { width: 3, height: 3 },
    };
    let nearby = layout.nearby(region);
    assert!(nearby.contains(&first));
    assert!(!nearby.contains(&second));
}

#[test]
fn open_door_pos_matches_placement_origin_plus_local_pos() {
    let catalog = load_catalog();
    let room = RoomId(0);
    let def = catalog.get(room).expect("room 0 must exist");
    let Some(first_door) = def.doors.first() else {
        return; // nothing to check if this catalog room has no doors
    };
    let origin = TilePos { x: 5, y: 7 };
    let expected = origin.plus(first_door.local_pos);

    let mut layout = Layout::default();
    let placement = layout.commit(&catalog, room, origin, &[]).expect("commit must succeed");

    let door = OpenDoor { placement, door: 0 };
    assert_eq!(open_door_pos(&layout, &catalog, door), Some(expected));
}

#[test]
fn step_points_one_tile_away_from_each_direction() {
    assert_eq!(step(Dir::N), TilePos { x: 0, y: 1 });
    assert_eq!(step(Dir::S), TilePos { x: 0, y: -1 });
    assert_eq!(step(Dir::E), TilePos { x: 1, y: 0 });
    assert_eq!(step(Dir::W), TilePos { x: -1, y: 0 });
}

#[test]
fn candidate_origin_aligns_footprints_exactly() {
    // Place Room_Spawn_1 (12x8, S-door local_pos=(8,0)) at the origin, then
    // compute where a second copy of it must go so its own N-door
    // (local_pos=(7,7)) lands exactly one tile south of the first room's
    // S-door footprint.
    let catalog = load_catalog();
    let room = room_1();
    let def = catalog.get(room).expect("room 0 must exist");
    let s_door = def
        .doors
        .iter()
        .find(|d| d.dir == Dir::S)
        .expect("room 0 must have a south door for this test to mean anything");
    let n_door_index = def
        .doors
        .iter()
        .position(|d| d.dir == Dir::N)
        .expect("room 0 must have a north door for this test to mean anything");

    let existing_door_pos = TilePos { x: 0, y: 0 }.plus(s_door.local_pos);
    let origin = candidate_origin(
        &catalog,
        room,
        u8::try_from(n_door_index).unwrap(),
        existing_door_pos,
        Dir::S,
    )
    .expect("candidate_origin must succeed for a real catalog room");

    let n_door = def.doors.iter().find(|d| d.dir == Dir::N).expect("checked above");
    let placed_footprint = origin.plus(n_door.local_pos);
    let target = existing_door_pos.plus(step(Dir::S));
    assert_eq!(
        placed_footprint, target,
        "the candidate's own N-door footprint must land exactly on the target tile"
    );
}

#[test]
fn attempt_door_fills_a_door_and_closes_it() {
    let catalog = load_catalog();
    let mut layout = Layout::default();
    let mut rng = SmallRng::seed_from_u64(1234);

    layout
        .commit(&catalog, room_1(), TilePos { x: 0, y: 0 }, &[])
        .expect("initial commit must succeed");
    let before_open = layout.open_doors().len();
    assert!(before_open > 0, "room 0 must have at least one open door");

    let (door_id, _) = *layout.open_doors().first().expect("just verified at least one is open");

    let placed = attempt_door(&mut layout, &catalog, door_id, &mut rng);
    assert!(
        placed.is_some(),
        "at least one candidate should fit against an otherwise-empty layout"
    );
    assert_eq!(layout.placed_count(), 2);
    assert!(
        layout.open_doors().iter().all(|(id, _)| *id != door_id),
        "the door that was filled must no longer be open"
    );
}

#[test]
fn repeated_attempts_grow_the_layout_without_overlap() {
    let catalog = load_catalog();
    let mut layout = Layout::default();
    let mut rng = SmallRng::seed_from_u64(42);

    layout
        .commit(&catalog, room_1(), TilePos { x: 0, y: 0 }, &[])
        .expect("initial commit must succeed");

    // Breadth-first over whatever is open at the start of each round.
    for _ in 0..5 {
        let round: Vec<OpenDoorId> = layout.open_doors().iter().map(|(id, _)| *id).collect();
        if round.is_empty() {
            break;
        }
        for door_id in round {
            // A door from earlier in this round may already be closed; an
            // attempt on it simply finds nothing.
            attempt_door(&mut layout, &catalog, door_id, &mut rng);
        }
    }

    assert!(
        layout.placed_count() > 1,
        "at least one door should have been filled across five rounds"
    );

    let placements: Vec<(RoomId, TilePos)> =
        layout.iter().iter().map(|(_, p)| (p.room, p.origin)).collect();
    for (i, &(room_a, origin_a)) in placements.iter().enumerate() {
        let def_a = catalog.get(room_a).expect("placed room must exist");
        let rect_a = TileRect { min: origin_a, size: def_a.size };
        for &(room_b, origin_b) in placements.iter().skip(i + 1) {
            let def_b = catalog.get(room_b).expect("placed room must exist");
            let rect_b = TileRect { min: origin_b, size: def_b.size };
            assert!(
                !overlaps(rect_a, rect_b),
                "placements {rect_a:?} and {rect_b:?} must not overlap"
            );
        }
    }
}
