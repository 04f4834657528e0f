//! Catalog validation errors, tags, and derived catalog values.

use bevy_ldtk_procgen::generator::catalog::{
    build_catalog, door_arithmetic_in_range, CatalogError, FloatTagId, TagId,
};
use bevy_ldtk_procgen::generator::error::CatalogErrors;
use bevy_ldtk_procgen::generator::geom::{Dir, TilePos, TileSize};
use bevy_ldtk_procgen::generator::ldtk::{
    Definitions, EntityInstance, EnumDefinition, EnumValueDefinition, FieldDefinition, FieldInstance,
    FieldValue, IPoint, LayerInstance, LayerType, LdtkJson, Level,
};

fn door(px: (i32, i32), width: i32, height: i32, grid: i32) -> EntityInstance {
    EntityInstance {
        identifier: "Door".to_string(),
        grid: IPoint { x: px.0 / grid, y: px.1 / grid },
        px: IPoint { x: px.0, y: px.1 },
        width,
        height,
    }
}

fn entities(grid: i32, doors: Vec<EntityInstance>) -> LayerInstance {
    LayerInstance { grid_size: grid, layer_instance_type: LayerType::Entities, entity_instances: doors }
}

fn level(identifier: &str, iid: &str, w: i32, h: i32, layers: Option<Vec<LayerInstance>>) -> Level {
    Level {
        identifier: identifier.to_string(),
        iid: iid.to_string(),
        px_wid: w,
        px_hei: h,
        world_x: 10,
        world_y: -20,
        layer_instances: layers,
        field_instances: Vec::new(),
    }
}

/// Four 6x6-tile caps on a 16px grid, one per direction: a valid catalog.
fn caps(grid: i32) -> Vec<Level> {
    let s = 6 * grid;
    let t = 2 * grid;
    vec![
        level("Cap_N", "n", s, s, Some(vec![entities(grid, vec![door((t, 0), t, grid, grid)])])),
        level("Cap_E", "e", s, s, Some(vec![entities(grid, vec![door((s - grid, t), grid, t, grid)])])),
        level("Cap_S", "s", s, s, Some(vec![entities(grid, vec![door((t, s - grid), t, grid, grid)])])),
        level("Cap_W", "w", s, s, Some(vec![entities(grid, vec![door((0, t), grid, t, grid)])])),
    ]
}

fn project(levels: Vec<Level>) -> LdtkJson {
    LdtkJson { defs: Definitions { enums: Vec::new(), level_fields: Vec::new() }, levels }
}

fn errors_of(p: &LdtkJson) -> Vec<CatalogError> {
    match build_catalog(p) {
        Ok(_) => panic!("expected errors"),
        Err(CatalogErrors(errors)) => errors,
    }
}

#[test]
fn valid_caps_build() {
    let catalog = build_catalog(&project(caps(16))).expect("caps should validate");
    assert_eq!(catalog.len(), 4);
    assert!(!catalog.is_empty());
    assert_eq!(catalog.grid_size(), 16);
    let cap_e = catalog.iter().nth(1).expect("second room");
    assert_eq!(cap_e.size, TileSize { width: 6, height: 6 });
    assert_eq!(cap_e.doors.len(), 1);
    assert_eq!(cap_e.doors[0].dir, Dir::E);
    assert_eq!(cap_e.doors[0].width, 2);
    // grid (5, 2) flipped into a 6-row room: y = 6 - 1 - 2.
    assert_eq!(cap_e.doors[0].local_pos, TilePos { x: 5, y: 3 });
    assert_eq!(cap_e.world_offset_px.x, 10);
    assert_eq!(cap_e.world_offset_px.y, -20);
    assert_eq!(catalog.spatial_cell_size(), 6);
    assert_eq!(catalog.min_clearance(Dir::N, 2), None);
}

#[test]
fn no_layers_anywhere_is_an_empty_catalog() {
    let p = project(vec![level("A", "a", 32, 32, None)]);
    let errors = errors_of(&p);
    assert_eq!(errors.len(), 1);
    assert!(matches!(errors[0], CatalogError::EmptyCatalog));
    let errors = errors_of(&project(Vec::new()));
    assert!(matches!(errors.as_slice(), [CatalogError::EmptyCatalog]));
}

#[test]
fn non_positive_grid_size_is_reported_alone() {
    let mut levels = caps(16);
    if let Some(layers) = levels[0].layer_instances.as_mut() {
        layers[0].grid_size = 0;
    }
    let errors = errors_of(&project(levels));
    assert!(matches!(errors.as_slice(), [CatalogError::InvalidGridSize { found: 0 }]));
}

#[test]
fn every_problem_is_reported_in_order() {
    let mut levels = caps(16);
    // Not tile-aligned, and a layer on another grid size.
    levels.push(level(
        "Odd",
        "odd",
        100,
        96,
        Some(vec![
            entities(16, Vec::new()),
            LayerInstance { grid_size: 8, layer_instance_type: LayerType::IntGrid, entity_instances: Vec::new() },
        ]),
    ));
    // No entity layer.
    levels.push(level(
        "NoDoors",
        "nodoors",
        96,
        96,
        Some(vec![LayerInstance {
            grid_size: 16,
            layer_instance_type: LayerType::Tiles,
            entity_instances: Vec::new(),
        }]),
    ));
    // A door off every edge.
    levels.push(level(
        "Inner",
        "inner",
        96,
        96,
        Some(vec![entities(16, vec![door((32, 32), 32, 16, 16)])]),
    ));
    // Same iid as Cap_N.
    levels.push(level("Copy", "n", 96, 96, Some(vec![entities(16, Vec::new())])));

    let errors = errors_of(&project(levels));
    assert_eq!(errors.len(), 5);
    assert!(matches!(&errors[0], CatalogError::LevelNotTileAligned { level } if level == "Odd"));
    assert!(matches!(
        &errors[1],
        CatalogError::MixedGridSize { level, expected: 16, found: 8 } if level == "Odd"
    ));
    assert!(matches!(&errors[2], CatalogError::DoorLayerMissing { level } if level == "NoDoors"));
    assert!(matches!(
        &errors[3],
        CatalogError::DoorNotOnEdge { level, at: TilePos { x: 2, y: 2 } } if level == "Inner"
    ));
    assert!(matches!(&errors[4], CatalogError::DuplicateLevelIid { iid } if iid == "n"));
}

#[test]
fn a_level_without_layers_misses_its_door_layer() {
    let mut levels = caps(16);
    levels.push(level("Separate", "sep", 96, 96, None));
    let errors = errors_of(&project(levels));
    assert!(matches!(errors.as_slice(), [CatalogError::DoorLayerMissing { level }] if level == "Separate"));
}

#[test]
fn a_missing_cap_direction_is_reported() {
    let mut levels = caps(16);
    levels.remove(3);
    let errors = errors_of(&project(levels));
    assert!(matches!(errors.as_slice(), [CatalogError::NoCapRoomForDirection { dir: Dir::W }]));
    let e = CatalogErrors(errors);
    assert_eq!(e.len(), 1);
    assert!(!e.is_empty());
    assert_eq!(e.iter().count(), 1);
    assert!(CatalogErrors::default().is_empty());
}

#[test]
fn tags_resolve_by_name_and_default_when_absent() {
    let mut levels = caps(16);
    levels[0].field_instances = vec![
        FieldInstance {
            identifier: "tags".to_string(),
            value: FieldValue::Enums(vec![Some("shop".to_string()), None]),
        },
        FieldInstance { identifier: "danger".to_string(), value: FieldValue::Float(Some(2.5f32.to_bits())) },
    ];
    let p = LdtkJson {
        defs: Definitions {
            enums: vec![EnumDefinition {
                identifier: "RoomTags".to_string(),
                values: vec![
                    EnumValueDefinition { id: "boss".to_string() },
                    EnumValueDefinition { id: "shop".to_string() },
                ],
            }],
            level_fields: vec![
                FieldDefinition {
                    identifier: "tags".to_string(),
                    field_definition_type: "Array<LocalEnum.RoomTags>".to_string(),
                },
                FieldDefinition { identifier: "danger".to_string(), field_definition_type: "Float".to_string() },
                FieldDefinition { identifier: "weight".to_string(), field_definition_type: "Float".to_string() },
            ],
        },
        levels,
    };
    let catalog = build_catalog(&p).expect("tagged caps should validate");
    let shop = catalog.tag_id("shop").expect("shop is a tag");
    let boss = catalog.tag_id("boss").expect("boss is a tag");
    assert_eq!(shop, TagId(1));
    assert_eq!(boss, TagId(0));
    assert_eq!(catalog.tag_id("chest"), None);
    let danger = catalog.float_tag_id("danger").expect("danger is a float tag");
    let weight = catalog.float_tag_id("weight").expect("weight is a float tag");
    assert_eq!(danger, FloatTagId(0));
    assert_eq!(weight, FloatTagId(1));

    let tagged = catalog.iter().next().expect("first room");
    assert!(tagged.bool_tag(shop));
    assert!(!tagged.bool_tag(boss));
    assert!(!tagged.bool_tag(TagId(9)));
    assert_eq!(f32::from_bits(tagged.float_tag(danger)), 2.5);
    // An unstated weight is ordinary, not unselectable.
    assert_eq!(f32::from_bits(tagged.float_tag(weight)), 1.0);
    assert_eq!(f32::from_bits(tagged.float_tag(FloatTagId(7))), 0.0);

    let plain = catalog.iter().nth(1).expect("second room");
    assert!(!plain.bool_tag(shop));
    assert_eq!(f32::from_bits(plain.float_tag(danger)), 0.0);
}

#[test]
fn door_arithmetic_range_is_checked() {
    assert!(door_arithmetic_in_range(&project(caps(16))));
    let mut levels = caps(16);
    if let Some(layers) = levels[0].layer_instances.as_mut() {
        layers[0].entity_instances[0].px.y = i32::MAX;
    }
    assert!(!door_arithmetic_in_range(&project(levels)));
}

#[test]
fn an_eighteen_pixel_grid_reads_the_same_tiles() {
    let catalog = build_catalog(&project(caps(18))).expect("18px caps should validate");
    assert_eq!(catalog.grid_size(), 18);
    let cap_n = catalog.iter().next().expect("first room");
    assert_eq!(cap_n.size, TileSize { width: 6, height: 6 });
    assert_eq!(cap_n.doors[0].width, 2);
    assert_eq!(cap_n.doors[0].local_pos, TilePos { x: 2, y: 5 });
}
