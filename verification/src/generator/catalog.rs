//! `Catalog`, `RoomDef`, `DoorDef`, `TagId`, `FloatTagId`, and parsing plus
//! validation of an LDtk project against the authoring contract.
//!
//! `build_catalog` is strict: it collects every problem it finds, in the order
//! found, and returns `Err` if there is any. A door's direction comes from the
//! level edge it touches, checked north, east, south, west in that order; its
//! width is its extent along that edge in tiles; its position is flipped into
//! the generator's y-up frame. Bool tags are the values of the `RoomTags` enum
//! present in a level's tag array; float tags are the level's `Float` fields,
//! 0.0 when absent except `weight`, which defaults to 1.0. `NoStartRoomMatched`
//! is never produced here: it depends on placement-time configuration.
use std::collections::HashMap;
use vstd::prelude::*;
use vstd::string::*;

use super::error::CatalogErrors;
use super::geom::{fits_i32, Dir, PixelPos, RoomId, TilePos, TileSize};
use super::ldtk::{
    EntityInstance, EnumDefinition, EnumValueDefinition, FieldDefinition, FieldInstance, FieldValue,
    LayerInstance, LayerType, LdtkJson, Level,
};

verus! {

broadcast use vstd::std_specs::hash::group_hash_axioms;

#[non_exhaustive]
#[derive(Debug, Clone)]
pub enum CatalogError {
    EmptyCatalog,
    NoStartRoomMatched { constraint: String },
    MixedGridSize { level: String, expected: i32, found: i32 },
    LevelNotTileAligned { level: String },
    DoorLayerMissing { level: String },
    DoorNotOnEdge { level: String, at: TilePos },
    DuplicateLevelIid { iid: String },
    /// No room has exactly one door, facing this way.
    NoCapRoomForDirection { dir: Dir },
    /// The project's grid size is zero or negative.
    InvalidGridSize { found: i32 },
    /// The `.ldtk` asset itself failed to load, before there was anything to
    /// validate.
    AssetLoadFailed { message: String },
}

/// A `CatalogError` with its strings as character sequences.
pub enum CatalogErrorView {
    EmptyCatalog,
    NoStartRoomMatched { constraint: Seq<char> },
    MixedGridSize { level: Seq<char>, expected: i32, found: i32 },
    LevelNotTileAligned { level: Seq<char> },
    DoorLayerMissing { level: Seq<char> },
    DoorNotOnEdge { level: Seq<char>, at: TilePos },
    DuplicateLevelIid { iid: Seq<char> },
    NoCapRoomForDirection { dir: Dir },
    InvalidGridSize { found: i32 },
    AssetLoadFailed { message: Seq<char> },
}

impl View for CatalogError {
    type V = CatalogErrorView;

    open spec fn view(&self) -> CatalogErrorView {
        match self {
            CatalogError::EmptyCatalog => CatalogErrorView::EmptyCatalog,
            CatalogError::NoStartRoomMatched { constraint } => CatalogErrorView::NoStartRoomMatched {
                constraint: constraint@,
            },
            CatalogError::MixedGridSize { level, expected, found } => CatalogErrorView::MixedGridSize {
                level: level@,
                expected: *expected,
                found: *found,
            },
            CatalogError::LevelNotTileAligned { level } => CatalogErrorView::LevelNotTileAligned {
                level: level@,
            },
            CatalogError::DoorLayerMissing { level } => CatalogErrorView::DoorLayerMissing {
                level: level@,
            },
            CatalogError::DoorNotOnEdge { level, at } => CatalogErrorView::DoorNotOnEdge {
                level: level@,
                at: *at,
            },
            CatalogError::DuplicateLevelIid { iid } => CatalogErrorView::DuplicateLevelIid {
                iid: iid@,
            },
            CatalogError::NoCapRoomForDirection { dir } => CatalogErrorView::NoCapRoomForDirection {
                dir: *dir,
            },
            CatalogError::InvalidGridSize { found } => CatalogErrorView::InvalidGridSize {
                found: *found,
            },
            CatalogError::AssetLoadFailed { message } => CatalogErrorView::AssetLoadFailed {
                message: message@,
            },
        }
    }
}

#[derive(Debug, Clone, Copy, PartialEq, Eq, Hash, Structural)]
pub struct DoorDef {
    /// Min corner of the door's footprint, in the room's y-up local frame.
    pub local_pos: TilePos,
    pub dir: Dir,
    /// Extent along the room edge, in tiles.
    pub width: u8,
}

/// Ordinal into the project's `RoomTags` enum.
#[derive(Debug, Clone, Copy, PartialEq, Eq, Hash, Structural)]
pub struct TagId(pub u16);

/// Ordinal into the project's named `Float` level fields.
#[derive(Debug, Clone, Copy, PartialEq, Eq, Hash, Structural)]
pub struct FloatTagId(pub u16);

/// Bit pattern of `0.0f32`.
pub const FLOAT_ZERO_BITS: u32 = 0x0000_0000u32;

/// Bit pattern of `1.0f32`.
pub const FLOAT_ONE_BITS: u32 = 0x3f80_0000u32;

/// A room's tag values, stored densely and indexed by ordinal; read them
/// through `RoomDef::bool_tag` and `RoomDef::float_tag`.
#[derive(Debug, Clone)]
pub struct RoomTags {
    bool_tags: Vec<bool>,
    /// Bit patterns of the `f32` values.
    float_tags: Vec<u32>,
}

impl RoomTags {
    pub closed spec fn bools(&self) -> Seq<bool> {
        self.bool_tags@
    }

    pub closed spec fn floats(&self) -> Seq<u32> {
        self.float_tags@
    }
}

/// One authored room.
#[derive(Debug, Clone)]
pub struct RoomDef {
    pub iid: String,
    pub size: TileSize,
    pub doors: Vec<DoorDef>,
    /// LDtk world position; read when spawning, never by placement.
    pub world_offset_px: PixelPos,
    pub tags: RoomTags,
}

impl RoomDef {
    /// Whether the room carries tag `id`; an unknown tag is absent.
    pub fn bool_tag(&self, id: TagId) -> (r: bool)
        ensures
            r == ((id.0 as int) < self.tags.bools().len() && self.tags.bools()[id.0 as int]),
    {
        if (id.0 as usize) < self.tags.bool_tags.len() {
            self.tags.bool_tags[id.0 as usize]
        } else {
            false
        }
    }

    /// The bit pattern of the room's `f32` value for tag `id`; an unknown
    /// tag reads as 0.0.
    pub fn float_tag(&self, id: FloatTagId) -> (r: u32)
        ensures
            r == if (id.0 as int) < self.tags.floats().len() {
                self.tags.floats()[id.0 as int]
            } else {
                FLOAT_ZERO_BITS
            },
    {
        if (id.0 as usize) < self.tags.float_tags.len() {
            self.tags.float_tags[id.0 as usize]
        } else {
            FLOAT_ZERO_BITS
        }
    }
}

/// Every room definition, plus the tag names they are indexed by.
#[derive(Debug, Clone)]
pub struct Catalog {
    rooms: Vec<RoomDef>,
    bool_tag_names: Vec<String>,
    float_tag_names: Vec<String>,
    grid_size: u32,
    /// Smallest clearance behind a door, keyed by `clearance_key` of its
    /// direction and width. Nothing computes it yet, so every catalog built
    /// here has it empty.
    min_clearance: HashMap<u16, TileSize>,
}

/// The key a door direction and width are recorded under: the direction's
/// number (N, E, S, W as 0 to 3) above the width's eight bits.
pub open spec fn clearance_key(dir: Dir, width: u8) -> u16 {
    let d: int = match dir {
        Dir::N => 0,
        Dir::E => 1,
        Dir::S => 2,
        Dir::W => 3,
    };
    (d * 256 + width) as u16
}

fn clearance_key_exec(dir: Dir, width: u8) -> (k: u16)
    ensures
        k == clearance_key(dir, width),
{
    let d: u16 = match dir {
        Dir::N => 0,
        Dir::E => 1,
        Dir::S => 2,
        Dir::W => 3,
    };
    d * 256 + width as u16
}

/// The last index at which `name` occurs in `names`.
pub open spec fn last_index_of(names: Seq<Seq<char>>, name: Seq<char>) -> Option<int>
    decreases names.len(),
{
    if names.len() == 0 {
        None
    } else if names.last() == name {
        Some(names.len() - 1)
    } else {
        last_index_of(names.drop_last(), name)
    }
}

/// The largest width or height among `rooms`, 0 for none.
pub open spec fn largest_dimension(rooms: Seq<RoomDef>) -> int
    decreases rooms.len(),
{
    if rooms.len() == 0 {
        0
    } else {
        let rest = largest_dimension(rooms.drop_last());
        let w = rooms.last().size.width as int;
        let h = rooms.last().size.height as int;
        let m = if w < h {
            h
        } else {
            w
        };
        if rest < m {
            m
        } else {
            rest
        }
    }
}

impl Catalog {
    pub closed spec fn rooms_spec(&self) -> Seq<RoomDef> {
        self.rooms@
    }

    pub closed spec fn bool_tag_names_spec(&self) -> Seq<Seq<char>> {
        self.bool_tag_names@.map_values(|s: String| s@)
    }

    pub closed spec fn float_tag_names_spec(&self) -> Seq<Seq<char>> {
        self.float_tag_names@.map_values(|s: String| s@)
    }

    pub closed spec fn grid_size_spec(&self) -> u32 {
        self.grid_size
    }

    /// The recorded clearances, by `clearance_key`.
    pub closed spec fn min_clearance_spec(&self) -> Map<u16, TileSize> {
        self.min_clearance@
    }

    /// The room `id` names, if any.
    pub open spec fn room(&self, id: RoomId) -> Option<RoomDef> {
        if (id.0 as int) < self.rooms_spec().len() {
            Some(self.rooms_spec()[id.0 as int])
        } else {
            None
        }
    }

    /// The spatial index cell size a layout over this catalog uses: the
    /// largest room dimension, clamped to `1..=i32::MAX`.
    pub open spec fn spatial_cell_size_spec(&self) -> u32 {
        let m = largest_dimension(self.rooms_spec());
        if m < 1 {
            1
        } else if m > i32::MAX {
            i32::MAX as u32
        } else {
            m as u32
        }
    }

    /// Room ids fit in a `u32`.
    pub open spec fn wf(&self) -> bool {
        self.rooms_spec().len() <= u32::MAX
    }

    pub fn get(&self, id: RoomId) -> (r: Option<&RoomDef>)
        ensures
            r == match self.room(id) {
                Some(def) => Some(&def),
                None => None::<&RoomDef>,
            },
    {
        if (id.0 as usize) < self.rooms.len() {
            Some(&self.rooms[id.0 as usize])
        } else {
            None
        }
    }

    /// The id of tag `name`; where a name occurs twice, its last occurrence.
    /// Ids are ordinals taken modulo 2^16.
    pub fn tag_id(&self, name: &str) -> (r: Option<TagId>)
        ensures
            r == match last_index_of(self.bool_tag_names_spec(), name@) {
                Some(i) => Some(TagId((i % 0x1_0000) as u16)),
                None => None,
            },
    {
        match last_index(&self.bool_tag_names, name) {
            Some(i) => Some(TagId((i % 0x1_0000) as u16)),
            None => None,
        }
    }

    /// The id of float tag `name`; where a name occurs twice, its last
    /// occurrence.
    pub fn float_tag_id(&self, name: &str) -> (r: Option<FloatTagId>)
        ensures
            r == match last_index_of(self.float_tag_names_spec(), name@) {
                Some(i) => Some(FloatTagId((i % 0x1_0000) as u16)),
                None => None,
            },
    {
        match last_index(&self.float_tag_names, name) {
            Some(i) => Some(FloatTagId((i % 0x1_0000) as u16)),
            None => None,
        }
    }

    /// The recorded clearance for doors of `dir` and `width`, if any.
    pub fn min_clearance(&self, dir: Dir, width: u8) -> (r: Option<TileSize>)
        ensures
            r == if self.min_clearance_spec().contains_key(clearance_key(dir, width)) {
                Some(self.min_clearance_spec()[clearance_key(dir, width)])
            } else {
                None::<TileSize>
            },
    {
        let k = clearance_key_exec(dir, width);
        match self.min_clearance.get(&k) {
            Some(s) => Some(*s),
            None => None,
        }
    }

    /// Pixels per tile.
    pub fn grid_size(&self) -> (r: u32)
        ensures
            r == self.grid_size_spec(),
    {
        self.grid_size
    }

    pub fn len(&self) -> (r: usize)
        ensures
            r == self.rooms_spec().len(),
    {
        self.rooms.len()
    }

    pub fn is_empty(&self) -> (r: bool)
        ensures
            r == (self.rooms_spec().len() == 0),
    {
        self.rooms.len() == 0
    }

    /// The rooms in id order.
    pub fn iter(&self) -> (r: std::slice::Iter<'_, RoomDef>)
        ensures
            vstd::std_specs::iter::IteratorSpec::remaining(&r).unref() == self.rooms_spec(),
    {
        self.rooms.iter()
    }

    /// The cell size for a spatial index over rooms of this catalog: the
    /// largest room dimension, so that no room's rectangle spans more than
    /// two cells on either axis, clamped to `1..=i32::MAX`.
    pub fn spatial_cell_size(&self) -> (r: u32)
        ensures
            r == self.spatial_cell_size_spec(),
            1 <= r <= i32::MAX,
    {
        let mut largest: u32 = 0;
        let mut i: usize = 0;
        while i < self.rooms.len()
            invariant
                i <= self.rooms@.len(),
                largest == largest_dimension(self.rooms@.subrange(0, i as int)),
            decreases self.rooms.len() - i,
        {
            let size = self.rooms[i].size;
            let m = if size.width < size.height {
                size.height
            } else {
                size.width
            };
            if largest < m {
                largest = m;
            }
            assert(self.rooms@.subrange(0, i + 1).drop_last() =~= self.rooms@.subrange(0, i as int));
            i = i + 1;
        }
        assert(self.rooms@.subrange(0, self.rooms@.len() as int) =~= self.rooms@);
        if largest < 1 {
            1
        } else if largest > 0x7fff_ffffu32 {
            0x7fff_ffffu32
        } else {
            largest
        }
    }
}

impl Default for Catalog {
    fn default() -> (r: Self)
        ensures
            r.rooms_spec().len() == 0,
            r.bool_tag_names_spec().len() == 0,
            r.float_tag_names_spec().len() == 0,
            r.grid_size_spec() == 0,
            r.min_clearance_spec() == Map::<u16, TileSize>::empty(),
    {
        Catalog {
            rooms: Vec::new(),
            bool_tag_names: Vec::new(),
            float_tag_names: Vec::new(),
            grid_size: 0,
            min_clearance: HashMap::new(),
        }
    }
}

fn last_index(names: &Vec<String>, name: &str) -> (r: Option<usize>)
    ensures
        match r {
            Some(u) => last_index_of(names@.map_values(|s: String| s@), name@) == Some(u as int),
            None => last_index_of(names@.map_values(|s: String| s@), name@) is None,
        },
{
    let target = String::from_str(name);
    let ghost view = names@.map_values(|s: String| s@);
    let mut i: usize = names.len();
    assert(view.subrange(0, i as int) =~= view);
    while i > 0
        invariant
            i <= names@.len(),
            view == names@.map_values(|s: String| s@),
            target@ == name@,
            last_index_of(view, name@) == last_index_of(view.subrange(0, i as int), name@),
        decreases i,
    {
        assert(view.subrange(0, i as int).drop_last() =~= view.subrange(0, i - 1));
        if names[i - 1] == target {
            return Some(i - 1);
        }
        i = i - 1;
    }
    assert(view.subrange(0, 0) =~= Seq::<Seq<char>>::empty());
    None
}


// ---------------------------------------------------------------------------
// What `build_catalog` reads from a project, and what it makes of it.
// ---------------------------------------------------------------------------

pub open spec fn errs_view(v: Seq<CatalogError>) -> Seq<CatalogErrorView> {
    v.map_values(|e: CatalogError| e@)
}

/// The grid size of the first layer of the first level that has layers.
pub open spec fn first_grid_size(levels: Seq<Level>) -> Option<i32>
    decreases levels.len(),
{
    if levels.len() == 0 {
        None
    } else if levels[0].layer_instances is Some && levels[0].layer_instances.unwrap()@.len() > 0 {
        Some(levels[0].layer_instances.unwrap()@[0].grid_size)
    } else {
        first_grid_size(levels.drop_first())
    }
}

/// The identifier of the first level field typed `Array<LocalEnum.RoomTags>`.
pub open spec fn tags_field_spec(fields: Seq<FieldDefinition>) -> Option<Seq<char>>
    decreases fields.len(),
{
    if fields.len() == 0 {
        None
    } else if fields[0].field_definition_type@ == "Array<LocalEnum.RoomTags>"@ {
        Some(fields[0].identifier@)
    } else {
        tags_field_spec(fields.drop_first())
    }
}

/// The value ids of the first enum named `RoomTags`, none if there is none.
pub open spec fn room_tag_names_spec(enums: Seq<EnumDefinition>) -> Seq<Seq<char>>
    decreases enums.len(),
{
    if enums.len() == 0 {
        Seq::empty()
    } else if enums[0].identifier@ == "RoomTags"@ {
        enums[0].values@.map_values(|v: EnumValueDefinition| v.id@)
    } else {
        room_tag_names_spec(enums.drop_first())
    }
}

/// The identifiers of every level field typed `Float`, in definition order.
pub open spec fn float_names_spec(fields: Seq<FieldDefinition>) -> Seq<Seq<char>>
    decreases fields.len(),
{
    if fields.len() == 0 {
        Seq::empty()
    } else {
        float_names_spec(fields.drop_last()) + if fields.last().field_definition_type@ == "Float"@ {
            seq![fields.last().identifier@]
        } else {
            Seq::empty()
        }
    }
}

/// Whole tiles in `px` pixels; a negative length is 0 tiles.
pub open spec fn tiles(px: i32, g: int) -> int {
    if px >= 0 {
        (px as int) / g
    } else {
        0
    }
}

/// Division rounding toward zero, for a positive divisor.
pub open spec fn trunc_div(a: int, g: int) -> int {
    if a >= 0 {
        a / g
    } else {
        -((-a) / g)
    }
}

pub open spec fn is_door(e: EntityInstance) -> bool {
    e.identifier@ == "Door"@
}

/// The level edge an entity touches, checked north, east, south, west.
pub open spec fn door_dir_spec(e: EntityInstance, level: Level) -> Option<Dir> {
    if e.px.y == 0 {
        Some(Dir::N)
    } else if e.px.x + e.width == level.px_wid {
        Some(Dir::E)
    } else if e.px.y + e.height == level.px_hei {
        Some(Dir::S)
    } else if e.px.x == 0 {
        Some(Dir::W)
    } else {
        None
    }
}

/// A width in tiles clamped to `1..=255`.
pub open spec fn clamp_width(q: int) -> u8 {
    if q < 1 {
        1
    } else if q > 255 {
        255
    } else {
        q as u8
    }
}

/// The door an entity defines, `None` if it touches no edge: its extent along
/// that edge in whole tiles, and its grid position flipped to y-up.
pub open spec fn door_def_spec(e: EntityInstance, level: Level, g: int) -> Option<DoorDef> {
    match door_dir_spec(e, level) {
        None => None,
        Some(dir) => {
            let extent = match dir {
                Dir::N | Dir::S => e.width,
                Dir::E | Dir::W => e.height,
            };
            Some(
                DoorDef {
                    local_pos: TilePos { x: e.grid.x, y: (tiles(level.px_hei, g) - 1 - e.grid.y) as i32 },
                    dir,
                    width: clamp_width(trunc_div(extent as int, g)),
                },
            )
        },
    }
}

/// The doors of a layer's entities, in entity order.
pub open spec fn entity_doors(es: Seq<EntityInstance>, level: Level, g: int) -> Seq<DoorDef>
    decreases es.len(),
{
    if es.len() == 0 {
        Seq::empty()
    } else {
        entity_doors(es.drop_last(), level, g) + if is_door(es.last()) && door_def_spec(
            es.last(),
            level,
            g,
        ) is Some {
            seq![door_def_spec(es.last(), level, g).unwrap()]
        } else {
            Seq::empty()
        }
    }
}

/// A `DoorNotOnEdge` for every door entity that touches no edge.
pub open spec fn entity_errors(es: Seq<EntityInstance>, level: Level) -> Seq<CatalogErrorView>
    decreases es.len(),
{
    if es.len() == 0 {
        Seq::empty()
    } else {
        entity_errors(es.drop_last(), level) + if is_door(es.last()) && door_dir_spec(
            es.last(),
            level,
        ) is None {
            seq![
                CatalogErrorView::DoorNotOnEdge {
                    level: level.identifier@,
                    at: TilePos { x: es.last().grid.x, y: es.last().grid.y },
                },
            ]
        } else {
            Seq::empty()
        }
    }
}

/// The doors of every entity layer, in layer order.
pub open spec fn layer_doors(layers: Seq<LayerInstance>, level: Level, g: int) -> Seq<DoorDef>
    decreases layers.len(),
{
    if layers.len() == 0 {
        Seq::empty()
    } else {
        layer_doors(layers.drop_last(), level, g) + if layers.last().layer_instance_type
            == LayerType::Entities {
            entity_doors(layers.last().entity_instances@, level, g)
        } else {
            Seq::empty()
        }
    }
}

/// Per layer: a `MixedGridSize` where its grid differs, then, for an entity
/// layer, the door errors of its entities.
pub open spec fn layer_errors(layers: Seq<LayerInstance>, level: Level, g: i32) -> Seq<
    CatalogErrorView,
>
    decreases layers.len(),
{
    if layers.len() == 0 {
        Seq::empty()
    } else {
        let l = layers.last();
        layer_errors(layers.drop_last(), level, g) + (if l.grid_size != g {
            seq![
                CatalogErrorView::MixedGridSize {
                    level: level.identifier@,
                    expected: g,
                    found: l.grid_size,
                },
            ]
        } else {
            Seq::empty()
        }) + (if l.layer_instance_type == LayerType::Entities {
            entity_errors(l.entity_instances@, level)
        } else {
            Seq::empty()
        })
    }
}

pub open spec fn has_entity_layer(layers: Seq<LayerInstance>) -> bool {
    exists|k: int| 0 <= k < layers.len() && #[trigger] layers[k].layer_instance_type == LayerType::Entities
}

/// The doors of a level.
pub open spec fn room_doors_spec(level: Level, g: int) -> Seq<DoorDef> {
    match level.layer_instances {
        None => Seq::empty(),
        Some(ls) => layer_doors(ls@, level, g),
    }
}

/// Every problem with one level, in the order found.
pub open spec fn room_errors_spec(level: Level, g: i32) -> Seq<CatalogErrorView> {
    (if (level.px_wid as int) % (g as int) != 0 || (level.px_hei as int) % (g as int) != 0 {
        seq![CatalogErrorView::LevelNotTileAligned { level: level.identifier@ }]
    } else {
        Seq::empty()
    }) + match level.layer_instances {
        None => seq![CatalogErrorView::DoorLayerMissing { level: level.identifier@ }],
        Some(ls) => layer_errors(ls@, level, g) + if !has_entity_layer(ls@) {
            seq![CatalogErrorView::DoorLayerMissing { level: level.identifier@ }]
        } else {
            Seq::empty()
        },
    }
}

/// The first field instance named `name`.
pub open spec fn first_field(fields: Seq<FieldInstance>, name: Seq<char>) -> Option<FieldInstance>
    decreases fields.len(),
{
    if fields.len() == 0 {
        None
    } else if fields[0].identifier@ == name {
        Some(fields[0])
    } else {
        first_field(fields.drop_first(), name)
    }
}

/// Whether tag `names[i]` is set on `level`: the tag array field is present,
/// lists that name, and `i` is the name's first ordinal.
pub open spec fn bool_tag_spec(
    level: Level,
    field: Option<Seq<char>>,
    names: Seq<Seq<char>>,
    i: int,
) -> bool {
    match field {
        None => false,
        Some(f) => match first_field(level.field_instances@, f) {
            None => false,
            Some(fi) => match fi.value {
                FieldValue::Enums(vals) => (exists|j: int|
                    0 <= j < vals@.len() && #[trigger] vals@[j] is Some && vals@[j].unwrap()@
                        == names[i]) && (forall|k: int| 0 <= k < i ==> names[k] != names[i]),
                _ => false,
            },
        },
    }
}

/// Bits of the value an absent float tag reads as: 1.0 for `weight`, else 0.0.
pub open spec fn float_default(name: Seq<char>) -> u32 {
    if name == "weight"@ {
        FLOAT_ONE_BITS
    } else {
        FLOAT_ZERO_BITS
    }
}

/// Bits of a level's value for float tag `name`.
pub open spec fn float_tag_spec(level: Level, name: Seq<char>) -> u32 {
    match first_field(level.field_instances@, name) {
        Some(fi) => match fi.value {
            FieldValue::Float(Some(b)) => b,
            _ => float_default(name),
        },
        None => float_default(name),
    }
}

/// `room` is what the catalog makes of `level`.
pub open spec fn room_matches(
    room: RoomDef,
    level: Level,
    g: int,
    field: Option<Seq<char>>,
    bool_names: Seq<Seq<char>>,
    float_names: Seq<Seq<char>>,
) -> bool {
    &&& room.iid@ == level.iid@
    &&& room.size == TileSize {
        width: tiles(level.px_wid, g) as u32,
        height: tiles(level.px_hei, g) as u32,
    }
    &&& room.doors@ == room_doors_spec(level, g)
    &&& room.world_offset_px == PixelPos { x: level.world_x, y: level.world_y }
    &&& room.tags.bools().len() == bool_names.len()
    &&& forall|i: int|
        0 <= i < bool_names.len() ==> #[trigger] room.tags.bools()[i] == bool_tag_spec(
            level,
            field,
            bool_names,
            i,
        )
    &&& room.tags.floats() == float_names.map_values(|n: Seq<char>| float_tag_spec(level, n))
}

/// No earlier level has the same iid.
pub open spec fn level_is_first(levels: Seq<Level>, j: int) -> bool {
    forall|k: int| 0 <= k < j ==> #[trigger] levels[k].iid@ != levels[j].iid@
}

/// The errors the `j`th level contributes: its own, then `DuplicateLevelIid`
/// if an earlier level has its iid.
pub open spec fn level_entry_errors(levels: Seq<Level>, g: i32, j: int) -> Seq<CatalogErrorView> {
    room_errors_spec(levels[j], g) + if !level_is_first(levels, j) {
        seq![CatalogErrorView::DuplicateLevelIid { iid: levels[j].iid@ }]
    } else {
        Seq::empty()
    }
}

/// The errors of the first `n` levels.
pub open spec fn levels_errors(levels: Seq<Level>, g: i32, n: int) -> Seq<CatalogErrorView>
    decreases n,
{
    if n <= 0 {
        Seq::empty()
    } else {
        levels_errors(levels, g, n - 1) + level_entry_errors(levels, g, n - 1)
    }
}

/// A room with exactly one door, facing `dir`: what closes a `dir` door.
pub open spec fn is_cap_for(doors: Seq<DoorDef>, dir: Dir) -> bool {
    doors.len() == 1 && doors[0].dir == dir
}

/// Some kept level (the first with its iid) is a cap for `dir`.
pub open spec fn has_cap(levels: Seq<Level>, g: int, dir: Dir) -> bool {
    exists|j: int|
        0 <= j < levels.len() && level_is_first(levels, j) && #[trigger] is_cap_for(
            room_doors_spec(levels[j], g),
            dir,
        )
}

pub open spec fn cap_error(levels: Seq<Level>, g: int, dir: Dir) -> Seq<CatalogErrorView> {
    if has_cap(levels, g, dir) {
        Seq::empty()
    } else {
        seq![CatalogErrorView::NoCapRoomForDirection { dir }]
    }
}

/// Every error a project with grid size `g` has, in the order reported.
pub open spec fn catalog_errors(levels: Seq<Level>, g: i32) -> Seq<CatalogErrorView> {
    levels_errors(levels, g, levels.len() as int) + (if levels.len() == 0 {
        seq![CatalogErrorView::EmptyCatalog]
    } else {
        Seq::empty()
    }) + cap_error(levels, g as int, Dir::N) + cap_error(levels, g as int, Dir::E) + cap_error(
        levels,
        g as int,
        Dir::S,
    ) + cap_error(levels, g as int, Dir::W)
}

/// The `i32` arithmetic on one door entity does not overflow.
pub open spec fn door_arith_ok(e: EntityInstance, level: Level, g: int) -> bool {
    &&& fits_i32(e.px.y + e.height)
    &&& fits_i32(e.px.x + e.width)
    &&& door_dir_spec(e, level) is Some ==> fits_i32(tiles(level.px_hei, g) - 1 - e.grid.y)
}

/// The `i32` arithmetic on every door entity of `level` does not overflow.
pub open spec fn level_arith_ok(level: Level, g: int) -> bool {
    level.layer_instances is Some ==> forall|k: int, m: int|
        #![trigger level.layer_instances.unwrap()@[k].entity_instances@[m]]
        0 <= k < level.layer_instances.unwrap()@.len() && level.layer_instances.unwrap()@[k].layer_instance_type
            == LayerType::Entities && 0 <= m < level.layer_instances.unwrap()@[k].entity_instances@.len()
            && is_door(level.layer_instances.unwrap()@[k].entity_instances@[m]) ==> door_arith_ok(
            level.layer_instances.unwrap()@[k].entity_instances@[m],
            level,
            g,
        )
}

/// Building the catalog of `project` does not overflow `i32` on any door.
pub open spec fn project_arith_ok(project: LdtkJson) -> bool {
    match first_grid_size(project.levels@) {
        Some(g) => g > 0 ==> forall|i: int|
            0 <= i < project.levels@.len() ==> level_arith_ok(#[trigger] project.levels@[i], g as int),
        None => true,
    }
}


// ---------------------------------------------------------------------------
// Building.
// ---------------------------------------------------------------------------

pub proof fn lemma_errs_view_push(v: Seq<CatalogError>, e: CatalogError)
    ensures
        errs_view(v.push(e)) == errs_view(v).push(e@),
{
    assert(errs_view(v.push(e)) =~= errs_view(v).push(e@));
}

pub proof fn lemma_errs_view_add(v: Seq<CatalogError>, w: Seq<CatalogError>)
    ensures
        errs_view(v + w) == errs_view(v) + errs_view(w),
{
    assert(errs_view(v + w) =~= errs_view(v) + errs_view(w));
}

/// Builds the door an entity defines, if it touches an edge of its level.
fn build_door(entity: &EntityInstance, level: &Level, grid_size: i32, height_tiles: u32) -> (r:
    Option<DoorDef>)
    requires
        grid_size > 0,
        door_arith_ok(*entity, *level, grid_size as int),
        height_tiles == tiles(level.px_hei, grid_size as int),
    ensures
        r == door_def_spec(*entity, *level, grid_size as int),
{
    let touches_north = entity.px.y == 0;
    let touches_south = entity.px.y + entity.height == level.px_hei;
    let touches_west = entity.px.x == 0;
    let touches_east = entity.px.x + entity.width == level.px_wid;

    let dir = if touches_north {
        Dir::N
    } else if touches_east {
        Dir::E
    } else if touches_south {
        Dir::S
    } else if touches_west {
        Dir::W
    } else {
        return None;
    };

    // N/S doors run along a horizontal edge (extent = width); E/W doors along
    // a vertical one (extent = height).
    let extent_px = match dir {
        Dir::N | Dir::S => entity.width,
        Dir::E | Dir::W => entity.height,
    };
    let q = match extent_px.checked_div(grid_size) {
        Some(q) => q,
        None => 0,
    };
    let width: u8 = if q < 1 {
        1
    } else if q > 255 {
        255
    } else {
        q as u8
    };

    // y-up local frame: LDtk's row 0 (top) becomes the highest row here.
    let height_i32: i32 = if height_tiles <= 0x7fff_ffffu32 {
        height_tiles as i32
    } else {
        0
    };
    let local_y = height_i32 - 1 - entity.grid.y;
    Some(DoorDef { local_pos: TilePos { x: entity.grid.x, y: local_y }, dir, width })
}

/// Appends the doors of a layer's `Door` entities, and a `DoorNotOnEdge` for
/// each one that touches no edge.
fn collect_doors(
    layer: &LayerInstance,
    level: &Level,
    grid_size: i32,
    height_tiles: u32,
    doors: &mut Vec<DoorDef>,
    errors: &mut Vec<CatalogError>,
)
    requires
        grid_size > 0,
        height_tiles == tiles(level.px_hei, grid_size as int),
        forall|m: int|
            0 <= m < layer.entity_instances@.len() && is_door(#[trigger] layer.entity_instances@[m])
                ==> door_arith_ok(layer.entity_instances@[m], *level, grid_size as int),
    ensures
        final(doors)@ == old(doors)@ + entity_doors(layer.entity_instances@, *level, grid_size as int),
        errs_view(final(errors)@) == errs_view(old(errors)@) + entity_errors(
            layer.entity_instances@,
            *level,
        ),
{
    let ghost es = layer.entity_instances@;
    let ghost g = grid_size as int;
    let ghost doors0 = doors@;
    let ghost errors0 = errs_view(errors@);
    let door_name = String::from_str("Door");
    let mut i: usize = 0;
    while i < layer.entity_instances.len()
        invariant
            es == layer.entity_instances@,
            g == grid_size as int,
            grid_size > 0,
            height_tiles == tiles(level.px_hei, g),
            door_name@ == "Door"@,
            forall|m: int|
                0 <= m < es.len() && is_door(#[trigger] es[m]) ==> door_arith_ok(es[m], *level, g),
            i <= es.len(),
            doors@ == doors0 + entity_doors(es.subrange(0, i as int), *level, g),
            errs_view(errors@) == errors0 + entity_errors(es.subrange(0, i as int), *level),
        decreases es.len() - i,
    {
        let entity = &layer.entity_instances[i];
        proof {
            assert(es.subrange(0, i + 1).drop_last() =~= es.subrange(0, i as int));
            assert(es.subrange(0, i + 1).last() == es[i as int]);
        }
        if entity.identifier == door_name {
            match build_door(entity, level, grid_size, height_tiles) {
                Some(door) => {
                    doors.push(door);
                    assert(doors@ =~= doors0 + entity_doors(es.subrange(0, i + 1), *level, g));
                    assert(errs_view(errors@) =~= errors0 + entity_errors(
                        es.subrange(0, i + 1),
                        *level,
                    ));
                },
                None => {
                    let e = CatalogError::DoorNotOnEdge {
                        level: level.identifier.clone(),
                        at: TilePos { x: entity.grid.x, y: entity.grid.y },
                    };
                    proof {
                        lemma_errs_view_push(errors@, e);
                    }
                    errors.push(e);
                    assert(doors@ =~= doors0 + entity_doors(es.subrange(0, i + 1), *level, g));
                    assert(errs_view(errors@) =~= errors0 + entity_errors(
                        es.subrange(0, i + 1),
                        *level,
                    ));
                },
            }
        } else {
            assert(doors@ =~= doors0 + entity_doors(es.subrange(0, i + 1), *level, g));
            assert(errs_view(errors@) =~= errors0 + entity_errors(es.subrange(0, i + 1), *level));
        }
        i = i + 1;
    }
    assert(es.subrange(0, es.len() as int) =~= es);
}

/// The index of the first field instance named `name`.
fn find_field(fields: &Vec<FieldInstance>, name: &String) -> (r: Option<usize>)
    ensures
        match r {
            Some(k) => k < fields@.len() && first_field(fields@, name@) == Some(fields@[k as int]),
            None => first_field(fields@, name@) is None,
        },
{
    let mut k: usize = 0;
    assert(fields@.skip(0) =~= fields@);
    while k < fields.len()
        invariant
            k <= fields@.len(),
            first_field(fields@, name@) == first_field(fields@.skip(k as int), name@),
        decreases fields.len() - k,
    {
        assert(fields@.skip(k as int).drop_first() =~= fields@.skip(k + 1));
        assert(fields@.skip(k as int)[0] == fields@[k as int]);
        if fields[k].identifier == *name {
            return Some(k);
        }
        k = k + 1;
    }
    None
}

/// The first ordinal at which `value` occurs in `names`.
fn position(names: &Vec<String>, value: &String) -> (r: Option<usize>)
    ensures
        match r {
            Some(k) => k < names@.len() && names@[k as int]@ == value@ && forall|j: int|
                0 <= j < k ==> names@[j]@ != value@,
            None => forall|j: int| 0 <= j < names@.len() ==> names@[j]@ != value@,
        },
{
    let mut k: usize = 0;
    while k < names.len()
        invariant
            k <= names@.len(),
            forall|j: int| 0 <= j < k ==> names@[j]@ != value@,
        decreases names.len() - k,
    {
        if names[k] == *value {
            return Some(k);
        }
        k = k + 1;
    }
    None
}

pub open spec fn names_view(v: Seq<String>) -> Seq<Seq<char>> {
    v.map_values(|s: String| s@)
}

pub open spec fn opt_view(o: Option<&String>) -> Option<Seq<char>> {
    match o {
        Some(s) => Some(s@),
        None => None,
    }
}

/// The level's bool tags, one per name: set where the tag array field lists
/// the name (at its first ordinal).
fn resolve_bool_tags(level: &Level, tags_field_id: Option<&String>, names: &Vec<String>) -> (r: Vec<
    bool,
>)
    ensures
        r@.len() == names@.len(),
        forall|i: int|
            0 <= i < names@.len() ==> #[trigger] r@[i] == bool_tag_spec(
                *level,
                opt_view(tags_field_id),
                names_view(names@),
                i,
            ),
{
    let ghost nv = names_view(names@);
    let mut out: Vec<bool> = Vec::new();
    let mut n: usize = 0;
    while n < names.len()
        invariant
            n <= names@.len(),
            out@.len() == n,
            forall|i: int| 0 <= i < n ==> out@[i] == false,
        decreases names.len() - n,
    {
        out.push(false);
        n = n + 1;
    }
    let field_id = match tags_field_id {
        None => {
            return out;
        },
        Some(f) => f,
    };
    let fi = match find_field(&level.field_instances, field_id) {
        None => {
            return out;
        },
        Some(k) => k,
    };
    let values = match &level.field_instances[fi].value {
        FieldValue::Enums(v) => v,
        _ => {
            return out;
        },
    };
    let mut j: usize = 0;
    while j < values.len()
        invariant
            nv == names_view(names@),
            j <= values@.len(),
            out@.len() == names@.len(),
            forall|i: int|
                0 <= i < names@.len() ==> #[trigger] out@[i] == ((exists|jj: int|
                    0 <= jj < j && #[trigger] values@[jj] is Some && values@[jj].unwrap()@ == nv[i])
                    && (forall|k: int| 0 <= k < i ==> nv[k] != nv[i])),
        decreases values.len() - j,
    {
        let ghost old_out = out@;
        match &values[j] {
            Some(value) => {
                match position(names, value) {
                    Some(idx) => {
                        out.set(idx, true);
                        assert forall|i: int| 0 <= i < names@.len() implies #[trigger] out@[i] == ((
                        exists|jj: int|
                            0 <= jj < j + 1 && #[trigger] values@[jj] is Some
                                && values@[jj].unwrap()@ == nv[i]) && (forall|k: int|
                            0 <= k < i ==> nv[k] != nv[i])) by {
                            if i == idx {
                                assert(values@[j as int] is Some && values@[j as int].unwrap()@
                                    == nv[i]);
                            } else if nv[i] == value@ {
                                if i < idx {
                                    assert(names@[i]@ == value@);
                                } else {
                                    assert(nv[idx as int] == nv[i]);
                                }
                            } else {
                                assert forall|jj: int|
                                    0 <= jj < j + 1 && #[trigger] values@[jj] is Some
                                        && values@[jj].unwrap()@ == nv[i] implies jj < j by {}
                            }
                        }
                    },
                    None => {
                        assert forall|i: int| 0 <= i < names@.len() implies #[trigger] out@[i] == ((
                        exists|jj: int|
                            0 <= jj < j + 1 && #[trigger] values@[jj] is Some
                                && values@[jj].unwrap()@ == nv[i]) && (forall|k: int|
                            0 <= k < i ==> nv[k] != nv[i])) by {
                            assert(names@[i]@ != value@);
                            assert forall|jj: int|
                                0 <= jj < j + 1 && #[trigger] values@[jj] is Some
                                    && values@[jj].unwrap()@ == nv[i] implies jj < j by {}
                        }
                    },
                }
            },
            None => {
                assert forall|i: int| 0 <= i < names@.len() implies #[trigger] out@[i] == ((
                exists|jj: int|
                    0 <= jj < j + 1 && #[trigger] values@[jj] is Some && values@[jj].unwrap()@
                        == nv[i]) && (forall|k: int| 0 <= k < i ==> nv[k] != nv[i])) by {
                    assert forall|jj: int|
                        0 <= jj < j + 1 && #[trigger] values@[jj] is Some && values@[jj].unwrap()@
                            == nv[i] implies jj < j by {}
                }
            },
        }
        j = j + 1;
    }
    out
}

/// The level's float tag values, one per name, as bit patterns.
fn resolve_float_tags(level: &Level, names: &Vec<String>) -> (r: Vec<u32>)
    ensures
        r@ == names_view(names@).map_values(|n: Seq<char>| float_tag_spec(*level, n)),
{
    let ghost nv = names_view(names@);
    let weight = String::from_str("weight");
    let mut out: Vec<u32> = Vec::new();
    let mut i: usize = 0;
    while i < names.len()
        invariant
            nv == names_view(names@),
            weight@ == "weight"@,
            i <= names@.len(),
            out@ == nv.subrange(0, i as int).map_values(|n: Seq<char>| float_tag_spec(*level, n)),
        decreases names.len() - i,
    {
        let name = &names[i];
        // The one exception to float tags' 0.0 default: a room with no stated
        // weight is ordinary, not unselectable.
        let default = if *name == weight {
            FLOAT_ONE_BITS
        } else {
            FLOAT_ZERO_BITS
        };
        let value = match find_field(&level.field_instances, name) {
            Some(k) => match &level.field_instances[k].value {
                FieldValue::Float(Some(b)) => *b,
                _ => default,
            },
            None => default,
        };
        out.push(value);
        assert(out@ =~= nv.subrange(0, i + 1).map_values(
            |n: Seq<char>| float_tag_spec(*level, n),
        ));
        i = i + 1;
    }
    assert(nv.subrange(0, names@.len() as int) =~= nv);
    out
}


/// Builds one level's room, with every problem found in it. A badly formed
/// level still yields a room, so that one bad door does not hide the others.
fn build_room(
    level: &Level,
    grid_size: i32,
    tags_field_id: Option<&String>,
    bool_tag_names: &Vec<String>,
    float_tag_names: &Vec<String>,
) -> (r: (RoomDef, Vec<CatalogError>))
    requires
        grid_size > 0,
        level_arith_ok(*level, grid_size as int),
    ensures
        room_matches(
            r.0,
            *level,
            grid_size as int,
            opt_view(tags_field_id),
            names_view(bool_tag_names@),
            names_view(float_tag_names@),
        ),
        errs_view(r.1@) == room_errors_spec(*level, grid_size),
{
    let ghost g = grid_size as int;
    let mut errors: Vec<CatalogError> = Vec::new();

    let rem_w = match level.px_wid.checked_rem_euclid(grid_size) {
        Some(v) => v,
        None => 0,
    };
    let rem_h = match level.px_hei.checked_rem_euclid(grid_size) {
        Some(v) => v,
        None => 0,
    };
    if rem_w != 0 || rem_h != 0 {
        let e = CatalogError::LevelNotTileAligned { level: level.identifier.clone() };
        proof {
            lemma_errs_view_push(errors@, e);
        }
        errors.push(e);
    }
    let ghost aligned_errors = errs_view(errors@);
    assert(aligned_errors =~= if (level.px_wid as int) % g != 0 || (level.px_hei as int) % g != 0 {
        seq![CatalogErrorView::LevelNotTileAligned { level: level.identifier@ }]
    } else {
        Seq::empty()
    });

    let width_tiles: u32 = if level.px_wid >= 0 {
        match level.px_wid.checked_div_euclid(grid_size) {
            Some(v) => v as u32,
            None => 0,
        }
    } else {
        0
    };
    let height_tiles: u32 = if level.px_hei >= 0 {
        match level.px_hei.checked_div_euclid(grid_size) {
            Some(v) => v as u32,
            None => 0,
        }
    } else {
        0
    };
    let size = TileSize { width: width_tiles, height: height_tiles };

    let mut doors: Vec<DoorDef> = Vec::new();
    match &level.layer_instances {
        None => {
            let e = CatalogError::DoorLayerMissing { level: level.identifier.clone() };
            proof {
                lemma_errs_view_push(errors@, e);
            }
            errors.push(e);
            assert(errs_view(errors@) =~= room_errors_spec(*level, grid_size));
            assert(doors@ =~= room_doors_spec(*level, g));
        },
        Some(layers) => {
            let ghost ls = layers@;
            let mut found_entity_layer = false;
            let mut k: usize = 0;
            while k < layers.len()
                invariant
                    ls == layers@,
                    level.layer_instances == Some(*layers),
                    level_arith_ok(*level, g),
                    g == grid_size as int,
                    grid_size > 0,
                    height_tiles == tiles(level.px_hei, g),
                    k <= ls.len(),
                    doors@ == layer_doors(ls.subrange(0, k as int), *level, g),
                    errs_view(errors@) == aligned_errors + layer_errors(
                        ls.subrange(0, k as int),
                        *level,
                        grid_size,
                    ),
                    found_entity_layer == has_entity_layer(ls.subrange(0, k as int)),
                decreases ls.len() - k,
            {
                let layer = &layers[k];
                let ghost before = errs_view(errors@);
                proof {
                    assert(ls.subrange(0, k + 1).drop_last() =~= ls.subrange(0, k as int));
                    assert(ls.subrange(0, k + 1).last() == ls[k as int]);
                }
                if layer.grid_size != grid_size {
                    let e = CatalogError::MixedGridSize {
                        level: level.identifier.clone(),
                        expected: grid_size,
                        found: layer.grid_size,
                    };
                    proof {
                        lemma_errs_view_push(errors@, e);
                    }
                    errors.push(e);
                }
                let ghost mid = errs_view(errors@);
                if layer.layer_instance_type == LayerType::Entities {
                    found_entity_layer = true;
                    assert forall|m: int|
                        0 <= m < layer.entity_instances@.len() && is_door(
                            #[trigger] layer.entity_instances@[m],
                        ) implies door_arith_ok(layer.entity_instances@[m], *level, g) by {
                        assert(ls[k as int].entity_instances@[m] == layer.entity_instances@[m]);
                    }
                    collect_doors(layer, level, grid_size, height_tiles, &mut doors, &mut errors);
                }
                proof {
                    assert(errs_view(errors@) =~= aligned_errors + layer_errors(
                        ls.subrange(0, k + 1),
                        *level,
                        grid_size,
                    ));
                    assert(doors@ =~= layer_doors(ls.subrange(0, k + 1), *level, g));
                    if layer.layer_instance_type == LayerType::Entities {
                        assert(ls.subrange(0, k + 1)[k as int].layer_instance_type
                            == LayerType::Entities);
                    } else if has_entity_layer(ls.subrange(0, k + 1)) {
                        let w = choose|w: int|
                            0 <= w < k + 1 && #[trigger] ls.subrange(0, k + 1)[w].layer_instance_type
                                == LayerType::Entities;
                        assert(ls.subrange(0, k as int)[w].layer_instance_type
                            == LayerType::Entities);
                    }
                }
                k = k + 1;
            }
            assert(ls.subrange(0, ls.len() as int) =~= ls);
            if !found_entity_layer {
                let e = CatalogError::DoorLayerMissing { level: level.identifier.clone() };
                proof {
                    lemma_errs_view_push(errors@, e);
                }
                errors.push(e);
            }
            assert(errs_view(errors@) =~= room_errors_spec(*level, grid_size));
        },
    }

    let bool_tags = resolve_bool_tags(level, tags_field_id, bool_tag_names);
    let float_tags = resolve_float_tags(level, float_tag_names);

    let room = RoomDef {
        iid: level.iid.clone(),
        size,
        doors,
        world_offset_px: PixelPos { x: level.world_x, y: level.world_y },
        tags: RoomTags { bool_tags, float_tags },
    };
    (room, errors)
}


/// The grid size of the first layer of the first level that has layers.
fn find_grid_size(project: &LdtkJson) -> (r: Option<i32>)
    ensures
        r == first_grid_size(project.levels@),
{
    let ghost lv = project.levels@;
    let mut i: usize = 0;
    assert(lv.skip(0) =~= lv);
    while i < project.levels.len()
        invariant
            lv == project.levels@,
            i <= lv.len(),
            first_grid_size(lv) == first_grid_size(lv.skip(i as int)),
        decreases lv.len() - i,
    {
        assert(lv.skip(i as int).drop_first() =~= lv.skip(i + 1));
        assert(lv.skip(i as int)[0] == lv[i as int]);
        if let Some(layers) = &project.levels[i].layer_instances {
            if layers.len() > 0 {
                return Some(layers[0].grid_size);
            }
        }
        i = i + 1;
    }
    None
}

fn find_tags_field_identifier(project: &LdtkJson) -> (r: Option<String>)
    ensures
        match r {
            Some(s) => tags_field_spec(project.defs.level_fields@) == Some(s@),
            None => tags_field_spec(project.defs.level_fields@) is None,
        },
{
    let ghost fs = project.defs.level_fields@;
    let wanted = String::from_str("Array<LocalEnum.RoomTags>");
    let mut i: usize = 0;
    assert(fs.skip(0) =~= fs);
    while i < project.defs.level_fields.len()
        invariant
            fs == project.defs.level_fields@,
            wanted@ == "Array<LocalEnum.RoomTags>"@,
            i <= fs.len(),
            tags_field_spec(fs) == tags_field_spec(fs.skip(i as int)),
        decreases fs.len() - i,
    {
        assert(fs.skip(i as int).drop_first() =~= fs.skip(i + 1));
        assert(fs.skip(i as int)[0] == fs[i as int]);
        let f = &project.defs.level_fields[i];
        if f.field_definition_type == wanted {
            return Some(f.identifier.clone());
        }
        i = i + 1;
    }
    None
}

fn find_room_tags_enum_values(project: &LdtkJson) -> (r: Vec<String>)
    ensures
        names_view(r@) == room_tag_names_spec(project.defs.enums@),
{
    let ghost es = project.defs.enums@;
    let wanted = String::from_str("RoomTags");
    let mut i: usize = 0;
    assert(es.skip(0) =~= es);
    while i < project.defs.enums.len()
        invariant
            es == project.defs.enums@,
            wanted@ == "RoomTags"@,
            i <= es.len(),
            room_tag_names_spec(es) == room_tag_names_spec(es.skip(i as int)),
        decreases es.len() - i,
    {
        assert(es.skip(i as int).drop_first() =~= es.skip(i + 1));
        assert(es.skip(i as int)[0] == es[i as int]);
        let e = &project.defs.enums[i];
        if e.identifier == wanted {
            let mut out: Vec<String> = Vec::new();
            let mut j: usize = 0;
            while j < e.values.len()
                invariant
                    j <= e.values@.len(),
                    names_view(out@) == e.values@.subrange(0, j as int).map_values(
                        |v: EnumValueDefinition| v.id@,
                    ),
                decreases e.values.len() - j,
            {
                let id = e.values[j].id.clone();
                assert(id@ == e.values@[j as int].id@);
                let ghost before = out@;
                out.push(id);
                assert(names_view(out@) =~= names_view(before).push(id@));
                assert(names_view(out@) =~= e.values@.subrange(0, j + 1).map_values(
                    |v: EnumValueDefinition| v.id@,
                ));
                j = j + 1;
            }
            assert(e.values@.subrange(0, e.values@.len() as int) =~= e.values@);
            return out;
        }
        i = i + 1;
    }
    let out: Vec<String> = Vec::new();
    assert(names_view(out@) =~= Seq::empty());
    out
}

fn find_float_tag_field_names(project: &LdtkJson) -> (r: Vec<String>)
    ensures
        names_view(r@) == float_names_spec(project.defs.level_fields@),
{
    let ghost fs = project.defs.level_fields@;
    let wanted = String::from_str("Float");
    let mut out: Vec<String> = Vec::new();
    let mut i: usize = 0;
    assert(names_view(out@) =~= Seq::empty());
    while i < project.defs.level_fields.len()
        invariant
            fs == project.defs.level_fields@,
            wanted@ == "Float"@,
            i <= fs.len(),
            names_view(out@) == float_names_spec(fs.subrange(0, i as int)),
        decreases fs.len() - i,
    {
        assert(fs.subrange(0, i + 1).drop_last() =~= fs.subrange(0, i as int));
        let f = &project.defs.level_fields[i];
        if f.field_definition_type == wanted {
            out.push(f.identifier.clone());
        }
        assert(names_view(out@) =~= float_names_spec(fs.subrange(0, i + 1)));
        i = i + 1;
    }
    assert(fs.subrange(0, fs.len() as int) =~= fs);
    out
}

/// Some level no later than `j` is the first with `j`'s iid.
proof fn lemma_first_occurrence(levels: Seq<Level>, j: int)
    requires
        0 <= j < levels.len(),
    ensures
        exists|f: int|
            0 <= f <= j && level_is_first(levels, f) && #[trigger] levels[f].iid@ == levels[j].iid@,
    decreases j,
{
    if !level_is_first(levels, j) {
        let k = choose|k: int| 0 <= k < j && #[trigger] levels[k].iid@ == levels[j].iid@;
        lemma_first_occurrence(levels, k);
    } else {
        assert(levels[j].iid@ == levels[j].iid@);
    }
}

/// No errors among the first `n` levels means each of them is the first with
/// its iid.
proof fn lemma_no_level_errors(levels: Seq<Level>, g: i32, n: int)
    requires
        levels_errors(levels, g, n).len() == 0,
    ensures
        forall|j: int| 0 <= j < n ==> level_is_first(levels, j),
    decreases n,
{
    if n > 0 {
        lemma_no_level_errors(levels, g, n - 1);
    }
}

/// Whether some room has exactly one door, facing `dir`.
fn has_cap_room(rooms: &Vec<RoomDef>, dir: Dir) -> (r: bool)
    ensures
        r == exists|k: int| 0 <= k < rooms@.len() && #[trigger] is_cap_for(rooms@[k].doors@, dir),
{
    let mut k: usize = 0;
    while k < rooms.len()
        invariant
            k <= rooms@.len(),
            forall|j: int| 0 <= j < k ==> !#[trigger] is_cap_for(rooms@[j].doors@, dir),
        decreases rooms.len() - k,
    {
        let doors = &rooms[k].doors;
        if doors.len() == 1 && doors[0].dir == dir {
            assert(is_cap_for(rooms@[k as int].doors@, dir));
            return true;
        }
        k = k + 1;
    }
    false
}

/// Whether some room's iid is `iid`.
fn iid_seen(rooms: &Vec<RoomDef>, iid: &String) -> (r: bool)
    ensures
        r == exists|k: int| 0 <= k < rooms@.len() && #[trigger] rooms@[k].iid@ == iid@,
{
    let mut k: usize = 0;
    while k < rooms.len()
        invariant
            k <= rooms@.len(),
            forall|j: int| 0 <= j < k ==> #[trigger] rooms@[j].iid@ != iid@,
        decreases rooms.len() - k,
    {
        if rooms[k].iid == *iid {
            return true;
        }
        k = k + 1;
    }
    false
}

/// `c` is the catalog of a project whose levels are `levels`, with grid size
/// `g` and the given tag names.
pub open spec fn catalog_built_from(c: Catalog, project: LdtkJson, g: i32) -> bool {
    let levels = project.levels@;
    let field = tags_field_spec(project.defs.level_fields@);
    let bool_names = room_tag_names_spec(project.defs.enums@);
    let float_names = float_names_spec(project.defs.level_fields@);
    &&& c.wf()
    &&& c.grid_size_spec() == g as u32
    &&& c.rooms_spec().len() == levels.len()
    &&& forall|i: int|
        0 <= i < levels.len() ==> room_matches(
            #[trigger] c.rooms_spec()[i],
            levels[i],
            g as int,
            field,
            bool_names,
            float_names,
        )
    &&& c.bool_tag_names_spec() == bool_names
    &&& c.float_tag_names_spec() == float_names
    &&& c.min_clearance_spec() == Map::<u16, TileSize>::empty()
}

/// Parses and validates a whole LDtk project, collecting every error.
///
/// Without any layer to read a grid size from, the project is an empty
/// catalog; a grid size below 1 is reported alone. Otherwise every level is
/// checked, and the catalog is returned only if nothing was found wrong.
pub fn build_catalog(project: &LdtkJson) -> (r: Result<Catalog, CatalogErrors>)
    requires
        project.levels@.len() <= u32::MAX,
        project_arith_ok(*project),
    ensures
        match first_grid_size(project.levels@) {
            None => r matches Err(e) && e@ == seq![CatalogErrorView::EmptyCatalog],
            Some(g) => if g <= 0 {
                r matches Err(e) && e@ == seq![CatalogErrorView::InvalidGridSize { found: g }]
            } else if catalog_errors(project.levels@, g).len() > 0 {
                r matches Err(e) && e@ == catalog_errors(project.levels@, g)
            } else {
                r matches Ok(c) && catalog_built_from(c, *project, g)
            },
        },
{
    let grid_size = match find_grid_size(project) {
        Some(g) => g,
        None => {
            // Every level's layer list is absent or empty: an empty project,
            // or one saved as separate level files.
            let mut v: Vec<CatalogError> = Vec::new();
            v.push(CatalogError::EmptyCatalog);
            let errs = CatalogErrors(v);
            assert(errs@ =~= seq![CatalogErrorView::EmptyCatalog]);
            return Err(errs);
        },
    };
    if grid_size <= 0 {
        let mut v: Vec<CatalogError> = Vec::new();
        v.push(CatalogError::InvalidGridSize { found: grid_size });
        let errs = CatalogErrors(v);
        assert(errs@ =~= seq![CatalogErrorView::InvalidGridSize { found: grid_size }]);
        return Err(errs);
    }
    let grid_size_u32 = grid_size as u32;

    let tags_field_id = find_tags_field_identifier(project);
    let bool_tag_names = find_room_tags_enum_values(project);
    let float_tag_names = find_float_tag_field_names(project);

    let ghost g = grid_size as int;
    let ghost levels = project.levels@;
    let ghost field = tags_field_spec(project.defs.level_fields@);
    let ghost bnames = room_tag_names_spec(project.defs.enums@);
    let ghost fnames = float_names_spec(project.defs.level_fields@);
    let tf_ref = tags_field_id.as_ref();
    let ghost tfv = opt_view(tf_ref);
    assert(tfv == field);

    let mut errors: Vec<CatalogError> = Vec::new();
    let mut rooms: Vec<RoomDef> = Vec::new();
    let ghost mut kept: Seq<int> = Seq::empty();

    let mut i: usize = 0;
    while i < project.levels.len()
        invariant
            levels == project.levels@,
            g == grid_size as int,
            grid_size > 0,
            first_grid_size(levels) == Some(grid_size),
            project_arith_ok(*project),
            field == tfv,
            tfv == opt_view(tf_ref),
            bnames == names_view(bool_tag_names@),
            fnames == names_view(float_tag_names@),
            i <= levels.len(),
            rooms@.len() == kept.len(),
            forall|k: int|
                #![trigger kept[k]]
                0 <= k < kept.len() ==> 0 <= kept[k] < i && level_is_first(levels, kept[k])
                    && room_matches(rooms@[k], levels[kept[k]], g, field, bnames, fnames),
            forall|j: int|
                0 <= j < i && level_is_first(levels, j) ==> exists|k: int|
                    0 <= k < kept.len() && #[trigger] kept[k] == j,
            (forall|j: int| 0 <= j < i ==> level_is_first(levels, j)) ==> kept =~= Seq::new(
                i as nat,
                |j: int| j,
            ),
            errs_view(errors@) == levels_errors(levels, grid_size, i as int),
        decreases levels.len() - i,
    {
        let level = &project.levels[i];
        assert(level_arith_ok(*level, g));
        let (room, mut room_errors) = build_room(
            level,
            grid_size,
            tf_ref,
            &bool_tag_names,
            &float_tag_names,
        );
        let ghost before = errors@;
        proof {
            lemma_errs_view_add(errors@, room_errors@);
        }
        errors.append(&mut room_errors);

        let seen = iid_seen(&rooms, &level.iid);
        proof {
            if seen {
                let k = choose|k: int| 0 <= k < rooms@.len() && #[trigger] rooms@[k].iid@ == level.iid@;
                assert(kept[k] < i && levels[kept[k]].iid@ == levels[i as int].iid@);
                assert(!level_is_first(levels, i as int));
            } else {
                if !level_is_first(levels, i as int) {
                    lemma_first_occurrence(levels, i as int);
                    let f = choose|f: int|
                        0 <= f <= i && level_is_first(levels, f) && #[trigger] levels[f].iid@
                            == levels[i as int].iid@;
                    if f == i {
                        assert(false);
                    }
                    let k = choose|k: int| 0 <= k < kept.len() && #[trigger] kept[k] == f;
                    assert(rooms@[k].iid@ == level.iid@);
                }
            }
        }
        if seen {
            let e = CatalogError::DuplicateLevelIid { iid: room.iid.clone() };
            proof {
                lemma_errs_view_push(errors@, e);
            }
            errors.push(e);
            assert(errs_view(errors@) =~= levels_errors(levels, grid_size, i + 1));
            assert(!(forall|j: int| 0 <= j < i + 1 ==> level_is_first(levels, j)));
        } else {
            let ghost old_kept = kept;
            rooms.push(room);
            proof {
                kept = kept.push(i as int);
                assert(kept[kept.len() - 1] == i);
                assert forall|k: int| 0 <= k < kept.len() implies 0 <= #[trigger] kept[k] < i + 1
                    && level_is_first(levels, kept[k]) && room_matches(
                    rooms@[k],
                    levels[kept[k]],
                    g,
                    field,
                    bnames,
                    fnames,
                ) by {
                    if k < old_kept.len() {
                        assert(kept[k] == old_kept[k]);
                    }
                }
                assert forall|j: int| 0 <= j < i + 1 && level_is_first(levels, j) implies exists|
                    k: int,
                | 0 <= k < kept.len() && #[trigger] kept[k] == j by {
                    if j < i {
                        let k = choose|k: int| 0 <= k < old_kept.len() && #[trigger] old_kept[k] == j;
                        assert(kept[k] == j);
                    } else {
                        assert(kept[kept.len() - 1] == j);
                    }
                }
                if forall|j: int| 0 <= j < i + 1 ==> level_is_first(levels, j) {
                    assert(forall|j: int| 0 <= j < i ==> level_is_first(levels, j));
                    assert(kept =~= Seq::new((i + 1) as nat, |j: int| j));
                }
            }
            assert(errs_view(errors@) =~= levels_errors(levels, grid_size, i + 1));
        }
        i = i + 1;
    }

    if rooms.len() == 0 {
        let e = CatalogError::EmptyCatalog;
        proof {
            lemma_errs_view_push(errors@, e);
            if levels.len() > 0 {
                assert(level_is_first(levels, 0));
                let k = choose|k: int| 0 <= k < kept.len() && #[trigger] kept[k] == 0;
            }
        }
        errors.push(e);
    } else {
        proof {
            let k0 = 0int;
            assert(kept[k0] < levels.len());
        }
    }
    let ghost after_empty = errs_view(errors@);
    assert(after_empty =~= levels_errors(levels, grid_size, levels.len() as int) + (if levels.len()
        == 0 {
        seq![CatalogErrorView::EmptyCatalog]
    } else {
        Seq::empty()
    }));

    let dirs = [Dir::N, Dir::E, Dir::S, Dir::W];
    let mut d: usize = 0;
    while d < 4
        invariant
            dirs@ == seq![Dir::N, Dir::E, Dir::S, Dir::W],
            d <= 4,
            levels == project.levels@,
            g == grid_size as int,
            rooms@.len() == kept.len(),
            forall|k: int|
                #![trigger kept[k]]
                0 <= k < kept.len() ==> 0 <= kept[k] < levels.len() && level_is_first(levels, kept[k])
                    && room_matches(rooms@[k], levels[kept[k]], g, field, bnames, fnames),
            forall|j: int|
                0 <= j < levels.len() && level_is_first(levels, j) ==> exists|k: int|
                    0 <= k < kept.len() && #[trigger] kept[k] == j,
            errs_view(errors@) == after_empty + (if d > 0 {
                cap_error(levels, g, Dir::N)
            } else {
                Seq::empty()
            }) + (if d > 1 {
                cap_error(levels, g, Dir::E)
            } else {
                Seq::empty()
            }) + (if d > 2 {
                cap_error(levels, g, Dir::S)
            } else {
                Seq::empty()
            }) + (if d > 3 {
                cap_error(levels, g, Dir::W)
            } else {
                Seq::empty()
            }),
        decreases 4 - d,
    {
        let dir = dirs[d];
        let found = has_cap_room(&rooms, dir);
        proof {
            if found {
                let k = choose|k: int| 0 <= k < rooms@.len() && #[trigger] is_cap_for(rooms@[k].doors@, dir);
                assert(kept[k] < levels.len());
                assert(is_cap_for(room_doors_spec(levels[kept[k]], g), dir));
            }
            if has_cap(levels, g, dir) {
                let j = choose|j: int|
                    0 <= j < levels.len() && level_is_first(levels, j) && #[trigger] is_cap_for(
                        room_doors_spec(levels[j], g),
                        dir,
                    );
                let k = choose|k: int| 0 <= k < kept.len() && #[trigger] kept[k] == j;
                assert(is_cap_for(rooms@[k].doors@, dir));
            }
        }
        if !found {
            let e = CatalogError::NoCapRoomForDirection { dir };
            proof {
                lemma_errs_view_push(errors@, e);
            }
            errors.push(e);
        }
        assert(errs_view(errors@) =~= after_empty + (if d + 1 > 0 {
            cap_error(levels, g, Dir::N)
        } else {
            Seq::empty()
        }) + (if d + 1 > 1 {
            cap_error(levels, g, Dir::E)
        } else {
            Seq::empty()
        }) + (if d + 1 > 2 {
            cap_error(levels, g, Dir::S)
        } else {
            Seq::empty()
        }) + (if d + 1 > 3 {
            cap_error(levels, g, Dir::W)
        } else {
            Seq::empty()
        }));
        d = d + 1;
    }
    assert(errs_view(errors@) =~= catalog_errors(levels, grid_size));

    if errors.len() > 0 {
        return Err(CatalogErrors(errors));
    }
    proof {
        assert(levels_errors(levels, grid_size, levels.len() as int).len() == 0);
        lemma_no_level_errors(levels, grid_size, levels.len() as int);
        assert(kept =~= Seq::new(levels.len(), |j: int| j));
        assert forall|k: int| 0 <= k < levels.len() implies room_matches(
            #[trigger] rooms@[k],
            levels[k],
            g,
            field,
            bnames,
            fnames,
        ) by {
            assert(kept[k] == k);
        }
    }

    Ok(
        Catalog {
            rooms,
            bool_tag_names,
            float_tag_names,
            grid_size: grid_size_u32,
            // Depends on the placement loop's use of door clearance, which
            // does not exist yet.
            min_clearance: HashMap::new(),
        },
    )
}


fn fits_i32_i64(v: i64) -> (r: bool)
    ensures
        r == fits_i32(v as int),
{
    -0x8000_0000i64 <= v && v <= 0x7fff_ffffi64
}

fn door_arith_in_range(e: &EntityInstance, level: &Level, grid_size: i32) -> (r: bool)
    requires
        grid_size > 0,
    ensures
        r == door_arith_ok(*e, *level, grid_size as int),
{
    let south = e.px.y as i64 + e.height as i64;
    let east = e.px.x as i64 + e.width as i64;
    if !fits_i32_i64(south) || !fits_i32_i64(east) {
        return false;
    }
    let has_dir = e.px.y == 0 || east == level.px_wid as i64 || south == level.px_hei as i64
        || e.px.x == 0;
    if !has_dir {
        return true;
    }
    let h: i64 = if level.px_hei >= 0 {
        match level.px_hei.checked_div_euclid(grid_size) {
            Some(v) => v as i64,
            None => 0,
        }
    } else {
        0
    };
    fits_i32_i64(h - 1 - e.grid.y as i64)
}

/// Whether `build_catalog`'s `i32` arithmetic on the project's doors stays in
/// range, which `build_catalog` requires: a door entity whose far edge, or
/// whose flipped row, lies outside the `i32` range would overflow.
pub fn door_arithmetic_in_range(project: &LdtkJson) -> (r: bool)
    ensures
        r == project_arith_ok(*project),
{
    let g = match find_grid_size(project) {
        None => {
            return true;
        },
        Some(g) => g,
    };
    if g <= 0 {
        return true;
    }
    let door_name = String::from_str("Door");
    let mut i: usize = 0;
    while i < project.levels.len()
        invariant
            g > 0,
            first_grid_size(project.levels@) == Some(g),
            door_name@ == "Door"@,
            i <= project.levels@.len(),
            forall|j: int| 0 <= j < i ==> level_arith_ok(#[trigger] project.levels@[j], g as int),
        decreases project.levels.len() - i,
    {
        let level = &project.levels[i];
        if let Some(layers) = &level.layer_instances {
            let mut k: usize = 0;
            while k < layers.len()
                invariant
                    g > 0,
                    door_name@ == "Door"@,
                    level.layer_instances == Some(*layers),
                    i < project.levels@.len(),
                    *level == project.levels@[i as int],
                    first_grid_size(project.levels@) == Some(g),
                    k <= layers@.len(),
                    forall|kk: int, m: int|
                        #![trigger layers@[kk].entity_instances@[m]]
                        0 <= kk < k && layers@[kk].layer_instance_type == LayerType::Entities && 0 <= m
                            < layers@[kk].entity_instances@.len() && is_door(
                            layers@[kk].entity_instances@[m],
                        ) ==> door_arith_ok(layers@[kk].entity_instances@[m], *level, g as int),
                decreases layers.len() - k,
            {
                let layer = &layers[k];
                if layer.layer_instance_type == LayerType::Entities {
                    let mut m: usize = 0;
                    while m < layer.entity_instances.len()
                        invariant
                            g > 0,
                            door_name@ == "Door"@,
                            k < layers@.len(),
                            *layer == layers@[k as int],
                            level.layer_instances == Some(*layers),
                            i < project.levels@.len(),
                            *level == project.levels@[i as int],
                            layer.layer_instance_type == LayerType::Entities,
                            first_grid_size(project.levels@) == Some(g),
                            m <= layer.entity_instances@.len(),
                            forall|mm: int|
                                0 <= mm < m && is_door(#[trigger] layer.entity_instances@[mm])
                                    ==> door_arith_ok(layer.entity_instances@[mm], *level, g as int),
                        decreases layer.entity_instances.len() - m,
                    {
                        let e = &layer.entity_instances[m];
                        if e.identifier == door_name && !door_arith_in_range(e, level, g) {
                            assert(!level_arith_ok(*level, g as int)) by {
                                assert(layers@[k as int].entity_instances@[m as int] == *e);
                            }
                            assert(!project_arith_ok(*project)) by {
                                assert(project.levels@[i as int] == *level);
                            }
                            return false;
                        }
                        m = m + 1;
                    }
                }
                k = k + 1;
            }
        }
        i = i + 1;
    }
    true
}


/// Door `d` is the door entity `e` defines on `level`: it faces the edge `e`
/// touches, and its width is `e`'s extent along that edge in whole tiles,
/// kept to `1..=255` (its height on the east and west edges, its width on
/// the north and south ones).
pub open spec fn door_read_from(d: DoorDef, e: EntityInstance, level: Level, g: int) -> bool {
    let extent: int = if d.dir is E || d.dir is W {
        e.height as int
    } else {
        e.width as int
    };
    &&& d.dir is N ==> e.px.y == 0
    &&& d.dir is E ==> e.px.x + e.width == level.px_wid
    &&& d.dir is S ==> e.px.y + e.height == level.px_hei
    &&& d.dir is W ==> e.px.x == 0
    &&& d.local_pos.x == e.grid.x
    &&& fits_i32(tiles(level.px_hei, g) - 1 - e.grid.y) ==> d.local_pos.y == tiles(level.px_hei, g) - 1
        - e.grid.y
    &&& extent <= 0 ==> d.width == 1
    &&& extent > 0 ==> d.width as int == if extent / g < 1 {
        1
    } else if extent / g > 255 {
        255
    } else {
        extent / g
    }
}

/// The door an entity defines faces the edge it touches and is as wide as
/// its extent along that edge.
pub proof fn lemma_door_width_along_edge(e: EntityInstance, level: Level, g: int)
    requires
        g > 0,
    ensures
        door_def_spec(e, level, g) matches Some(d) ==> door_read_from(d, e, level, g),
{
    if let Some(d) = door_def_spec(e, level, g) {
        let extent: int = if d.dir is E || d.dir is W {
            e.height as int
        } else {
            e.width as int
        };
        if extent <= 0 {
            assert((-extent) / g >= 0) by (nonlinear_arith)
                requires
                    -extent >= 0,
                    g > 0,
            ;
        }
    }
}

/// Each door of a layer's entities is what one of its door entities defines.
proof fn lemma_entity_doors_from(es: Seq<EntityInstance>, level: Level, g: int, k: int)
    requires
        0 <= k < entity_doors(es, level, g).len(),
    ensures
        exists|ei: int|
            0 <= ei < es.len() && is_door(#[trigger] es[ei]) && door_def_spec(es[ei], level, g) == Some(
                entity_doors(es, level, g)[k],
            ),
    decreases es.len(),
{
    let prev = entity_doors(es.drop_last(), level, g);
    if k < prev.len() {
        lemma_entity_doors_from(es.drop_last(), level, g, k);
        let ei = choose|ei: int|
            0 <= ei < es.drop_last().len() && is_door(#[trigger] es.drop_last()[ei]) && door_def_spec(
                es.drop_last()[ei],
                level,
                g,
            ) == Some(prev[k]);
        assert(es[ei] == es.drop_last()[ei]);
    } else {
        assert(is_door(es[es.len() - 1]));
    }
}

/// Each door of a level's entity layers is what one of their door entities
/// defines.
proof fn lemma_layer_doors_from(ls: Seq<LayerInstance>, level: Level, g: int, k: int)
    requires
        0 <= k < layer_doors(ls, level, g).len(),
    ensures
        exists|li: int, ei: int|
            0 <= li < ls.len() && ls[li].layer_instance_type == LayerType::Entities && 0 <= ei
                < ls[li].entity_instances@.len() && is_door(#[trigger] ls[li].entity_instances@[ei])
                && door_def_spec(ls[li].entity_instances@[ei], level, g) == Some(
                layer_doors(ls, level, g)[k],
            ),
    decreases ls.len(),
{
    let prev = layer_doors(ls.drop_last(), level, g);
    if k < prev.len() {
        lemma_layer_doors_from(ls.drop_last(), level, g, k);
        let (li, ei) = choose|li: int, ei: int|
            0 <= li < ls.drop_last().len() && ls.drop_last()[li].layer_instance_type
                == LayerType::Entities && 0 <= ei < ls.drop_last()[li].entity_instances@.len()
                && is_door(#[trigger] ls.drop_last()[li].entity_instances@[ei]) && door_def_spec(
                ls.drop_last()[li].entity_instances@[ei],
                level,
                g,
            ) == Some(prev[k]);
        assert(ls[li] == ls.drop_last()[li]);
    } else {
        let li = ls.len() - 1;
        lemma_entity_doors_from(ls[li].entity_instances@, level, g, k - prev.len());
    }
}

/// Every door of every room of a built catalog is read from a `Door` entity
/// on an entity layer of its level: it faces the edge that entity touches,
/// and its width is the entity's extent along that edge in whole tiles.
pub proof fn lemma_catalog_doors_read_from_entities(c: Catalog, project: LdtkJson, g: i32, i: int, k: int)
    requires
        catalog_built_from(c, project, g),
        g > 0,
        0 <= i < c.rooms_spec().len(),
        0 <= k < c.rooms_spec()[i].doors@.len(),
    ensures
        ({
            let level = project.levels@[i];
            let d = c.rooms_spec()[i].doors@[k];
            &&& level.layer_instances is Some
            &&& exists|li: int, ei: int|
                0 <= li < level.layer_instances.unwrap()@.len()
                    && level.layer_instances.unwrap()@[li].layer_instance_type == LayerType::Entities
                    && 0 <= ei < level.layer_instances.unwrap()@[li].entity_instances@.len()
                    && (#[trigger] level.layer_instances.unwrap()@[li].entity_instances@[ei]).identifier@
                    == "Door"@ && door_read_from(
                    d,
                    level.layer_instances.unwrap()@[li].entity_instances@[ei],
                    level,
                    g as int,
                )
        }),
{
    let level = project.levels@[i];
    assert(room_matches(
        c.rooms_spec()[i],
        level,
        g as int,
        tags_field_spec(project.defs.level_fields@),
        room_tag_names_spec(project.defs.enums@),
        float_names_spec(project.defs.level_fields@),
    ));
    let ls = level.layer_instances.unwrap()@;
    lemma_layer_doors_from(ls, level, g as int, k);
    let (li, ei) = choose|li: int, ei: int|
        0 <= li < ls.len() && ls[li].layer_instance_type == LayerType::Entities && 0 <= ei
            < ls[li].entity_instances@.len() && is_door(#[trigger] ls[li].entity_instances@[ei])
            && door_def_spec(ls[li].entity_instances@[ei], level, g as int) == Some(
            layer_doors(ls, level, g as int)[k],
        );
    lemma_door_width_along_edge(ls[li].entity_instances@[ei], level, g as int);
}

/// Every door entity touching an edge gives a door of its layer.
proof fn lemma_entity_doors_include(es: Seq<EntityInstance>, level: Level, g: int, ei: int)
    requires
        0 <= ei < es.len(),
        is_door(es[ei]),
        door_def_spec(es[ei], level, g) is Some,
    ensures
        entity_doors(es, level, g).contains(door_def_spec(es[ei], level, g).unwrap()),
    decreases es.len(),
{
    let prev = entity_doors(es.drop_last(), level, g);
    let all = entity_doors(es, level, g);
    let d = door_def_spec(es[ei], level, g).unwrap();
    if ei < es.len() - 1 {
        assert(es.drop_last()[ei] == es[ei]);
        lemma_entity_doors_include(es.drop_last(), level, g, ei);
        let k = choose|k: int| 0 <= k < prev.len() && prev[k] == d;
        assert(all[k] == d);
    } else {
        assert(all[prev.len() as int] == d);
    }
}

/// Every door entity touching an edge of an entity layer gives a door of the
/// level.
proof fn lemma_layer_doors_include(ls: Seq<LayerInstance>, level: Level, g: int, li: int, ei: int)
    requires
        0 <= li < ls.len(),
        ls[li].layer_instance_type == LayerType::Entities,
        0 <= ei < ls[li].entity_instances@.len(),
        is_door(ls[li].entity_instances@[ei]),
        door_def_spec(ls[li].entity_instances@[ei], level, g) is Some,
    ensures
        layer_doors(ls, level, g).contains(door_def_spec(ls[li].entity_instances@[ei], level, g).unwrap()),
    decreases ls.len(),
{
    let prev = layer_doors(ls.drop_last(), level, g);
    let all = layer_doors(ls, level, g);
    let d = door_def_spec(ls[li].entity_instances@[ei], level, g).unwrap();
    if li < ls.len() - 1 {
        assert(ls.drop_last()[li] == ls[li]);
        lemma_layer_doors_include(ls.drop_last(), level, g, li, ei);
        let k = choose|k: int| 0 <= k < prev.len() && prev[k] == d;
        assert(all[k] == d);
    } else {
        lemma_entity_doors_include(ls[li].entity_instances@, level, g, ei);
        let es = entity_doors(ls[li].entity_instances@, level, g);
        let k = choose|k: int| 0 <= k < es.len() && es[k] == d;
        assert(all[prev.len() + k] == d);
    }
}

/// Every `Door` entity on an entity layer of a level that touches one of the
/// level's edges gives its room a door read from it.
pub proof fn lemma_catalog_has_every_edge_door(
    c: Catalog,
    project: LdtkJson,
    g: i32,
    i: int,
    li: int,
    ei: int,
)
    requires
        catalog_built_from(c, project, g),
        g > 0,
        0 <= i < c.rooms_spec().len(),
        project.levels@[i].layer_instances is Some,
        0 <= li < project.levels@[i].layer_instances.unwrap()@.len(),
        project.levels@[i].layer_instances.unwrap()@[li].layer_instance_type == LayerType::Entities,
        0 <= ei < project.levels@[i].layer_instances.unwrap()@[li].entity_instances@.len(),
        ({
            let level = project.levels@[i];
            let e = level.layer_instances.unwrap()@[li].entity_instances@[ei];
            &&& e.identifier@ == "Door"@
            &&& e.px.y == 0 || e.px.x + e.width == level.px_wid || e.px.y + e.height == level.px_hei
                || e.px.x == 0
        }),
    ensures
        exists|k: int|
            0 <= k < c.rooms_spec()[i].doors@.len() && door_read_from(
                #[trigger] c.rooms_spec()[i].doors@[k],
                project.levels@[i].layer_instances.unwrap()@[li].entity_instances@[ei],
                project.levels@[i],
                g as int,
            ),
{
    let level = project.levels@[i];
    let ls = level.layer_instances.unwrap()@;
    let e = ls[li].entity_instances@[ei];
    assert(room_matches(
        c.rooms_spec()[i],
        level,
        g as int,
        tags_field_spec(project.defs.level_fields@),
        room_tag_names_spec(project.defs.enums@),
        float_names_spec(project.defs.level_fields@),
    ));
    lemma_layer_doors_include(ls, level, g as int, li, ei);
    lemma_door_width_along_edge(e, level, g as int);
    let d = door_def_spec(e, level, g as int).unwrap();
    let k = choose|k: int| 0 <= k < layer_doors(ls, level, g as int).len() && layer_doors(ls, level, g as int)[k] == d;
    assert(c.rooms_spec()[i].doors@[k] == d);
}

/// A room of a built catalog carries tag `names[t]` whenever its level's tag
/// array lists that name, at any position: the tag at the name's first
/// ordinal is set. Conversely, a set tag is one the array lists.
pub proof fn lemma_catalog_bool_tags(c: Catalog, project: LdtkJson, g: i32, i: int, t: int)
    requires
        catalog_built_from(c, project, g),
        0 <= i < c.rooms_spec().len(),
        0 <= t < room_tag_names_spec(project.defs.enums@).len(),
        forall|k: int|
            0 <= k < t ==> room_tag_names_spec(project.defs.enums@)[k] != room_tag_names_spec(
                project.defs.enums@,
            )[t],
    ensures
        ({
            let names = room_tag_names_spec(project.defs.enums@);
            let level = project.levels@[i];
            let listed = tags_field_spec(project.defs.level_fields@) matches Some(f) && first_field(
                level.field_instances@,
                f,
            ) matches Some(fi) && fi.value matches FieldValue::Enums(vals) && exists|j: int|
                0 <= j < vals@.len() && #[trigger] vals@[j] == Some::<String>(vals@[j].unwrap())
                    && vals@[j].unwrap()@ == names[t];
            c.rooms_spec()[i].tags.bools()[t] == listed
        }),
{
    let level = project.levels@[i];
    assert(room_matches(
        c.rooms_spec()[i],
        level,
        g as int,
        tags_field_spec(project.defs.level_fields@),
        room_tag_names_spec(project.defs.enums@),
        float_names_spec(project.defs.level_fields@),
    ));
    let names = room_tag_names_spec(project.defs.enums@);
    assert(c.rooms_spec()[i].tags.bools()[t] == bool_tag_spec(
        level,
        tags_field_spec(project.defs.level_fields@),
        names,
        t,
    ));
}

/// A room of a built catalog reads float tag `names[t]` as its level's value
/// for that field when the field is set to a float, and otherwise (absent,
/// unset, or not a float) as the default: 1.0 for `weight`, 0.0 for any
/// other name. Values are `f32` bit patterns.
pub proof fn lemma_catalog_float_tags(c: Catalog, project: LdtkJson, g: i32, i: int, t: int)
    requires
        catalog_built_from(c, project, g),
        0 <= i < c.rooms_spec().len(),
        0 <= t < float_names_spec(project.defs.level_fields@).len(),
    ensures
        ({
            let name = float_names_spec(project.defs.level_fields@)[t];
            let v = c.rooms_spec()[i].tags.floats()[t];
            match first_field(project.levels@[i].field_instances@, name) {
                Some(fi) => match fi.value {
                    FieldValue::Float(Some(b)) => v == b,
                    _ => v == if name == "weight"@ { 0x3f80_0000u32 } else { 0u32 },
                },
                None => v == if name == "weight"@ { 0x3f80_0000u32 } else { 0u32 },
            }
        }),
{
    let level = project.levels@[i];
    let names = float_names_spec(project.defs.level_fields@);
    assert(room_matches(
        c.rooms_spec()[i],
        level,
        g as int,
        tags_field_spec(project.defs.level_fields@),
        room_tag_names_spec(project.defs.enums@),
        names,
    ));
    assert(c.rooms_spec()[i].tags.floats()[t] == float_tag_spec(level, names[t]));
}

} // verus!
