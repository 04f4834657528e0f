//! The part of an LDtk project that catalog construction reads, as plain data.
//!
//! Field names follow LDtk's JSON schema. Pixel positions are LDtk's y-down
//! integers. A `Float` field value is held as the IEEE-754 bit pattern of its
//! `f32`, since the generator only ever copies float tag values, never
//! computes with them.
use vstd::prelude::*;

verus! {

/// An integer point, as LDtk writes `px` and `__grid`.
#[derive(Debug, Clone, Copy, PartialEq, Eq, Hash, Structural)]
pub struct IPoint {
    pub x: i32,
    pub y: i32,
}

/// LDtk layer kinds.
#[derive(Debug, Clone, Copy, PartialEq, Eq, Hash, Structural)]
pub enum LayerType {
    AutoLayer,
    Entities,
    IntGrid,
    Tiles,
}

#[derive(Debug, Clone)]
pub struct EntityInstance {
    pub identifier: String,
    /// Grid position (`__grid`), in tiles from the level's top-left.
    pub grid: IPoint,
    /// Pixel position of the entity's top-left corner.
    pub px: IPoint,
    pub width: i32,
    pub height: i32,
}

/// A level field value: tag arrays (`Enums`) and `Float` fields are the only
/// kinds the catalog reads; every other kind is `Other`.
#[derive(Debug, Clone)]
pub enum FieldValue {
    Enums(Vec<Option<String>>),
    /// The field's `f32` value as its bit pattern, `None` when unset.
    Float(Option<u32>),
    Other,
}

#[derive(Debug, Clone)]
pub struct FieldInstance {
    pub identifier: String,
    pub value: FieldValue,
}

#[derive(Debug, Clone)]
pub struct LayerInstance {
    pub grid_size: i32,
    pub layer_instance_type: LayerType,
    pub entity_instances: Vec<EntityInstance>,
}

#[derive(Debug, Clone)]
pub struct Level {
    pub identifier: String,
    pub iid: String,
    pub px_wid: i32,
    pub px_hei: i32,
    pub world_x: i32,
    pub world_y: i32,
    /// `None` for a level saved in a separate file.
    pub layer_instances: Option<Vec<LayerInstance>>,
    pub field_instances: Vec<FieldInstance>,
}

#[derive(Debug, Clone)]
pub struct EnumValueDefinition {
    pub id: String,
}

#[derive(Debug, Clone)]
pub struct EnumDefinition {
    pub identifier: String,
    pub values: Vec<EnumValueDefinition>,
}

#[derive(Debug, Clone)]
pub struct FieldDefinition {
    pub identifier: String,
    /// LDtk's type string, such as `Float` or `Array<LocalEnum.RoomTags>`.
    pub field_definition_type: String,
}

#[derive(Debug, Clone)]
pub struct Definitions {
    pub enums: Vec<EnumDefinition>,
    pub level_fields: Vec<FieldDefinition>,
}

/// A whole LDtk project: its definitions and its levels.
#[derive(Debug, Clone)]
pub struct LdtkJson {
    pub defs: Definitions,
    pub levels: Vec<Level>,
}

} // verus!
