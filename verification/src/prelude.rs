//! The items a consumer of the generator reaches for most often.
pub use crate::generator::catalog::{build_catalog, Catalog, FloatTagId, RoomDef, TagId};
pub use crate::generator::geom::{Dir, PlacementId, RoomId, TilePos, TileRect, TileSize};
pub use crate::generator::layout::Layout;
pub use crate::generator::weight::CountBy;
