//! The generation core: geometry, catalog, layout, spatial index and placement.
pub mod geom;
pub mod spatial;
pub mod catalog;
pub mod error;
pub mod ldtk;
pub mod layout;
pub mod place;
pub mod weight;
