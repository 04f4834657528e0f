//! Procedural room-by-room level generation: a catalog of authored rooms, each
//! with doors on its edges, is connected door to door into a growing layout.
//!
//! `generator` holds the whole placement core — geometry, the catalog and its
//! validation, the layout with its spatial index, and the single-door placement
//! step — with every function verified against its contract.
pub mod generator;
pub mod prelude;
