//! What a room-count ceiling counts.
use vstd::prelude::*;

verus! {

/// A hallway is a placement too: `All` and `Tag("room")` give very
/// different counts against a hallway-heavy catalog.
#[derive(Debug, Clone, PartialEq, Eq)]
pub enum CountBy {
    /// Every placement.
    All,
    /// Only placements of rooms carrying this tag.
    Tag(String),
}

} // verus!
