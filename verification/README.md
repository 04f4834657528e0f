# bevy_ldtk_procgen

Procedural level generation from a catalog of hand-made LDtk rooms. Rooms
are read from an LDtk project, their doors are found on door layers, and a
layout grows by attaching rooms to open doors so that no two rooms overlap.

The generator is written in Verus and proved against its contracts:

- `src/generator/geom.rs`: tile positions, sizes, rectangles, directions and
  the overlap relation, with its laws (symmetry, overlap iff a common tile,
  touching edges do not overlap).
- `src/generator/spatial.rs`: a uniform-grid spatial hash; a query returns
  every value whose rectangle touches the query rectangle, each once.
- `src/generator/ldtk.rs`: the plain-value model of the parts of an LDtk
  project that the catalog reads.
- `src/generator/catalog.rs`: builds the room catalog from a project and
  reports every malformed room, door and tag, all at once.
- `src/generator/layout.rs`: the growing layout: placements, open doors and
  their spatial index, with the invariant that placements never overlap.
- `src/generator/place.rs`: candidate rooms for an open door, their aligned
  origin, the fit test and one placement attempt.

`app/` holds the Bevy plugin, the conversion from `bevy_ecs_ldtk`'s project
type, and the weighted random choice among candidates, which works on
floating-point weights.
