//! `Layout`, `Placement`, `OpenDoor`: the record of which rooms were placed
//! where, and which of their doors are still open.
//!
//! `Layout::commit` does no geometry of its own: matching a candidate against
//! open doors and checking overlap is `place`'s job. This module keeps the
//! placements, the open-door set and the spatial index of placements in step
//! with each other. Open doors live in slots that are reused, never shifted,
//! so an `OpenDoorId` stays valid until its own door closes.
use vstd::prelude::*;

use super::catalog::Catalog;
use super::geom::{checked_plus_spec, fits_i32, OpenDoorId, PlacementId, RoomId, TilePos, TileRect, TileSize};
use super::spatial::{cells_computable, divisor, hi_x, hi_y, in_cells, lo_x, lo_y, shares_cell, SpatialHash};

verus! {

broadcast use vstd::arithmetic::div_mod::lemma_div_is_ordered;

#[derive(Debug, Clone, Copy, PartialEq, Eq, Hash, Structural)]
pub struct Placement {
    pub room: RoomId,
    pub origin: TilePos,
}

/// A door of a placed room, named by placement and door index. No position is
/// stored; `open_door_pos` derives it.
#[derive(Debug, Clone, Copy, PartialEq, Eq, Hash)]
pub struct OpenDoor {
    pub placement: PlacementId,
    pub door: u8,
}

/// Where door `d` is, in tiles: its placement's origin plus the door's local
/// position; `None` if the placement, room or door does not exist, or the sum
/// is not a representable position.
pub open spec fn open_door_pos_spec(layout: &Layout, catalog: &Catalog, d: OpenDoor) -> Option<
    TilePos,
> {
    if (d.placement.0 as int) < layout.placements_spec().len() {
        let p = layout.placements_spec()[d.placement.0 as int];
        match catalog.room(p.room) {
            Some(def) => if (d.door as int) < def.doors@.len() {
                checked_plus_spec(p.origin, def.doors@[d.door as int].local_pos)
            } else {
                None
            },
            None => None,
        }
    } else {
        None
    }
}

pub fn open_door_pos(layout: &Layout, catalog: &Catalog, d: OpenDoor) -> (r: Option<TilePos>)
    ensures
        r == open_door_pos_spec(layout, catalog, d),
{
    let placement = match layout.get(d.placement) {
        Some(p) => p,
        None => {
            return None;
        },
    };
    let def = match catalog.get(placement.room) {
        Some(def) => def,
        None => {
            return None;
        },
    };
    if (d.door as usize) >= def.doors.len() {
        return None;
    }
    let door = &def.doors[d.door as usize];
    placement.origin.checked_plus(door.local_pos)
}

/// Door slots as the layout keeps them: each slot's current generation and,
/// while a door is open in it, that door.
pub type Slots = Seq<(u32, Option<OpenDoor>)>;

/// The open doors that `slots` hold, by handle: a handle names an open door
/// when its slot holds one and its generation is the slot's current one.
pub open spec fn open_map_of(slots: Slots) -> Map<OpenDoorId, OpenDoor> {
    Map::new(
        |id: OpenDoorId|
            (id.slot as int) < slots.len() && slots[id.slot as int].0 == id.generation
                && slots[id.slot as int].1 is Some,
        |id: OpenDoorId| slots[id.slot as int].1.unwrap(),
    )
}

/// The generation a slot moves on to when its door closes: one more,
/// wrapping to 0 after `u32::MAX`.
pub open spec fn next_generation(g: u32) -> u32 {
    if g == u32::MAX {
        0
    } else {
        (g + 1) as u32
    }
}

/// Slots and free list after closing `id`: if it names an open door, its slot
/// is emptied, moves to the next generation and goes on the end of the free
/// list; otherwise nothing changes.
pub open spec fn close_slots(slots: Slots, free: Seq<u32>, id: OpenDoorId) -> (Slots, Seq<u32>) {
    if open_map_of(slots).contains_key(id) {
        (slots.update(id.slot as int, (next_generation(id.generation), None)), free.push(id.slot))
    } else {
        (slots, free)
    }
}

/// Slots, free list and handle after opening `door`: the most recently freed
/// slot is reused at its current generation; with none free, a new slot is
/// added at generation 0.
pub open spec fn open_slots(slots: Slots, free: Seq<u32>, door: OpenDoor) -> (Slots, Seq<u32>, OpenDoorId) {
    if free.len() > 0 {
        let s = free.last();
        (
            slots.update(s as int, (slots[s as int].0, Some(door))),
            free.drop_last(),
            OpenDoorId { slot: s, generation: slots[s as int].0 },
        )
    } else {
        (slots.push((0u32, Some(door))), free, OpenDoorId { slot: slots.len() as u32, generation: 0 })
    }
}

/// Slots and free list after closing each of `closes` in turn.
pub open spec fn close_all(slots: Slots, free: Seq<u32>, closes: Seq<OpenDoorId>) -> (Slots, Seq<u32>)
    decreases closes.len(),
{
    if closes.len() == 0 {
        (slots, free)
    } else {
        let (s, f) = close_all(slots, free, closes.drop_last());
        close_slots(s, f, closes.last())
    }
}

/// Slots and free list after opening, in turn, door `doors[k]` of
/// `placement` for each `k`.
pub open spec fn open_all(slots: Slots, free: Seq<u32>, placement: PlacementId, doors: Seq<u8>) -> (
    Slots,
    Seq<u32>,
)
    decreases doors.len(),
{
    if doors.len() == 0 {
        (slots, free)
    } else {
        let (s, f) = open_all(slots, free, placement, doors.drop_last());
        let t = open_slots(s, f, OpenDoor { placement, door: doors.last() });
        (t.0, t.1)
    }
}

/// The door indices, in order, of the first `n` doors of a room whose index
/// is not in `connected`.
pub open spec fn kept_doors(n: nat, connected: Seq<u8>) -> Seq<u8>
    decreases n,
{
    if n == 0 {
        Seq::empty()
    } else {
        let p = kept_doors((n - 1) as nat, connected);
        if connected.contains(door_index(n - 1)) {
            p
        } else {
            p.push(door_index(n - 1))
        }
    }
}

/// An index is kept exactly when it is not connected and some door among
/// the first `n` has it.
pub proof fn lemma_kept_doors(n: nat, connected: Seq<u8>)
    ensures
        forall|x: u8|
            #[trigger] kept_doors(n, connected).contains(x) <==> !connected.contains(x) && exists|k: int|
                0 <= k < n && door_index(k) == x,
    decreases n,
{
    if n > 0 {
        lemma_kept_doors((n - 1) as nat, connected);
        let p = kept_doors((n - 1) as nat, connected);
        let c = kept_doors(n, connected);
        assert forall|x: u8| #[trigger] c.contains(x) <==> !connected.contains(x) && exists|k: int|
            0 <= k < n && door_index(k) == x by {
            if connected.contains(door_index(n - 1)) {
                assert(c == p);
                if !connected.contains(x) && exists|k: int| 0 <= k < n && door_index(k) == x {
                    let k = choose|k: int| 0 <= k < n && door_index(k) == x;
                    assert(k < n - 1);
                }
            } else {
                assert(c == p.push(door_index(n - 1)));
                if c.contains(x) {
                    let i = choose|i: int| 0 <= i < c.len() && c[i] == x;
                    if i < p.len() {
                        assert(p[i] == x);
                        assert(p.contains(x));
                    }
                }
                if !connected.contains(x) && exists|k: int| 0 <= k < n && door_index(k) == x {
                    let k = choose|k: int| 0 <= k < n && door_index(k) == x;
                    if k < n - 1 {
                        assert(p.contains(x));
                        let i = choose|i: int| 0 <= i < p.len() && p[i] == x;
                        assert(c[i] == x);
                    } else {
                        assert(c[p.len() as int] == x);
                    }
                }
            }
        }
    }
}

/// Whether `x` is one of `v`.
fn u8_in(v: &[u8], x: u8) -> (r: bool)
    ensures
        r == v@.contains(x),
{
    let mut i: usize = 0;
    while i < v.len()
        invariant
            i <= v@.len(),
            forall|j: int| 0 <= j < i ==> v@[j] != x,
        decreases v.len() - i,
    {
        if v[i] == x {
            assert(v@[i as int] == x);
            return true;
        }
        i = i + 1;
    }
    false
}

/// The 1x1 rectangle at `pos`.
pub open spec fn tile_rect(pos: TilePos) -> TileRect {
    TileRect { min: pos, size: TileSize { width: 1, height: 1 } }
}

/// The door index a room's `i`th door gets: `i`, or 255 beyond that.
pub open spec fn door_index(i: int) -> u8 {
    if i <= 255 {
        i as u8
    } else {
        255
    }
}

#[derive(Clone)]
pub struct Layout {
    placements: Vec<Placement>,
    /// One slot per open-door handle ever issued, each with its current
    /// generation; a closed door leaves its slot empty, listed in
    /// `free_door_slots` for reuse, and with its generation advanced.
    open_doors: Vec<(u32, Option<OpenDoor>)>,
    free_door_slots: Vec<u32>,
    /// `None` until the first placement: the cell size comes from the
    /// catalog, unknown when an empty layout is made.
    placements_index: Option<SpatialHash<PlacementId>>,
    /// The room size each placement was committed with.
    sizes: Ghost<Seq<TileSize>>,
}

impl Layout {
    pub closed spec fn placements_spec(&self) -> Seq<Placement> {
        self.placements@
    }

    pub closed spec fn slots(&self) -> Seq<(u32, Option<OpenDoor>)> {
        self.open_doors@
    }

    pub closed spec fn free_slots(&self) -> Seq<u32> {
        self.free_door_slots@
    }

    pub closed spec fn index(&self) -> Option<SpatialHash<PlacementId>> {
        self.placements_index
    }

    /// The room size each placement was committed with.
    pub closed spec fn sizes(&self) -> Seq<TileSize> {
        self.sizes@
    }

    /// The rectangle placement `i` occupies.
    pub open spec fn rect_of(&self, i: int) -> TileRect {
        TileRect { min: self.placements_spec()[i].origin, size: self.sizes()[i] }
    }

    /// The open doors, by handle.
    pub open spec fn open_map(&self) -> Map<OpenDoorId, OpenDoor> {
        open_map_of(self.slots())
    }

    /// The cell size the spatial index has, or will have once `catalog`'s
    /// first room is committed.
    pub open spec fn cell_size_for(&self, catalog: &Catalog) -> u32 {
        match self.index() {
            Some(h) => h.cell_size_spec(),
            None => catalog.spatial_cell_size_spec(),
        }
    }

    /// Whether the cells of `rect` can be computed by the spatial index.
    pub open spec fn can_query(&self, rect: TileRect) -> bool {
        match self.index() {
            Some(h) => cells_computable(h.cell_size_spec(), rect),
            None => true,
        }
    }

    /// What `nearby(rect)` returns.
    pub open spec fn nearby_spec(&self, rect: TileRect) -> Seq<PlacementId> {
        match self.index() {
            Some(h) => h.query_spec(rect),
            None => Seq::empty(),
        }
    }

    /// Every placement's recorded size is its room's size in `catalog`.
    pub open spec fn matches(&self, catalog: &Catalog) -> bool {
        forall|i: int|
            0 <= i < self.placements_spec().len() ==> ((#[trigger] catalog.room(
                self.placements_spec()[i].room,
            )) matches Some(def) && def.size == self.sizes()[i])
    }

    /// The slot bookkeeping is consistent: free slots are exactly the empty
    /// ones, listed once, and every open door names an existing placement.
    pub open spec fn slots_wf(&self) -> bool {
        &&& self.slots().len() <= u32::MAX
        &&& self.free_slots().no_duplicates()
        &&& forall|k: int|
            #![trigger self.free_slots()[k]]
            0 <= k < self.free_slots().len() ==> (self.free_slots()[k] as int) < self.slots().len()
                && self.slots()[self.free_slots()[k] as int].1 is None
        &&& forall|s: int|
            #![trigger self.slots()[s]]
            0 <= s < self.slots().len() ==> (self.slots()[s].1 is None ==> self.free_slots().contains(
                s as u32,
            )) && (self.slots()[s].1 is Some ==> (self.slots()[s].1.unwrap().placement.0 as int)
                < self.placements_spec().len())
    }

    /// The spatial index holds every placement in every cell its rectangle
    /// touches, and nothing else: each entry of a cell is a placement whose
    /// rectangle touches that cell.
    pub open spec fn index_wf(&self) -> bool {
        match self.index() {
            None => self.placements_spec().len() == 0,
            Some(h) => {
                &&& 1 <= h.cell_size_spec() <= i32::MAX
                &&& forall|i: int|
                    0 <= i < self.placements_spec().len() ==> cells_computable(
                        h.cell_size_spec(),
                        #[trigger] self.rect_of(i),
                    )
                &&& forall|i: int, cx: int, cy: int|
                    #![trigger h.bucket(cx, cy), self.rect_of(i)]
                    0 <= i < self.placements_spec().len() && in_cells(
                        h.cell_size_spec(),
                        self.rect_of(i),
                        cx,
                        cy,
                    ) ==> h.bucket(cx, cy).contains(PlacementId(i as u32))
                &&& forall|cx: int, cy: int, k: int|
                    fits_i32(cx) && fits_i32(cy) && 0 <= k < h.bucket(cx, cy).len() ==> (
                    #[trigger] h.bucket(cx, cy)[k].0 as int) < self.placements_spec().len()
                        && in_cells(h.cell_size_spec(), self.rect_of(h.bucket(cx, cy)[k].0 as int), cx, cy)
            },
        }
    }

    pub open spec fn wf(&self) -> bool {
        &&& self.sizes().len() == self.placements_spec().len()
        &&& self.placements_spec().len() <= u32::MAX
        &&& self.slots_wf()
        &&& self.index_wf()
    }

    pub fn get(&self, id: PlacementId) -> (r: Option<&Placement>)
        ensures
            r == if (id.0 as int) < self.placements_spec().len() {
                Some(&self.placements_spec()[id.0 as int])
            } else {
                None::<&Placement>
            },
    {
        if (id.0 as usize) < self.placements.len() {
            Some(&self.placements[id.0 as usize])
        } else {
            None
        }
    }

    pub fn placed_count(&self) -> (r: usize)
        ensures
            r == self.placements_spec().len(),
    {
        self.placements.len()
    }

    /// Every open door with its handle, in slot order.
    pub fn open_doors(&self) -> (r: Vec<(OpenDoorId, OpenDoor)>)
        requires
            self.wf(),
        ensures
            forall|k: int|
                0 <= k < r@.len() ==> self.open_map().contains_key(#[trigger] r@[k].0)
                    && self.open_map()[r@[k].0] == r@[k].1,
            forall|id: OpenDoorId|
                #[trigger] self.open_map().contains_key(id) ==> exists|k: int|
                    0 <= k < r@.len() && #[trigger] r@[k].0 == id,
            forall|k1: int, k2: int|
                0 <= k1 < k2 < r@.len() ==> (#[trigger] r@[k1].0).slot < (#[trigger] r@[k2].0).slot,
    {
        let mut out: Vec<(OpenDoorId, OpenDoor)> = Vec::new();
        let mut i: usize = 0;
        while i < self.open_doors.len()
            invariant
                self.wf(),
                i <= self.open_doors@.len(),
                forall|k: int|
                    0 <= k < out@.len() ==> self.open_map().contains_key(#[trigger] out@[k].0)
                        && self.open_map()[out@[k].0] == out@[k].1 && (out@[k].0.slot as int) < i,
                forall|id: OpenDoorId|
                    #[trigger] self.open_map().contains_key(id) && (id.slot as int) < i ==> exists|
                        k: int,
                    | 0 <= k < out@.len() && #[trigger] out@[k].0 == id,
                forall|k1: int, k2: int|
                    0 <= k1 < k2 < out@.len() ==> (#[trigger] out@[k1].0).slot < (
                    #[trigger] out@[k2].0).slot,
            decreases self.open_doors.len() - i,
        {
            let (generation, slot) = self.open_doors[i];
            let ghost old_out = out@;
            if let Some(door) = slot {
                let id = OpenDoorId { slot: i as u32, generation };
                assert(self.open_map().contains_key(id));
                out.push((id, door));
                assert(out@[out@.len() - 1].0 == id);
            }
            proof {
                assert forall|id: OpenDoorId|
                    #[trigger] self.open_map().contains_key(id) && (id.slot as int) < i
                        + 1 implies exists|k: int| 0 <= k < out@.len() && #[trigger] out@[k].0 == id by {
                    if (id.slot as int) < i {
                        let k = choose|k: int| 0 <= k < old_out.len() && #[trigger] old_out[k].0 == id;
                        assert(out@[k] == old_out[k]);
                    } else {
                        assert(out@[out@.len() - 1].0 == id);
                    }
                }
            }
            i = i + 1;
        }
        out
    }

    /// Every placement with its id, in placement order.
    pub fn iter(&self) -> (r: Vec<(PlacementId, Placement)>)
        requires
            self.wf(),
        ensures
            r@.len() == self.placements_spec().len(),
            forall|i: int|
                0 <= i < r@.len() ==> #[trigger] r@[i] == (
                    PlacementId(i as u32),
                    self.placements_spec()[i],
                ),
    {
        let mut out: Vec<(PlacementId, Placement)> = Vec::new();
        let mut i: usize = 0;
        while i < self.placements.len()
            invariant
                self.wf(),
                i <= self.placements@.len(),
                out@.len() == i,
                forall|k: int|
                    0 <= k < i ==> #[trigger] out@[k] == (
                        PlacementId(k as u32),
                        self.placements_spec()[k],
                    ),
            decreases self.placements.len() - i,
        {
            out.push((PlacementId(i as u32), self.placements[i]));
            i = i + 1;
        }
        out
    }
}

impl Default for Layout {
    fn default() -> (r: Self)
        ensures
            r.wf(),
            r.placements_spec().len() == 0,
            r.slots().len() == 0,
            r.index() is None,
            r.open_map() == Map::<OpenDoorId, OpenDoor>::empty(),
    {
        let r = Layout {
            placements: Vec::new(),
            open_doors: Vec::new(),
            free_door_slots: Vec::new(),
            placements_index: None,
            sizes: Ghost(Seq::empty()),
        };
        assert(r.open_map() =~= Map::<OpenDoorId, OpenDoor>::empty());
        r
    }
}


impl Layout {
    /// A placement whose rectangle overlaps `rect` shares a cell with it, so
    /// the index query finds it (both rectangles non-empty).
    pub proof fn lemma_nearby_complete(&self, rect: TileRect, i: int)
        requires
            self.wf(),
            self.can_query(rect),
            0 <= i < self.placements_spec().len(),
            self.rect_of(i).non_empty(),
            rect.non_empty(),
            super::geom::overlaps_spec(self.rect_of(i), rect),
        ensures
            self.nearby_spec(rect).contains(PlacementId(i as u32)),
    {
        let h = self.index().unwrap();
        let cs = h.cell_size_spec();
        let s = divisor(cs);
        assert(s == cs as int);
        let a = self.rect_of(i);
        let px = if a.min.x < rect.min.x {
            rect.min.x as int
        } else {
            a.min.x as int
        };
        let py = if a.min.y < rect.min.y {
            rect.min.y as int
        } else {
            a.min.y as int
        };
        let cx = px / s;
        let cy = py / s;
        assert(lo_x(cs, a) <= cx <= hi_x(cs, a));
        assert(lo_y(cs, a) <= cy <= hi_y(cs, a));
        assert(lo_x(cs, rect) <= cx <= hi_x(cs, rect));
        assert(lo_y(cs, rect) <= cy <= hi_y(cs, rect));
        assert(in_cells(cs, a, cx, cy));
        assert(h.bucket(cx, cy).contains(PlacementId(i as u32)));
        super::spatial::lemma_grid_values_contains(
            &h,
            lo_x(cs, rect),
            hi_x(cs, rect),
            lo_y(cs, rect),
            hi_y(cs, rect),
            cx,
            cy,
            PlacementId(i as u32),
        );
        super::spatial::lemma_dedup(
            h.grid_values(lo_x(cs, rect), hi_x(cs, rect), lo_y(cs, rect), hi_y(cs, rect)),
        );
    }

    /// Everything the index query returns is a placement, once.
    pub proof fn lemma_nearby_sound(&self, rect: TileRect)
        requires
            self.wf(),
            self.can_query(rect),
        ensures
            self.nearby_spec(rect).no_duplicates(),
            forall|k: int|
                0 <= k < self.nearby_spec(rect).len() ==> (#[trigger] self.nearby_spec(rect)[k].0 as int)
                    < self.placements_spec().len(),
            self.index() matches Some(h) ==> forall|k: int|
                0 <= k < self.nearby_spec(rect).len() ==> shares_cell(
                    h.cell_size_spec(),
                    self.rect_of(#[trigger] self.nearby_spec(rect)[k].0 as int),
                    rect,
                ),
    {
        match self.index() {
            None => {},
            Some(h) => {
                let cs = h.cell_size_spec();
                let g = h.grid_values(lo_x(cs, rect), hi_x(cs, rect), lo_y(cs, rect), hi_y(cs, rect));
                super::spatial::lemma_dedup(g);
                assert forall|k: int|
                    0 <= k < self.nearby_spec(rect).len() implies (#[trigger] self.nearby_spec(
                    rect,
                )[k].0 as int) < self.placements_spec().len() by {
                    let v = self.nearby_spec(rect)[k];
                    assert(self.nearby_spec(rect).contains(v));
                    assert(g.contains(v));
                    super::spatial::lemma_grid_values_from_cell(
                        &h,
                        lo_x(cs, rect),
                        hi_x(cs, rect),
                        lo_y(cs, rect),
                        hi_y(cs, rect),
                        v,
                    );
                    let (cx, cy) = choose|cx: int, cy: int|
                        lo_x(cs, rect) <= cx <= hi_x(cs, rect) && lo_y(cs, rect) <= cy <= hi_y(
                            cs,
                            rect,
                        ) && #[trigger] h.bucket(cx, cy).contains(v);
                    let j = choose|j: int| 0 <= j < h.bucket(cx, cy).len() && h.bucket(cx, cy)[j] == v;
                    assert(fits_i32(cx) && fits_i32(cy));
                    assert((h.bucket(cx, cy)[j].0 as int) < self.placements_spec().len());
                }
                assert forall|k: int|
                    0 <= k < self.nearby_spec(rect).len() implies shares_cell(
                    cs,
                    self.rect_of(#[trigger] self.nearby_spec(rect)[k].0 as int),
                    rect,
                ) by {
                    let v = self.nearby_spec(rect)[k];
                    assert(self.nearby_spec(rect).contains(v));
                    assert(g.contains(v));
                    super::spatial::lemma_grid_values_from_cell(
                        &h,
                        lo_x(cs, rect),
                        hi_x(cs, rect),
                        lo_y(cs, rect),
                        hi_y(cs, rect),
                        v,
                    );
                    let (cx, cy) = choose|cx: int, cy: int|
                        lo_x(cs, rect) <= cx <= hi_x(cs, rect) && lo_y(cs, rect) <= cy <= hi_y(
                            cs,
                            rect,
                        ) && #[trigger] h.bucket(cx, cy).contains(v);
                    let j = choose|j: int| 0 <= j < h.bucket(cx, cy).len() && h.bucket(cx, cy)[j] == v;
                    assert(fits_i32(cx) && fits_i32(cy));
                    assert(in_cells(cs, self.rect_of(v.0 as int), cx, cy));
                    assert(in_cells(cs, rect, cx, cy));
                }
            },
        }
    }

    /// Placements whose cells `rect` touches: every placement whose rectangle
    /// overlaps `rect`, possibly others nearby. The caller still checks exact
    /// overlap. Empty before the first commit.
    pub fn nearby(&self, rect: TileRect) -> (r: Vec<PlacementId>)
        requires
            self.wf(),
            self.can_query(rect),
        ensures
            r@ == self.nearby_spec(rect),
            r@.no_duplicates(),
            forall|k: int| 0 <= k < r@.len() ==> (#[trigger] r@[k].0 as int) < self.placements_spec().len(),
            forall|i: int|
                0 <= i < self.placements_spec().len() && #[trigger] self.rect_of(i).non_empty()
                    && rect.non_empty() && super::geom::overlaps_spec(self.rect_of(i), rect)
                    ==> r@.contains(PlacementId(i as u32)),
            self.index() matches Some(h) ==> forall|k: int|
                0 <= k < r@.len() ==> shares_cell(h.cell_size_spec(), self.rect_of(#[trigger] r@[k].0 as int), rect),
            self.index() is None ==> r@.len() == 0,
    {
        proof {
            self.lemma_nearby_sound(rect);
            assert forall|i: int|
                0 <= i < self.placements_spec().len() && #[trigger] self.rect_of(i).non_empty()
                    && rect.non_empty() && super::geom::overlaps_spec(
                    self.rect_of(i),
                    rect,
                ) implies self.nearby_spec(rect).contains(PlacementId(i as u32)) by {
                self.lemma_nearby_complete(rect, i);
            }
        }
        match &self.placements_index {
            Some(index) => {
                proof {
                    assert(vstd::laws_eq::obeys_concrete_eq::<PlacementId>()) by {
                        reveal(vstd::laws_eq::obeys_concrete_eq);
                    }
                }
                index.query(rect)
            },
            None => Vec::new(),
        }
    }
}


impl Layout {
    /// Placement `id` exists, its room is in `catalog`, and the room's
    /// rectangle there contains `pos`.
    pub open spec fn hit(&self, id: PlacementId, catalog: &Catalog, pos: TilePos) -> bool {
        &&& (id.0 as int) < self.placements_spec().len()
        &&& catalog.room(self.placements_spec()[id.0 as int].room) matches Some(def)
        &&& TileRect { min: self.placements_spec()[id.0 as int].origin, size: def.size }.contains_spec(
            pos,
        )
    }

    /// The room of the first of `ids` that is a hit for `pos`.
    pub open spec fn find_room(&self, ids: Seq<PlacementId>, catalog: &Catalog, pos: TilePos) -> Option<
        RoomId,
    >
        decreases ids.len(),
    {
        if ids.len() == 0 {
            None
        } else if self.hit(ids[0], catalog, pos) {
            Some(self.placements_spec()[ids[0].0 as int].room)
        } else {
            self.find_room(ids.drop_first(), catalog, pos)
        }
    }

    /// Every placement's room rectangle under `catalog` has a representable
    /// max corner.
    pub open spec fn rects_fit(&self, catalog: &Catalog) -> bool {
        forall|i: int|
            0 <= i < self.placements_spec().len() ==> ((#[trigger] catalog.room(
                self.placements_spec()[i].room,
            )) matches Some(def) ==> TileRect {
                min: self.placements_spec()[i].origin,
                size: def.size,
            }.max_fits())
    }

    /// A layout built with `catalog` has every room rectangle's max corner
    /// representable, since the spatial index computed its cells.
    pub proof fn lemma_matches_rects_fit(&self, catalog: &Catalog)
        requires
            self.wf(),
            self.matches(catalog),
        ensures
            self.rects_fit(catalog),
    {
        assert forall|i: int| 0 <= i < self.placements_spec().len() implies ((#[trigger] catalog.room(
            self.placements_spec()[i].room,
        )) matches Some(def) ==> TileRect { min: self.placements_spec()[i].origin, size: def.size }.max_fits()) by {
            let h = self.index().unwrap();
            assert(cells_computable(h.cell_size_spec(), self.rect_of(i)));
        }
    }

    proof fn lemma_find_room(&self, ids: Seq<PlacementId>, catalog: &Catalog, pos: TilePos)
        ensures
            self.find_room(ids, catalog, pos) matches Some(room) ==> exists|j: int|
                0 <= j < ids.len() && #[trigger] self.hit(ids[j], catalog, pos)
                    && self.placements_spec()[ids[j].0 as int].room == room,
            (exists|j: int| 0 <= j < ids.len() && #[trigger] self.hit(ids[j], catalog, pos))
                ==> self.find_room(ids, catalog, pos) is Some,
        decreases ids.len(),
    {
        if ids.len() > 0 {
            self.lemma_find_room(ids.drop_first(), catalog, pos);
            if !self.hit(ids[0], catalog, pos) {
                if let Some(room) = self.find_room(ids, catalog, pos) {
                    let j = choose|j: int|
                        0 <= j < ids.drop_first().len() && #[trigger] self.hit(
                            ids.drop_first()[j],
                            catalog,
                            pos,
                        ) && self.placements_spec()[ids.drop_first()[j].0 as int].room == room;
                    assert(ids[j + 1] == ids.drop_first()[j]);
                }
                if exists|j: int| 0 <= j < ids.len() && #[trigger] self.hit(ids[j], catalog, pos) {
                    let j = choose|j: int| 0 <= j < ids.len() && #[trigger] self.hit(ids[j], catalog, pos);
                    assert(j > 0);
                    assert(ids.drop_first()[j - 1] == ids[j]);
                }
            } else {
                assert(self.hit(ids[0], catalog, pos));
            }
        }
    }

    /// The room containing `pos`: the first placement the spatial index
    /// finds near `pos` whose room rectangle contains it.
    pub fn room_at(&self, catalog: &Catalog, pos: TilePos) -> (r: Option<RoomId>)
        requires
            self.wf(),
            self.can_query(tile_rect(pos)),
            self.rects_fit(catalog),
        ensures
            r == self.find_room(self.nearby_spec(tile_rect(pos)), catalog, pos),
            r matches Some(room) ==> exists|i: int|
                0 <= i < self.placements_spec().len() && #[trigger] self.placements_spec()[i].room
                    == room && self.hit(PlacementId(i as u32), catalog, pos),
            self.matches(catalog) && (exists|i: int|
                0 <= i < self.placements_spec().len() && #[trigger] self.rect_of(i).contains_spec(pos))
                ==> r is Some,
    {
        let point = TileRect { min: pos, size: TileSize { width: 1, height: 1 } };
        let ids = self.nearby(point);
        let ghost all = ids@;
        let mut k: usize = 0;
        assert(all.skip(0) =~= all);
        while k < ids.len()
            invariant
                self.wf(),
                self.rects_fit(catalog),
                all == ids@,
                all == self.nearby_spec(tile_rect(pos)),
                k <= all.len(),
                forall|j: int| 0 <= j < all.len() ==> (#[trigger] all[j].0 as int) < self.placements_spec().len(),
                self.find_room(all, catalog, pos) == self.find_room(all.skip(k as int), catalog, pos),
            decreases all.len() - k,
        {
            assert(all.skip(k as int).drop_first() =~= all.skip(k + 1));
            assert(all.skip(k as int)[0] == all[k as int]);
            let id = ids[k];
            if let Some(p) = self.get(id) {
                if let Some(def) = catalog.get(p.room) {
                    let rect = TileRect { min: p.origin, size: def.size };
                    assert(rect.max_fits()) by {
                        assert(catalog.room(self.placements_spec()[id.0 as int].room) is Some);
                    }
                    if rect.contains(pos) {
                        proof {
                            assert(self.hit(id, catalog, pos));
                            assert(self.find_room(all.skip(k as int), catalog, pos) == Some(p.room));
                        }
                        let r = Some(p.room);
                        proof {
                            self.lemma_find_room(all, catalog, pos);
                        }
                        return r;
                    }
                }
            }
            k = k + 1;
        }
        proof {
            self.lemma_find_room(all, catalog, pos);
            if self.matches(catalog) && (exists|i: int|
                0 <= i < self.placements_spec().len() && #[trigger] self.rect_of(i).contains_spec(pos)) {
                let i = choose|i: int|
                    0 <= i < self.placements_spec().len() && #[trigger] self.rect_of(i).contains_spec(
                        pos,
                    );
                assert(super::geom::overlaps_spec(self.rect_of(i), point));
                assert(self.rect_of(i).non_empty());
                assert(point.non_empty());
                assert(all.contains(PlacementId(i as u32)));
                let j = choose|j: int| 0 <= j < all.len() && all[j] == PlacementId(i as u32);
                assert(catalog.room(self.placements_spec()[i].room) is Some);
                assert(self.hit(all[j], catalog, pos));
            }
        }
        None
    }
}


/// The index invariant depends only on the index, the placements and their
/// recorded sizes.
proof fn lemma_index_wf_frame(a: &Layout, b: &Layout)
    requires
        a.index_wf(),
        a.index() == b.index(),
        a.placements_spec() == b.placements_spec(),
        a.sizes() == b.sizes(),
    ensures
        b.index_wf(),
{
    if let Some(h) = b.index() {
        assert forall|i: int|
            0 <= i < b.placements_spec().len() implies cells_computable(
            h.cell_size_spec(),
            #[trigger] b.rect_of(i),
        ) by {
            assert(a.rect_of(i) == b.rect_of(i));
        }
        assert forall|i: int, cx: int, cy: int|
            #![trigger h.bucket(cx, cy), b.rect_of(i)]
            0 <= i < b.placements_spec().len() && in_cells(
                h.cell_size_spec(),
                b.rect_of(i),
                cx,
                cy,
            ) implies h.bucket(cx, cy).contains(PlacementId(i as u32)) by {
            assert(a.rect_of(i) == b.rect_of(i));
        }
        assert forall|cx: int, cy: int, k: int|
            fits_i32(cx) && fits_i32(cy) && 0 <= k < h.bucket(cx, cy).len() implies (
            #[trigger] h.bucket(cx, cy)[k].0 as int) < b.placements_spec().len() && in_cells(
            h.cell_size_spec(),
            b.rect_of(h.bucket(cx, cy)[k].0 as int),
            cx,
            cy,
        ) by {
            assert(a.rect_of(h.bucket(cx, cy)[k].0 as int) == b.rect_of(h.bucket(cx, cy)[k].0 as int));
        }
    }
}

/// `new` is `old` after closing `id`, which returned `r`: an open door is
/// returned and no longer open; anything else returns `None` and changes no
/// open door. Placements and the index are untouched either way.
pub open spec fn closed(old: Layout, new: Layout, id: OpenDoorId, r: Option<OpenDoor>) -> bool {
    &&& new.placements_spec() == old.placements_spec()
    &&& new.sizes() == old.sizes()
    &&& new.index() == old.index()
    &&& old.open_map().contains_key(id) ==> r == Some(old.open_map()[id]) && new.open_map()
        == old.open_map().remove(id)
    &&& !old.open_map().contains_key(id) ==> r is None && new.open_map() == old.open_map()
}

/// Closing the same door twice: the second close finds nothing and changes
/// nothing.
pub proof fn lemma_close_twice(
    l0: Layout,
    l1: Layout,
    l2: Layout,
    id: OpenDoorId,
    r1: Option<OpenDoor>,
    r2: Option<OpenDoor>,
)
    requires
        closed(l0, l1, id, r1),
        closed(l1, l2, id, r2),
    ensures
        r2 is None,
        l2.open_map() == l1.open_map(),
        !l2.open_map().contains_key(id),
{
}

impl Layout {
    /// Closes open door `id`, returning it. `None`, with nothing changed, if
    /// `id` is not open: already closed, stale (its slot has been reused
    /// since), or never issued.
    pub fn close_door(&mut self, id: OpenDoorId) -> (r: Option<OpenDoor>)
        requires
            old(self).wf(),
        ensures
            final(self).wf(),
            closed(*old(self), *final(self), id, r),
            final(self).slots().len() == old(self).slots().len(),
            forall|s: int|
                0 <= s < old(self).slots().len() && s != id.slot ==> #[trigger] final(self).slots()[s]
                    == old(self).slots()[s],
            old(self).open_map().contains_key(id) ==> final(self).slots()[id.slot as int].0
                != id.generation && final(self).slots()[id.slot as int].1 is None,
            !old(self).open_map().contains_key(id) ==> final(self).slots() == old(self).slots(),
            (final(self).slots(), final(self).free_slots()) == close_slots(
                old(self).slots(),
                old(self).free_slots(),
                id,
            ),
    {
        if (id.slot as usize) >= self.open_doors.len() {
            return None;
        }
        let (generation, slot) = self.open_doors[id.slot as usize];
        if generation != id.generation {
            return None;
        }
        match slot {
            None => None,
            Some(door) => {
                let ghost old_self = *self;
                let next = if generation == u32::MAX {
                    0
                } else {
                    generation + 1
                };
                self.open_doors.set(id.slot as usize, (next, None));
                self.free_door_slots.push(id.slot);
                proof {
                    assert(self.open_map() =~= old_self.open_map().remove(id));
                    assert forall|k: int|
                        #![trigger self.free_slots()[k]]
                        0 <= k < self.free_slots().len() implies (self.free_slots()[k] as int)
                        < self.slots().len() && self.slots()[self.free_slots()[k] as int].1 is None by {
                        if k < old_self.free_slots().len() {
                            assert(old_self.free_slots()[k] == self.free_slots()[k]);
                        }
                    }
                    assert forall|s: int|
                        #![trigger self.slots()[s]]
                        0 <= s < self.slots().len() implies (self.slots()[s].1 is None
                        ==> self.free_slots().contains(s as u32)) && (self.slots()[s].1 is Some ==> (
                    self.slots()[s].1.unwrap().placement.0 as int) < self.placements_spec().len()) by {
                        if s != id.slot as int {
                            assert(self.slots()[s] == old_self.slots()[s]);
                            if self.slots()[s].1 is None {
                                let k = choose|k: int|
                                    0 <= k < old_self.free_slots().len()
                                        && old_self.free_slots()[k] == s as u32;
                                assert(self.free_slots()[k] == s as u32);
                            }
                        } else {
                            assert(self.free_slots()[self.free_slots().len() - 1] == s as u32);
                        }
                    }
                    assert(!old_self.free_slots().contains(id.slot));
                    assert(self.free_slots() =~= old_self.free_slots().push(id.slot));
                    assert forall|a: int, b: int|
                        0 <= a < b < self.free_slots().len() implies self.free_slots()[a]
                        != self.free_slots()[b] by {
                        if b == self.free_slots().len() - 1 {
                            assert(old_self.free_slots()[a] == self.free_slots()[a]);
                        }
                    }
                    assert(self.slots_wf());
                    lemma_index_wf_frame(&old_self, self);
                }
                Some(door)
            },
        }
    }

    /// Opens `door` in a free slot if there is one, else in a new slot.
    fn open_door(&mut self, door: OpenDoor) -> (id: OpenDoorId)
        requires
            old(self).wf(),
            (door.placement.0 as int) < old(self).placements_spec().len(),
            old(self).free_slots().len() > 0 || old(self).slots().len() < u32::MAX,
        ensures
            final(self).wf(),
            final(self).placements_spec() == old(self).placements_spec(),
            final(self).sizes() == old(self).sizes(),
            final(self).index() == old(self).index(),
            final(self).slots().len() <= old(self).slots().len() + 1,
            final(self).slots().len() >= old(self).slots().len(),
            forall|s: int|
                0 <= s < old(self).slots().len() ==> #[trigger] final(self).slots()[s].0 == old(
                    self,
                ).slots()[s].0,
            !old(self).open_map().contains_key(id),
            final(self).open_map() == old(self).open_map().insert(id, door),
            (final(self).slots(), final(self).free_slots(), id) == open_slots(
                old(self).slots(),
                old(self).free_slots(),
                door,
            ),
    {
        let ghost old_self = *self;
        let popped = self.free_door_slots.pop();
        if let Some(slot_index) = popped {
            // The generation was advanced when the slot was freed, so the new
            // handle differs from every handle to the slot's earlier doors.
            let (generation, _) = self.open_doors[slot_index as usize];
            self.open_doors.set(slot_index as usize, (generation, Some(door)));
            let id = OpenDoorId { slot: slot_index, generation };
            proof {
                let last = old_self.free_slots().len() - 1;
                assert(old_self.free_slots()[last] == slot_index);
                assert(old_self.slots()[slot_index as int].1 is None);
                assert(self.open_map() =~= old_self.open_map().insert(id, door));
                assert forall|k: int|
                    #![trigger self.free_slots()[k]]
                    0 <= k < self.free_slots().len() implies (self.free_slots()[k] as int)
                    < self.slots().len() && self.slots()[self.free_slots()[k] as int].1 is None by {
                    assert(self.free_slots()[k] == old_self.free_slots()[k]);
                    assert(old_self.free_slots()[k] != old_self.free_slots()[last]);
                }
                assert forall|s: int|
                    #![trigger self.slots()[s]]
                    0 <= s < self.slots().len() implies (self.slots()[s].1 is None
                    ==> self.free_slots().contains(s as u32)) && (self.slots()[s].1 is Some ==> (
                self.slots()[s].1.unwrap().placement.0 as int) < self.placements_spec().len()) by {
                    if s != slot_index as int {
                        assert(self.slots()[s] == old_self.slots()[s]);
                        if self.slots()[s].1 is None {
                            let k = choose|k: int|
                                0 <= k < old_self.free_slots().len() && old_self.free_slots()[k]
                                    == s as u32;
                            assert(k != last);
                            assert(self.free_slots()[k] == s as u32);
                        }
                    }
                }
                assert(self.free_slots().no_duplicates());
                assert(self.slots_wf());
                lemma_index_wf_frame(&old_self, self);
                assert(self.wf());
            }
            id
        } else {
            self.open_doors.push((0, Some(door)));
            let id = OpenDoorId { slot: (self.open_doors.len() - 1) as u32, generation: 0 };
            proof {
                assert(self.open_map() =~= old_self.open_map().insert(id, door));
                assert forall|s: int|
                    #![trigger self.slots()[s]]
                    0 <= s < self.slots().len() implies (self.slots()[s].1 is None
                    ==> self.free_slots().contains(s as u32)) && (self.slots()[s].1 is Some ==> (
                self.slots()[s].1.unwrap().placement.0 as int) < self.placements_spec().len()) by {
                    if s < old_self.slots().len() {
                        assert(self.slots()[s] == old_self.slots()[s]);
                    }
                }
                assert forall|k: int|
                    #![trigger self.free_slots()[k]]
                    0 <= k < self.free_slots().len() implies (self.free_slots()[k] as int)
                    < self.slots().len() && self.slots()[self.free_slots()[k] as int].1 is None by {
                    assert(old_self.slots()[old_self.free_slots()[k] as int] == self.slots()[
                        self.free_slots()[k] as int]);
                }
                assert(self.slots_wf());
                lemma_index_wf_frame(&old_self, self);
            }
            id
        }
    }
}


impl Layout {
    /// What `commit` of a room with definition `def` at `origin` needs: its
    /// cells computable, and room for one more placement id and for its doors'
    /// handles.
    pub open spec fn commit_ok(&self, catalog: &Catalog, def: super::catalog::RoomDef, origin: TilePos) -> bool {
        &&& cells_computable(self.cell_size_for(catalog), TileRect { min: origin, size: def.size })
        &&& self.placements_spec().len() < u32::MAX
        &&& self.slots().len() + def.doors@.len() <= u32::MAX
    }

    /// The contents of cell `(cx, cy)` of the spatial index; empty before the
    /// first placement.
    pub open spec fn bucket_or_empty(&self, cx: int, cy: int) -> Seq<PlacementId> {
        match self.index() {
            Some(h) => h.bucket(cx, cy),
            None => Seq::empty(),
        }
    }

    /// `new` is `self` after committing `room` (defined by `def`) at `origin`,
    /// closing `closes` and leaving the room's doors whose index is in
    /// `connected` closed: one more placement, every open door not in
    /// `closes` still open, those in `closes` closed, and one new open door
    /// for each of the room's other doors, under fresh handles. The slots
    /// come out exactly as closing `closes` and then opening those doors, in
    /// door order, leaves them.
    pub open spec fn committed(
        &self,
        new: Layout,
        catalog: &Catalog,
        room: RoomId,
        def: super::catalog::RoomDef,
        origin: TilePos,
        closes: Seq<OpenDoorId>,
        connected: Seq<u8>,
        r: Option<PlacementId>,
    ) -> bool {
        let id = PlacementId(self.placements_spec().len() as u32);
        let kept = kept_doors(def.doors@.len(), connected);
        let after_close = close_all(self.slots(), self.free_slots(), closes);
        &&& r == Some(id)
        &&& (new.slots(), new.free_slots()) == open_all(after_close.0, after_close.1, id, kept)
        &&& forall|x: u8|
            #![trigger kept.contains(x)]
            (exists|oid: OpenDoorId|
                new.open_map().contains_key(oid) && #[trigger] new.open_map()[oid] == (OpenDoor {
                    placement: id,
                    door: x,
                })) <==> kept.contains(x)
        &&& new.placements_spec() == self.placements_spec().push(Placement { room, origin })
        &&& new.sizes() == self.sizes().push(def.size)
        &&& new.index() matches Some(h) && h.cell_size_spec() == self.cell_size_for(catalog)
        &&& forall|cx: int, cy: int|
            fits_i32(cx) && fits_i32(cy) ==> #[trigger] new.index().unwrap().bucket(cx, cy) == self.bucket_or_empty(
                cx,
                cy,
            ) + if in_cells(self.cell_size_for(catalog), TileRect { min: origin, size: def.size }, cx, cy) {
                seq![id]
            } else {
                Seq::empty()
            }
        &&& forall|oid: OpenDoorId|
            #[trigger] self.open_map().contains_key(oid) && !closes.contains(oid)
                ==> new.open_map().contains_key(oid) && new.open_map()[oid] == self.open_map()[oid]
        &&& forall|oid: OpenDoorId|
            #[trigger] self.open_map().contains_key(oid) && closes.contains(oid)
                ==> !new.open_map().contains_key(oid)
        &&& forall|oid: OpenDoorId|
            #[trigger] new.open_map().contains_key(oid) && !self.open_map().contains_key(oid)
                ==> new.open_map()[oid].placement == id
        &&& exists|ids: Seq<OpenDoorId>|
            {
                &&& ids.len() == kept.len()
                &&& ids.no_duplicates()
                &&& forall|k: int|
                    0 <= k < ids.len() ==> new.open_map().contains_key(#[trigger] ids[k])
                        && new.open_map()[ids[k]] == (OpenDoor { placement: id, door: kept[k] })
                &&& forall|oid: OpenDoorId|
                    #[trigger] new.open_map().contains_key(oid) && new.open_map()[oid].placement == id
                        ==> ids.contains(oid)
            }
    }

    /// Commits one placement: gives it the next `PlacementId`, indexes it
    /// spatially, closes whichever open doors `closes` names, and opens each
    /// of its own doors. `closes` are handles the caller has matched against
    /// this placement's doors; no position math happens here.
    ///
    /// `None`, with nothing changed, if `room` is not in `catalog`.
    pub fn commit(
        &mut self,
        catalog: &Catalog,
        room: RoomId,
        origin: TilePos,
        closes: &[OpenDoorId],
    ) -> (r: Option<PlacementId>)
        requires
            old(self).wf(),
            catalog.room(room) matches Some(def) ==> old(self).commit_ok(catalog, def, origin),
        ensures
            final(self).wf(),
            catalog.room(room) is None ==> r is None && *final(self) == *old(self),
            catalog.room(room) matches Some(def) ==> old(self).committed(
                *final(self),
                catalog,
                room,
                def,
                origin,
                closes@,
                Seq::empty(),
                r,
            ),
    {
        let connected: Vec<u8> = Vec::new();
        assert(connected@ =~= Seq::<u8>::empty());
        self.commit_connected(catalog, room, origin, closes, connected.as_slice())
    }

    /// `commit`, except that the room's doors whose index is in `connected`
    /// (those that meet a door in `closes`) are not opened: only the room's
    /// remaining doors become open.
    pub fn commit_connected(
        &mut self,
        catalog: &Catalog,
        room: RoomId,
        origin: TilePos,
        closes: &[OpenDoorId],
        connected: &[u8],
    ) -> (r: Option<PlacementId>)
        requires
            old(self).wf(),
            catalog.room(room) matches Some(def) ==> old(self).commit_ok(catalog, def, origin),
        ensures
            final(self).wf(),
            catalog.room(room) is None ==> r is None && *final(self) == *old(self),
            catalog.room(room) matches Some(def) ==> old(self).committed(
                *final(self),
                catalog,
                room,
                def,
                origin,
                closes@,
                connected@,
                r,
            ),
    {
        let def = match catalog.get(room) {
            Some(def) => def,
            None => {
                return None;
            },
        };
        let ghost old_self = *self;
        let ghost m0 = self.open_map();
        let ghost cs = self.cell_size_for(catalog);

        let mut index = match self.placements_index.take() {
            Some(h) => h,
            None => SpatialHash::new(catalog.spatial_cell_size()),
        };
        let len = self.placements.len();
        let id = PlacementId(len as u32);
        self.placements.push(Placement { room, origin });
        proof {
            self.sizes@ = self.sizes@.push(def.size);
        }
        let rect = TileRect { min: origin, size: def.size };
        let ghost before_insert = index;
        index.insert(rect, id);
        self.placements_index = Some(index);
        let ghost idx1 = self.index();

        proof {
            assert forall|cx: int, cy: int|
                fits_i32(cx) && fits_i32(cy) implies #[trigger] index.bucket(cx, cy) == old_self.bucket_or_empty(
                cx,
                cy,
            ) + if in_cells(cs, rect, cx, cy) {
                seq![id]
            } else {
                Seq::empty()
            } by {
                assert(before_insert.bucket(cx, cy) == old_self.bucket_or_empty(cx, cy));
                if in_cells(cs, rect, cx, cy) {
                    assert(index.bucket(cx, cy) =~= old_self.bucket_or_empty(cx, cy) + seq![id]);
                } else {
                    assert(index.bucket(cx, cy) =~= old_self.bucket_or_empty(cx, cy) + Seq::empty());
                }
            }
            assert(self.open_map() =~= m0);
            assert(self.rect_of(len as int) == rect);
            assert forall|i: int| 0 <= i < len implies #[trigger] self.rect_of(i) == old_self.rect_of(i) by {}
            let h = index;
            assert forall|i: int|
                0 <= i < self.placements_spec().len() implies cells_computable(
                h.cell_size_spec(),
                #[trigger] self.rect_of(i),
            ) by {
                if i < len {
                    assert(self.rect_of(i) == old_self.rect_of(i));
                }
            }
            assert forall|i: int, cx: int, cy: int|
                #![trigger h.bucket(cx, cy), self.rect_of(i)]
                0 <= i < self.placements_spec().len() && in_cells(
                    h.cell_size_spec(),
                    self.rect_of(i),
                    cx,
                    cy,
                ) implies h.bucket(cx, cy).contains(PlacementId(i as u32)) by {
                let r_i = self.rect_of(i);
                assert(cells_computable(h.cell_size_spec(), r_i));
                assert(fits_i32(cx) && fits_i32(cy));
                if i < len {
                    assert(r_i == old_self.rect_of(i));
                    assert(before_insert.bucket(cx, cy).contains(PlacementId(i as u32)));
                    let k = choose|k: int|
                        0 <= k < before_insert.bucket(cx, cy).len() && before_insert.bucket(cx, cy)[k]
                            == PlacementId(i as u32);
                    if in_cells(cs, rect, cx, cy) {
                        assert(h.bucket(cx, cy)[k] == PlacementId(i as u32));
                    } else {
                        assert(h.bucket(cx, cy)[k] == PlacementId(i as u32));
                    }
                } else {
                    assert(h.bucket(cx, cy).last() == id);
                }
            }
            assert forall|cx: int, cy: int, k: int|
                fits_i32(cx) && fits_i32(cy) && 0 <= k < h.bucket(cx, cy).len() implies (
                #[trigger] h.bucket(cx, cy)[k].0 as int) < self.placements_spec().len() && in_cells(
                h.cell_size_spec(),
                self.rect_of(h.bucket(cx, cy)[k].0 as int),
                cx,
                cy,
            ) by {
                if old_self.index() is Some {
                    if k < before_insert.bucket(cx, cy).len() {
                        assert(h.bucket(cx, cy)[k] == before_insert.bucket(cx, cy)[k]);
                        let i = h.bucket(cx, cy)[k].0 as int;
                        assert(i < len);
                        assert(self.rect_of(i) == old_self.rect_of(i));
                    } else {
                        assert(in_cells(cs, rect, cx, cy));
                        assert(h.bucket(cx, cy)[k] == id);
                    }
                } else {
                    assert(before_insert.bucket(cx, cy).len() == 0);
                    assert(in_cells(cs, rect, cx, cy));
                    assert(h.bucket(cx, cy)[k] == id);
                }
            }
            assert(self.index_wf());
            assert forall|s: int|
                #![trigger self.slots()[s]]
                0 <= s < self.slots().len() implies (self.slots()[s].1 is None
                ==> self.free_slots().contains(s as u32)) && (self.slots()[s].1 is Some ==> (
            self.slots()[s].1.unwrap().placement.0 as int) < self.placements_spec().len()) by {
                assert(self.slots()[s] == old_self.slots()[s]);
            }
            assert(self.slots_wf());
            assert(self.wf());
        }

        let ghost s0 = self.slots().len();
        let mut j: usize = 0;
        while j < closes.len()
            invariant
                self.wf(),
                self.placements_spec() == old_self.placements_spec().push(Placement { room, origin }),
                self.sizes() == old_self.sizes().push(def.size),
                self.index() matches Some(h) && h.cell_size_spec() == cs,
                self.index() == idx1,
                self.slots().len() == s0,
                s0 == old_self.slots().len(),
                len == old_self.placements_spec().len(),
                j <= closes@.len(),
                forall|oid: OpenDoorId|
                    #[trigger] self.open_map().contains_key(oid) <==> m0.contains_key(oid)
                        && !closes@.subrange(0, j as int).contains(oid),
                forall|oid: OpenDoorId|
                    #[trigger] self.open_map().contains_key(oid) ==> self.open_map()[oid] == m0[oid],
                forall|oid: OpenDoorId|
                    #[trigger] m0.contains_key(oid) && closes@.subrange(0, j as int).contains(oid)
                        ==> self.slots()[oid.slot as int].0 != oid.generation
                        && self.slots()[oid.slot as int].1 is None,
                forall|oid: OpenDoorId|
                    #[trigger] m0.contains_key(oid) ==> (oid.slot as int) < s0,
                (self.slots(), self.free_slots()) == close_all(
                    old_self.slots(),
                    old_self.free_slots(),
                    closes@.subrange(0, j as int),
                ),
            decreases closes.len() - j,
        {
            let ghost before = *self;
            let c = closes[j];
            self.close_door(c);
            proof {
                let pre = closes@.subrange(0, j as int);
                let post = closes@.subrange(0, j + 1);
                assert(post =~= pre.push(c));
                assert(post.drop_last() =~= pre);
                assert forall|oid: OpenDoorId| post.contains(oid) <==> pre.contains(oid) || oid == c by {
                    if post.contains(oid) && oid != c {
                        let k = choose|k: int| 0 <= k < post.len() && post[k] == oid;
                        assert(pre[k] == oid);
                    }
                    if pre.contains(oid) {
                        let k = choose|k: int| 0 <= k < pre.len() && pre[k] == oid;
                        assert(post[k] == oid);
                    }
                    if oid == c {
                        assert(post[j as int] == oid);
                    }
                }
                assert forall|oid: OpenDoorId|
                    #[trigger] self.open_map().contains_key(oid) <==> m0.contains_key(oid)
                        && !post.contains(oid) by {
                    if before.open_map().contains_key(c) {
                        assert(self.open_map() == before.open_map().remove(c));
                    } else {
                        assert(self.open_map() == before.open_map());
                    }
                }
                assert forall|oid: OpenDoorId|
                    #[trigger] m0.contains_key(oid) && post.contains(oid) implies self.slots()[oid.slot as int].0
                    != oid.generation && self.slots()[oid.slot as int].1 is None by {
                    if oid == c && before.open_map().contains_key(c) {
                    } else if before.open_map().contains_key(c) {
                        assert(pre.contains(oid));
                        assert(before.slots()[oid.slot as int].1 is None);
                        assert(oid.slot != c.slot);
                        assert(self.slots()[oid.slot as int] == before.slots()[oid.slot as int]);
                    } else {
                        if !pre.contains(oid) {
                            assert(oid == c);
                            assert(m0.contains_key(c) && !pre.contains(c));
                            assert(before.open_map().contains_key(c));
                        }
                    }
                }
            }
            j = j + 1;
        }
        let ghost m1 = self.open_map();
        assert(closes@.subrange(0, closes@.len() as int) =~= closes@);
        let ghost s1 = self.slots();
        let ghost f1 = self.free_slots();

        let n = def.doors.len();
        let ghost mut ids: Seq<OpenDoorId> = Seq::empty();
        let mut i: usize = 0;
        while i < n
            invariant
                self.wf(),
                n == def.doors@.len(),
                self.placements_spec() == old_self.placements_spec().push(Placement { room, origin }),
                self.sizes() == old_self.sizes().push(def.size),
                self.index() matches Some(h) && h.cell_size_spec() == cs,
                self.index() == idx1,
                len == old_self.placements_spec().len(),
                id == PlacementId(len as u32),
                s0 == old_self.slots().len(),
                s0 + n <= u32::MAX,
                s0 <= self.slots().len() <= s0 + i,
                i <= n,
                ids.len() == kept_doors(i as nat, connected@).len(),
                ids.no_duplicates(),
                forall|k: int|
                    0 <= k < ids.len() ==> self.open_map().contains_key(#[trigger] ids[k])
                        && self.open_map()[ids[k]] == (OpenDoor {
                            placement: id,
                            door: kept_doors(i as nat, connected@)[k],
                        }) && !m1.contains_key(ids[k]),
                (self.slots(), self.free_slots()) == open_all(s1, f1, id, kept_doors(i as nat, connected@)),
                forall|oid: OpenDoorId|
                    #[trigger] self.open_map().contains_key(oid) <==> m1.contains_key(oid)
                        || ids.contains(oid),
                forall|oid: OpenDoorId|
                    #[trigger] m1.contains_key(oid) ==> self.open_map()[oid] == m1[oid],
                forall|oid: OpenDoorId|
                    #[trigger] m0.contains_key(oid) && closes@.contains(oid) ==> self.slots()[oid.slot as int].0
                        != oid.generation,
                forall|oid: OpenDoorId| #[trigger] m0.contains_key(oid) ==> (oid.slot as int) < s0,
            decreases n - i,
        {
            let door_index_u8: u8 = if i <= 255 {
                i as u8
            } else {
                255
            };
            let ghost kept_before = kept_doors(i as nat, connected@);
            assert(door_index_u8 == door_index(i as int));
            if !u8_in(connected, door_index_u8) {
                let ghost before = *self;
                let new_id = self.open_door(OpenDoor { placement: id, door: door_index_u8 });
                proof {
                    let kept_after = kept_doors((i + 1) as nat, connected@);
                    assert(kept_after == kept_before.push(door_index_u8));
                    assert(kept_after.drop_last() =~= kept_before);
                    let old_ids = ids;
                    ids = ids.push(new_id);
                    assert(!m1.contains_key(new_id));
                    assert(!old_ids.contains(new_id)) by {
                        if old_ids.contains(new_id) {
                            let k = choose|k: int| 0 <= k < old_ids.len() && old_ids[k] == new_id;
                            assert(before.open_map().contains_key(old_ids[k]));
                        }
                    }
                    assert forall|a: int, b: int| 0 <= a < b < ids.len() implies ids[a] != ids[b] by {
                        if b == ids.len() - 1 {
                            assert(old_ids.contains(ids[a]));
                        }
                    }
                    assert forall|k: int|
                        0 <= k < ids.len() implies self.open_map().contains_key(#[trigger] ids[k])
                        && self.open_map()[ids[k]] == (OpenDoor { placement: id, door: kept_after[k] })
                        && !m1.contains_key(ids[k]) by {
                        if k < old_ids.len() {
                            assert(ids[k] == old_ids[k]);
                            assert(ids[k] != new_id);
                        }
                    }
                    assert forall|oid: OpenDoorId| ids.contains(oid) <==> old_ids.contains(oid) || oid == new_id by {
                        if ids.contains(oid) && oid != new_id {
                            let k = choose|k: int| 0 <= k < ids.len() && ids[k] == oid;
                            assert(old_ids[k] == oid);
                        }
                        if old_ids.contains(oid) {
                            let k = choose|k: int| 0 <= k < old_ids.len() && old_ids[k] == oid;
                            assert(ids[k] == oid);
                        }
                        if oid == new_id {
                            assert(ids[ids.len() - 1] == oid);
                        }
                    }
                    assert forall|oid: OpenDoorId|
                        #[trigger] self.open_map().contains_key(oid) <==> m1.contains_key(oid)
                            || ids.contains(oid) by {
                        assert(self.open_map().contains_key(oid) <==> before.open_map().contains_key(oid) || oid == new_id);
                    }
                    assert forall|oid: OpenDoorId|
                        #[trigger] m1.contains_key(oid) implies self.open_map()[oid] == m1[oid] by {
                        assert(oid != new_id);
                    }
                    assert forall|oid: OpenDoorId|
                        #[trigger] m0.contains_key(oid) && closes@.contains(oid) implies self.slots()[oid.slot as int].0
                        != oid.generation by {
                        assert(self.slots()[oid.slot as int].0 == before.slots()[oid.slot as int].0);
                    }
                }
            } else {
                assert(kept_doors((i + 1) as nat, connected@) == kept_before);
            }
            i = i + 1;
        }

        proof {
            let new = *self;
            assert forall|oid: OpenDoorId|
                #[trigger] m0.contains_key(oid) && !closes@.contains(oid) implies new.open_map().contains_key(oid)
                && new.open_map()[oid] == m0[oid] by {
                assert(m1.contains_key(oid));
            }
            assert forall|oid: OpenDoorId|
                #[trigger] m0.contains_key(oid) && closes@.contains(oid) implies !new.open_map().contains_key(
                oid,
            ) by {}
            assert forall|oid: OpenDoorId|
                #[trigger] new.open_map().contains_key(oid) && !m0.contains_key(oid) implies new.open_map()[oid].placement
                == id by {
                if m1.contains_key(oid) {
                    assert(m0.contains_key(oid));
                }
                let k = choose|k: int| 0 <= k < ids.len() && ids[k] == oid;
                assert(new.open_map()[ids[k]].placement == id);
            }
            assert forall|oid: OpenDoorId|
                #[trigger] new.open_map().contains_key(oid) && new.open_map()[oid].placement == id implies ids.contains(
                oid,
            ) by {
                if m1.contains_key(oid) {
                    assert(m0.contains_key(oid));
                    assert(m0[oid] == old_self.slots()[oid.slot as int].1.unwrap());
                    assert((m0[oid].placement.0 as int) < len);
                }
            }
            let kept = kept_doors(def.doors@.len(), connected@);
            assert forall|x: u8|
                #![trigger kept.contains(x)]
                (exists|oid: OpenDoorId|
                    new.open_map().contains_key(oid) && #[trigger] new.open_map()[oid] == (OpenDoor {
                        placement: id,
                        door: x,
                    })) <==> kept.contains(x) by {
                if exists|oid: OpenDoorId|
                    new.open_map().contains_key(oid) && #[trigger] new.open_map()[oid] == (OpenDoor {
                        placement: id,
                        door: x,
                    }) {
                    let oid = choose|oid: OpenDoorId|
                        new.open_map().contains_key(oid) && #[trigger] new.open_map()[oid] == (OpenDoor {
                            placement: id,
                            door: x,
                        });
                    assert(ids.contains(oid));
                    let j = choose|j: int| 0 <= j < ids.len() && ids[j] == oid;
                    assert(new.open_map()[ids[j]] == (OpenDoor { placement: id, door: kept[j] }));
                    assert(kept[j] == x);
                }
                if kept.contains(x) {
                    let j = choose|j: int| 0 <= j < kept.len() && kept[j] == x;
                    assert(new.open_map().contains_key(ids[j]));
                    assert(new.open_map()[ids[j]] == (OpenDoor { placement: id, door: x }));
                }
            }
            assert(old_self.committed(new, catalog, room, *def, origin, closes@, connected@, Some(id)));
        }
        Some(id)
    }
}


/// One operation on the door slots: opening a door, or closing a handle.
pub enum DoorOp {
    Open(OpenDoor),
    Close(OpenDoorId),
}

/// Slots and free list after one operation.
pub open spec fn apply_op(st: (Slots, Seq<u32>), op: DoorOp) -> (Slots, Seq<u32>) {
    match op {
        DoorOp::Open(door) => {
            let t = open_slots(st.0, st.1, door);
            (t.0, t.1)
        },
        DoorOp::Close(id) => close_slots(st.0, st.1, id),
    }
}

/// Slots and free list after each of `ops` in turn.
pub open spec fn run_ops(st: (Slots, Seq<u32>), ops: Seq<DoorOp>) -> (Slots, Seq<u32>)
    decreases ops.len(),
{
    if ops.len() == 0 {
        st
    } else {
        apply_op(run_ops(st, ops.drop_last()), ops.last())
    }
}

/// How many of `ops` close an open door in slot `slot`.
pub open spec fn slot_closes(st: (Slots, Seq<u32>), ops: Seq<DoorOp>, slot: u32) -> nat
    decreases ops.len(),
{
    if ops.len() == 0 {
        0
    } else {
        let before = run_ops(st, ops.drop_last());
        let here: nat = match ops.last() {
            DoorOp::Close(c) => if c.slot == slot && open_map_of(before.0).contains_key(c) {
                1
            } else {
                0
            },
            DoorOp::Open(_) => 0,
        };
        slot_closes(st, ops.drop_last(), slot) + here
    }
}

/// Every free slot exists.
pub open spec fn free_in_range(st: (Slots, Seq<u32>)) -> bool {
    forall|k: int| 0 <= k < st.1.len() ==> (#[trigger] st.1[k] as int) < st.0.len()
}

/// `g` moved on `m` generations, wrapping once past `u32::MAX`.
pub open spec fn gen_after(g: u32, m: int) -> int {
    if g + m < 0x1_0000_0000 {
        g + m
    } else {
        g + m - 0x1_0000_0000
    }
}

/// After `id` is closed, its slot's generation is one past `id`'s, and moves
/// on by one each time a door in that slot closes again.
proof fn lemma_slot_generation(st0: (Slots, Seq<u32>), id: OpenDoorId, ops: Seq<DoorOp>)
    requires
        free_in_range(st0),
        (id.slot as int) < st0.0.len(),
        st0.0[id.slot as int].0 == next_generation(id.generation),
        slot_closes(st0, ops, id.slot) < u32::MAX,
    ensures
        free_in_range(run_ops(st0, ops)),
        run_ops(st0, ops).0.len() >= st0.0.len(),
        run_ops(st0, ops).0[id.slot as int].0 == gen_after(id.generation, 1 + slot_closes(st0, ops, id.slot) as int),
    decreases ops.len(),
{
    if ops.len() > 0 {
        let prev = ops.drop_last();
        lemma_slot_generation(st0, id, prev);
        let before = run_ops(st0, prev);
        let after = run_ops(st0, ops);
        match ops.last() {
            DoorOp::Open(door) => {
                if before.1.len() > 0 {
                    assert(before.1[before.1.len() - 1] == before.1.last());
                    assert forall|k: int| 0 <= k < after.1.len() implies (#[trigger] after.1[k] as int) < after.0.len() by {
                        assert(after.1[k] == before.1[k]);
                    }
                } else {
                    assert forall|k: int| 0 <= k < after.1.len() implies (#[trigger] after.1[k] as int) < after.0.len() by {
                        assert(after.1[k] == before.1[k]);
                    }
                }
            },
            DoorOp::Close(c) => {
                if open_map_of(before.0).contains_key(c) {
                    assert forall|k: int| 0 <= k < after.1.len() implies (#[trigger] after.1[k] as int) < after.0.len() by {
                        if k < before.1.len() {
                            assert(after.1[k] == before.1[k]);
                        }
                    }
                }
            },
        }
    }
}

/// A well-formed layout's free slots all exist, so its slots meet the
/// requirement of `lemma_closed_handle_never_reissued`.
pub proof fn lemma_layout_free_in_range(l: Layout)
    requires
        l.wf(),
    ensures
        free_in_range((l.slots(), l.free_slots())),
{
    assert forall|k: int| 0 <= k < l.free_slots().len() implies (#[trigger] (l.slots(), l.free_slots()).1[k] as int)
        < (l.slots(), l.free_slots()).0.len() by {
        assert(l.free_slots()[k] == (l.slots(), l.free_slots()).1[k]);
    }
}

/// A prefix of `ops` closes no more doors in `slot` than all of `ops`.
proof fn lemma_slot_closes_prefix(st: (Slots, Seq<u32>), ops: Seq<DoorOp>, slot: u32, k: int)
    requires
        0 <= k <= ops.len(),
    ensures
        slot_closes(st, ops.take(k), slot) <= slot_closes(st, ops, slot),
    decreases ops.len(),
{
    if k < ops.len() {
        lemma_slot_closes_prefix(st, ops.drop_last(), slot, k);
        assert(ops.drop_last().take(k) =~= ops.take(k));
    } else {
        assert(ops.take(k) =~= ops);
    }
}

/// A closed handle is never issued again, until its slot's generation wraps:
/// after `id` is closed, no door opened later gets `id` as its handle, as
/// long as doors in `id`'s slot close fewer than `u32::MAX` more times. The
/// open needs a free slot or room for a new one, as `Layout::open_door` does.
/// Every handle `Layout::open_door` issues and every close `close_door` does
/// is one of these operations on the slots.
pub proof fn lemma_closed_handle_never_reissued(
    slots: Slots,
    free: Seq<u32>,
    id: OpenDoorId,
    ops: Seq<DoorOp>,
    k: int,
)
    requires
        free_in_range((slots, free)),
        open_map_of(slots).contains_key(id),
        slot_closes(close_slots(slots, free, id), ops, id.slot) < u32::MAX,
        0 <= k < ops.len(),
        ops[k] is Open,
        ({
            let before = run_ops(close_slots(slots, free, id), ops.take(k));
            before.1.len() > 0 || before.0.len() < u32::MAX
        }),
    ensures
        ({
            let before = run_ops(close_slots(slots, free, id), ops.take(k));
            open_slots(before.0, before.1, ops[k]->Open_0).2 != id
        }),
{
    let st0 = close_slots(slots, free, id);
    assert(st0.0 == slots.update(id.slot as int, (next_generation(id.generation), None::<OpenDoor>)));
    assert(st0.1 == free.push(id.slot));
    assert forall|j: int| 0 <= j < st0.1.len() implies (#[trigger] st0.1[j] as int) < st0.0.len() by {
        if j < free.len() {
            let t = (slots, free);
            assert(t.1[j] == free[j]);
            assert((t.1[j] as int) < t.0.len());
            assert(st0.1[j] == free[j]);
        }
    }
    assert(st0.0[id.slot as int].0 == next_generation(id.generation));
    lemma_slot_closes_prefix(st0, ops, id.slot, k);
    let pre = ops.take(k);
    lemma_slot_generation(st0, id, pre);
    let before = run_ops(st0, pre);
    let issued = open_slots(before.0, before.1, ops[k]->Open_0).2;
    let m = 1 + slot_closes(st0, pre, id.slot) as int;
    assert(1 <= m < 0x1_0000_0000);
    assert(gen_after(id.generation, m) != id.generation as int);
    if before.1.len() > 0 {
        assert(before.1[before.1.len() - 1] == before.1.last());
        if issued.slot == id.slot {
            assert(issued.generation == before.0[id.slot as int].0);
        }
    } else {
        assert(issued.slot as int == before.0.len());
    }
}

/// Opening a door and then closing the handle it got gives the door back
/// and leaves the same open doors as before, with the slot moved on a
/// generation; closing the handle again changes nothing.
pub proof fn lemma_open_then_close(slots: Slots, free: Seq<u32>, door: OpenDoor)
    requires
        slots.len() < u32::MAX,
        forall|k: int|
            0 <= k < free.len() ==> (#[trigger] free[k] as int) < slots.len() && slots[free[k] as int].1 is None,
    ensures
        !open_map_of(slots).contains_key(open_slots(slots, free, door).2),
        open_map_of(open_slots(slots, free, door).0) == open_map_of(slots).insert(
            open_slots(slots, free, door).2,
            door,
        ),
        open_map_of(
            close_slots(open_slots(slots, free, door).0, open_slots(slots, free, door).1, open_slots(slots, free, door).2).0,
        ) == open_map_of(slots),
        close_slots(open_slots(slots, free, door).0, open_slots(slots, free, door).1, open_slots(slots, free, door).2).0[
            open_slots(slots, free, door).2.slot as int].0 == next_generation(open_slots(slots, free, door).2.generation),
        ({
            let c = close_slots(open_slots(slots, free, door).0, open_slots(slots, free, door).1, open_slots(slots, free, door).2);
            close_slots(c.0, c.1, open_slots(slots, free, door).2) == c
        }),
{
    let (s1, f1, id) = open_slots(slots, free, door);
    if free.len() > 0 {
        assert(free[free.len() - 1] == free.last());
    }
    assert(open_map_of(s1) =~= open_map_of(slots).insert(id, door));
    assert(open_map_of(s1).contains_key(id));
    let (s2, f2) = close_slots(s1, f1, id);
    assert(open_map_of(s2) =~= open_map_of(slots));
    assert(!open_map_of(s2).contains_key(id));
}

/// Whether two layouts' spatial indexes hold the same cells.
pub open spec fn same_index(a: Layout, b: Layout) -> bool {
    &&& (a.index() is None) == (b.index() is None)
    &&& a.index() is Some ==> a.index().unwrap().cell_size_spec() == b.index().unwrap().cell_size_spec()
    &&& forall|cx: int, cy: int|
        fits_i32(cx) && fits_i32(cy) ==> #[trigger] a.bucket_or_empty(cx, cy) == b.bucket_or_empty(cx, cy)
}

/// Committing is reproducible: the same commit on two layouts with the same
/// placements, slots, free list and index gives the same placement id, the
/// same placements, the same slots and free list, hence the same open doors
/// under the same handles, and the same index.
pub proof fn lemma_commit_reproducible(
    a: Layout,
    b: Layout,
    a2: Layout,
    b2: Layout,
    catalog: &Catalog,
    room: RoomId,
    def: super::catalog::RoomDef,
    origin: TilePos,
    closes: Seq<OpenDoorId>,
    connected: Seq<u8>,
    ra: Option<PlacementId>,
    rb: Option<PlacementId>,
)
    requires
        a.placements_spec() == b.placements_spec(),
        a.sizes() == b.sizes(),
        a.slots() == b.slots(),
        a.free_slots() == b.free_slots(),
        same_index(a, b),
        a.committed(a2, catalog, room, def, origin, closes, connected, ra),
        b.committed(b2, catalog, room, def, origin, closes, connected, rb),
    ensures
        ra == rb,
        a2.placements_spec() == b2.placements_spec(),
        a2.sizes() == b2.sizes(),
        a2.slots() == b2.slots(),
        a2.free_slots() == b2.free_slots(),
        a2.open_map() == b2.open_map(),
        same_index(a2, b2),
{
    assert(a.cell_size_for(catalog) == b.cell_size_for(catalog));
    assert forall|cx: int, cy: int|
        fits_i32(cx) && fits_i32(cy) implies #[trigger] a2.bucket_or_empty(cx, cy) == b2.bucket_or_empty(cx, cy) by {
        assert(a2.index().unwrap().bucket(cx, cy) == b2.index().unwrap().bucket(cx, cy));
    }
}

impl Layout {
    /// The spatial index's cell size, or the one it will get from `catalog`.
    pub fn cell_size(&self, catalog: &Catalog) -> (r: u32)
        ensures
            r == self.cell_size_for(catalog),
    {
        match &self.placements_index {
            Some(h) => h.cell_size(),
            None => catalog.spatial_cell_size(),
        }
    }

    /// How many open-door slots have been issued.
    pub fn door_slot_count(&self) -> (r: usize)
        ensures
            r == self.slots().len(),
    {
        self.open_doors.len()
    }
}


impl Layout {
    /// No two placements overlap.
    pub open spec fn disjoint(&self) -> bool {
        forall|i: int, j: int|
            0 <= i < j < self.placements_spec().len() ==> !super::geom::overlaps_spec(
                #[trigger] self.rect_of(i),
                #[trigger] self.rect_of(j),
            )
    }

    /// Every placement covers at least one tile.
    pub open spec fn all_non_empty(&self) -> bool {
        forall|i: int| 0 <= i < self.placements_spec().len() ==> #[trigger] self.rect_of(i).non_empty()
    }
}

} // verus!
