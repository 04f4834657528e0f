//! Filling one open door: the candidate rooms for it, where a candidate would
//! go, whether it fits, which open doors it would close, and one step of the
//! weighted try-and-remove loop.
//!
//! A door is filled by a room with a door of the same width facing the
//! opposite way, placed so that its door sits one tile beyond the open one.
//! The caller draws candidates by weight (the weights are float tags, read
//! outside this module) and hands each draw to `DoorAttempt::try_candidate`,
//! which places the candidate if it fits and otherwise removes it from the
//! pool, until one is placed or the pool is empty.
//!
//! Positions are `i32` tiles; a position that would leave the `i32` range is
//! treated as one no door can reach and no room can occupy.
use vstd::prelude::*;

use super::catalog::{Catalog, DoorDef, RoomDef};
use super::geom::{
    checked_minus_spec, checked_plus_spec, fits_i32, opposite_spec, overlaps, overlaps_spec, Dir, OpenDoorId,
    PlacementId, RoomId, TilePos, TileRect,
};
use super::layout::{
    door_index, kept_doors, lemma_commit_reproducible, lemma_kept_doors, open_door_pos, open_door_pos_spec,
    same_index, Layout, OpenDoor,
};
use super::spatial::{cells_computable, cells_computable_check, hi_x, hi_y, lo_x, lo_y};

verus! {

/// One tile in the direction a door of `dir` opens toward; y is up.
pub open spec fn step_spec(dir: Dir) -> TilePos {
    match dir {
        Dir::N => TilePos { x: 0i32, y: 1i32 },
        Dir::S => TilePos { x: 0i32, y: -1i32 },
        Dir::E => TilePos { x: 1i32, y: 0i32 },
        Dir::W => TilePos { x: -1i32, y: 0i32 },
    }
}

pub fn step(dir: Dir) -> (r: TilePos)
    ensures
        r == step_spec(dir),
{
    match dir {
        Dir::N => TilePos { x: 0, y: 1 },
        Dir::S => TilePos { x: 0, y: -1 },
        Dir::E => TilePos { x: 1, y: 0 },
        Dir::W => TilePos { x: -1, y: 0 },
    }
}

/// Stepping out of a door and back through the opposite one returns to the
/// same tile.
pub proof fn lemma_step_opposite(d: Dir)
    ensures
        step_spec(d).x + step_spec(opposite_spec(d)).x == 0,
        step_spec(d).y + step_spec(opposite_spec(d)).y == 0,
{
}

/// The first `n` doors of room `room` that face `dir` with width `width`, as
/// `(room, door index)`; a door past index 255 has no `u8` index and is
/// skipped.
pub open spec fn room_candidates(def: RoomDef, room: RoomId, dir: Dir, width: u8, n: int) -> Seq<
    (RoomId, u8),
>
    decreases n,
{
    if n <= 0 {
        Seq::empty()
    } else {
        room_candidates(def, room, dir, width, n - 1) + if def.doors@[n - 1].dir == dir
            && def.doors@[n - 1].width == width && n - 1 <= 255 {
            seq![(room, (n - 1) as u8)]
        } else {
            Seq::empty()
        }
    }
}

/// The candidates among the first `m` rooms, in room then door order.
pub open spec fn candidates_spec(rooms: Seq<RoomDef>, dir: Dir, width: u8, m: int) -> Seq<
    (RoomId, u8),
>
    decreases m,
{
    if m <= 0 {
        Seq::empty()
    } else {
        candidates_spec(rooms, dir, width, m - 1) + room_candidates(
            rooms[m - 1],
            RoomId((m - 1) as u32),
            dir,
            width,
            rooms[m - 1].doors@.len() as int,
        )
    }
}

/// `c` names a door of a catalog room facing `dir` with width `width`.
pub open spec fn candidate_ok(catalog: &Catalog, c: (RoomId, u8), dir: Dir, width: u8) -> bool {
    &&& catalog.room(c.0) matches Some(def)
    &&& (c.1 as int) < def.doors@.len()
    &&& def.doors@[c.1 as int].dir == dir
    &&& def.doors@[c.1 as int].width == width
}

proof fn lemma_room_candidates_ok(catalog: &Catalog, r: int, dir: Dir, width: u8, n: int)
    requires
        catalog.wf(),
        0 <= r < catalog.rooms_spec().len(),
        n <= catalog.rooms_spec()[r].doors@.len(),
    ensures
        forall|k: int|
            0 <= k < room_candidates(catalog.rooms_spec()[r], RoomId(r as u32), dir, width, n).len()
                ==> candidate_ok(
                catalog,
                #[trigger] room_candidates(
                    catalog.rooms_spec()[r],
                    RoomId(r as u32),
                    dir,
                    width,
                    n,
                )[k],
                dir,
                width,
            ),
    decreases n,
{
    if n > 0 {
        lemma_room_candidates_ok(catalog, r, dir, width, n - 1);
        let def = catalog.rooms_spec()[r];
        let prev = room_candidates(def, RoomId(r as u32), dir, width, n - 1);
        let all = room_candidates(def, RoomId(r as u32), dir, width, n);
        assert forall|k: int| 0 <= k < all.len() implies candidate_ok(catalog, #[trigger] all[k], dir, width) by {
            if k < prev.len() {
                assert(all[k] == prev[k]);
            }
        }
    }
}

proof fn lemma_candidates_ok(catalog: &Catalog, dir: Dir, width: u8, m: int)
    requires
        catalog.wf(),
        m <= catalog.rooms_spec().len(),
    ensures
        forall|k: int|
            0 <= k < candidates_spec(catalog.rooms_spec(), dir, width, m).len() ==> candidate_ok(
                catalog,
                #[trigger] candidates_spec(catalog.rooms_spec(), dir, width, m)[k],
                dir,
                width,
            ),
    decreases m,
{
    if m > 0 {
        lemma_candidates_ok(catalog, dir, width, m - 1);
        let r = m - 1;
        let def = catalog.rooms_spec()[r];
        lemma_room_candidates_ok(catalog, r, dir, width, def.doors@.len() as int);
        let prev = candidates_spec(catalog.rooms_spec(), dir, width, m - 1);
        let rc = room_candidates(def, RoomId(r as u32), dir, width, def.doors@.len() as int);
        let all = candidates_spec(catalog.rooms_spec(), dir, width, m);
        assert(all == prev + rc);
        assert forall|k: int| 0 <= k < all.len() implies candidate_ok(catalog, #[trigger] all[k], dir, width) by {
            if k < prev.len() {
                assert(all[k] == prev[k]);
            } else {
                assert(all[k] == rc[k - prev.len()]);
            }
        }
    }
}

/// Every catalog door facing `dir` with width `width`, as `(room, door
/// index)`, in room then door order. A room can contribute several doors.
fn candidates_for(catalog: &Catalog, dir: Dir, width: u8) -> (r: Vec<(RoomId, u8)>)
    requires
        catalog.wf(),
    ensures
        r@ == candidates_spec(catalog.rooms_spec(), dir, width, catalog.rooms_spec().len() as int),
{
    let mut out: Vec<(RoomId, u8)> = Vec::new();
    let n_rooms = catalog.len();
    let mut r: usize = 0;
    while r < n_rooms
        invariant
            catalog.wf(),
            n_rooms == catalog.rooms_spec().len(),
            r <= n_rooms,
            out@ == candidates_spec(catalog.rooms_spec(), dir, width, r as int),
        decreases n_rooms - r,
    {
        let room = RoomId(r as u32);
        let def = match catalog.get(room) {
            Some(def) => def,
            None => {
                return out;
            },
        };
        let ghost prefix = out@;
        let mut i: usize = 0;
        while i < def.doors.len()
            invariant
                i <= def.doors@.len(),
                *def == catalog.rooms_spec()[r as int],
                room == RoomId(r as u32),
                out@ == prefix + room_candidates(*def, room, dir, width, i as int),
            decreases def.doors.len() - i,
        {
            let door = &def.doors[i];
            if door.dir == dir && door.width == width && i <= 255 {
                out.push((room, i as u8));
            }
            assert(out@ =~= prefix + room_candidates(*def, room, dir, width, i + 1));
            i = i + 1;
        }
        r = r + 1;
    }
    out
}

/// Where `candidate` goes so that its `door_index`th door lands one tile
/// beyond the door at `existing_door_pos` facing `existing_dir`.
pub open spec fn candidate_origin_spec(
    catalog: &Catalog,
    candidate: RoomId,
    door_index: u8,
    existing_door_pos: TilePos,
    existing_dir: Dir,
) -> Option<TilePos> {
    match catalog.room(candidate) {
        Some(def) => if (door_index as int) < def.doors@.len() {
            match checked_plus_spec(existing_door_pos, step_spec(existing_dir)) {
                Some(target) => checked_minus_spec(target, def.doors@[door_index as int].local_pos),
                None => None,
            }
        } else {
            None
        },
        None => None,
    }
}

/// The candidate's origin, so that its door footprint sits exactly one tile
/// past the existing door's: adjacent, not overlapping.
pub fn candidate_origin(
    catalog: &Catalog,
    candidate: RoomId,
    door_index: u8,
    existing_door_pos: TilePos,
    existing_dir: Dir,
) -> (r: Option<TilePos>)
    ensures
        r == candidate_origin_spec(catalog, candidate, door_index, existing_door_pos, existing_dir),
        r matches Some(origin) ==> checked_plus_spec(
            origin,
            catalog.room(candidate).unwrap().doors@[door_index as int].local_pos,
        ) == checked_plus_spec(existing_door_pos, step_spec(existing_dir)),
{
    let def = match catalog.get(candidate) {
        Some(def) => def,
        None => {
            return None;
        },
    };
    if (door_index as usize) >= def.doors.len() {
        return None;
    }
    let door = &def.doors[door_index as usize];
    let target = match existing_door_pos.checked_plus(step(existing_dir)) {
        Some(t) => t,
        None => {
            return None;
        },
    };
    target.checked_minus(door.local_pos)
}

/// Whether placement `id` exists, its room is in `catalog`, and its rectangle
/// overlaps `rect`.
pub open spec fn clashes(layout: &Layout, catalog: &Catalog, rect: TileRect, id: PlacementId) -> bool {
    &&& (id.0 as int) < layout.placements_spec().len()
    &&& catalog.room(layout.placements_spec()[id.0 as int].room) matches Some(od)
    &&& overlaps_spec(
        rect,
        TileRect { min: layout.placements_spec()[id.0 as int].origin, size: od.size },
    )
}

/// `room` at `origin` is representable for the spatial index and overlaps
/// none of the placements the index finds near it.
pub open spec fn fits_spec(layout: &Layout, catalog: &Catalog, room: RoomId, origin: TilePos) -> bool {
    &&& catalog.room(room) matches Some(def)
    &&& cells_computable(layout.cell_size_for(catalog), TileRect { min: origin, size: def.size })
    &&& forall|k: int|
        0 <= k < layout.nearby_spec(TileRect { min: origin, size: def.size }).len() ==> !clashes(
            layout,
            catalog,
            TileRect { min: origin, size: def.size },
            #[trigger] layout.nearby_spec(TileRect { min: origin, size: def.size })[k],
        )
}

/// Room-versus-room overlap through the spatial index; no door-clearance
/// check. Placed rooms are measured by `catalog`; when `layout` was built
/// with that catalog, this is exact overlap against every placement.
pub fn fits(layout: &Layout, catalog: &Catalog, room: RoomId, origin: TilePos) -> (r: bool)
    requires
        layout.wf(),
        layout.rects_fit(catalog),
    ensures
        r == fits_spec(layout, catalog, room, origin),
        layout.matches(catalog) && r ==> forall|i: int|
            0 <= i < layout.placements_spec().len() && #[trigger] layout.rect_of(i).non_empty()
                && (TileRect { min: origin, size: catalog.room(room).unwrap().size }).non_empty()
                ==> !overlaps_spec(
                TileRect { min: origin, size: catalog.room(room).unwrap().size },
                layout.rect_of(i),
            ),
        layout.matches(catalog) ==> (catalog.room(room) matches Some(def) && cells_computable(
            layout.cell_size_for(catalog),
            TileRect { min: origin, size: def.size },
        ) && forall|i: int|
            0 <= i < layout.placements_spec().len() ==> !overlaps_spec(
                TileRect { min: origin, size: def.size },
                #[trigger] layout.rect_of(i),
            )) ==> r,
{
    let def = match catalog.get(room) {
        Some(def) => def,
        None => {
            return false;
        },
    };
    let rect = TileRect { min: origin, size: def.size };
    if !cells_computable_check(layout.cell_size(catalog), rect) {
        return false;
    }
    let ids = layout.nearby(rect);
    let ghost all = ids@;
    let mut k: usize = 0;
    while k < ids.len()
        invariant
            layout.wf(),
            layout.rects_fit(catalog),
            all == ids@,
            all == layout.nearby_spec(rect),
            catalog.room(room) == Some(*def),
            rect == (TileRect { min: origin, size: def.size }),
            cells_computable(layout.cell_size_for(catalog), rect),
            forall|j: int| 0 <= j < all.len() ==> (#[trigger] all[j].0 as int) < layout.placements_spec().len(),
            k <= all.len(),
            forall|j: int| 0 <= j < k ==> !clashes(layout, catalog, rect, #[trigger] all[j]),
        decreases all.len() - k,
    {
        let id = ids[k];
        if let Some(other) = layout.get(id) {
            if let Some(other_def) = catalog.get(other.room) {
                let other_rect = TileRect { min: other.origin, size: other_def.size };
                assert(other_rect.max_fits()) by {
                    assert(catalog.room(layout.placements_spec()[id.0 as int].room) is Some);
                }
                if overlaps(rect, other_rect) {
                    proof {
                        assert(clashes(layout, catalog, rect, all[k as int]));
                        if layout.matches(catalog) {
                            assert(catalog.room(layout.placements_spec()[id.0 as int].room) is Some);
                            assert(other_rect == layout.rect_of(id.0 as int));
                            assert(overlaps_spec(rect, layout.rect_of(id.0 as int)));
                        }
                    }
                    return false;
                }
            }
        }
        k = k + 1;
    }
    proof {
        assert forall|i: int|
            layout.matches(catalog) && 0 <= i < layout.placements_spec().len() && #[trigger] layout.rect_of(i).non_empty()
                && rect.non_empty() implies !overlaps_spec(rect, layout.rect_of(i)) by {
            if overlaps_spec(rect, layout.rect_of(i)) {
                super::geom::lemma_overlaps_symmetric(rect, layout.rect_of(i));
                layout.lemma_nearby_complete(rect, i);
                let j = choose|j: int| 0 <= j < all.len() && all[j] == PlacementId(i as u32);
                assert(layout.rect_of(i) == TileRect {
                    min: layout.placements_spec()[i].origin,
                    size: catalog.room(layout.placements_spec()[i].room).unwrap().size,
                });
                assert(clashes(layout, catalog, rect, all[j]));
            }
        }
    }
    true
}

/// Two steps out of a door: from `origin` through the door's local position,
/// then one tile in its direction; `None` if either leaves the `i32` range.
pub open spec fn door_beyond(origin: TilePos, d: DoorDef) -> Option<TilePos> {
    match checked_plus_spec(origin, d.local_pos) {
        Some(p) => checked_plus_spec(p, step_spec(d.dir)),
        None => None,
    }
}

/// The direction of open door `open`, as its room defines it.
pub open spec fn open_dir(layout: &Layout, catalog: &Catalog, open: OpenDoor) -> Dir {
    catalog.room(layout.placements_spec()[open.placement.0 as int].room).unwrap().doors@[open.door as int].dir
}

/// The width of open door `open`, as its room defines it.
pub open spec fn open_width(layout: &Layout, catalog: &Catalog, open: OpenDoor) -> u8 {
    catalog.room(layout.placements_spec()[open.placement.0 as int].room).unwrap().doors@[open.door as int].width
}

/// Room `cand` at `origin` connects to open door `open`: one of its doors
/// faces `open`'s opposite way and sits one tile from it.
pub open spec fn satisfies(
    layout: &Layout,
    catalog: &Catalog,
    cand: RoomDef,
    origin: TilePos,
    open: OpenDoor,
) -> bool {
    &&& open_door_pos_spec(layout, catalog, open) matches Some(p)
    &&& exists|k: int|
        0 <= k < cand.doors@.len() && door_beyond(origin, #[trigger] cand.doors@[k]) == Some(p)
            && cand.doors@[k].dir == opposite_spec(open_dir(layout, catalog, open))
}

/// Door `d` of a room placed at `origin` meets open door `open`: it sits one
/// tile from it, facing the other way.
pub open spec fn door_meets(layout: &Layout, catalog: &Catalog, d: DoorDef, origin: TilePos, open: OpenDoor) -> bool {
    &&& open_door_pos_spec(layout, catalog, open) matches Some(p)
    &&& door_beyond(origin, d) == Some(p)
    &&& d.dir == opposite_spec(open_dir(layout, catalog, open))
}

/// Door `k` of `cand`, placed at `origin`, meets one of `layout`'s open doors.
pub open spec fn meets_open(layout: &Layout, catalog: &Catalog, cand: RoomDef, origin: TilePos, k: int) -> bool {
    exists|oid: OpenDoorId|
        layout.open_map().contains_key(oid) && #[trigger] door_meets(
            layout,
            catalog,
            cand.doors@[k],
            origin,
            layout.open_map()[oid],
        )
}

/// The indices, in door order, of those of `cand`'s first `n` doors that
/// meet an open door of `layout` when `cand` is placed at `origin`.
pub open spec fn connected_indices(
    layout: &Layout,
    catalog: &Catalog,
    cand: RoomDef,
    origin: TilePos,
    n: nat,
) -> Seq<u8>
    decreases n,
{
    if n == 0 {
        Seq::empty()
    } else {
        let p = connected_indices(layout, catalog, cand, origin, (n - 1) as nat);
        if meets_open(layout, catalog, cand, origin, n - 1) {
            p.push(door_index(n - 1))
        } else {
            p
        }
    }
}

/// An index is among the connected ones exactly when some door with that
/// index meets an open door.
pub proof fn lemma_connected_indices(
    layout: &Layout,
    catalog: &Catalog,
    cand: RoomDef,
    origin: TilePos,
    n: nat,
)
    ensures
        forall|x: u8|
            #[trigger] connected_indices(layout, catalog, cand, origin, n).contains(x) <==> exists|k: int|
                0 <= k < n && meets_open(layout, catalog, cand, origin, k) && door_index(k) == x,
    decreases n,
{
    if n > 0 {
        lemma_connected_indices(layout, catalog, cand, origin, (n - 1) as nat);
        let p = connected_indices(layout, catalog, cand, origin, (n - 1) as nat);
        let c = connected_indices(layout, catalog, cand, origin, n);
        assert forall|x: u8| #[trigger] c.contains(x) <==> exists|k: int|
            0 <= k < n && meets_open(layout, catalog, cand, origin, k) && door_index(k) == x by {
            if meets_open(layout, catalog, cand, origin, n - 1) {
                assert(c == p.push(door_index(n - 1)));
                if c.contains(x) {
                    let i = choose|i: int| 0 <= i < c.len() && c[i] == x;
                    if i < p.len() {
                        assert(p[i] == x);
                        assert(p.contains(x));
                    }
                }
                if exists|k: int| 0 <= k < n && meets_open(layout, catalog, cand, origin, k) && door_index(k) == x {
                    let k = choose|k: int| 0 <= k < n && meets_open(layout, catalog, cand, origin, k) && door_index(k) == x;
                    if k < n - 1 {
                        assert(p.contains(x));
                        let i = choose|i: int| 0 <= i < p.len() && p[i] == x;
                        assert(c[i] == x);
                    } else {
                        assert(c[p.len() as int] == x);
                    }
                }
            } else {
                assert(c == p);
                if exists|k: int| 0 <= k < n && meets_open(layout, catalog, cand, origin, k) && door_index(k) == x {
                    let k = choose|k: int| 0 <= k < n && meets_open(layout, catalog, cand, origin, k) && door_index(k) == x;
                    assert(k < n - 1);
                }
            }
        }
    }
}

/// Whether door `d` of a room placed at `origin` meets open door `open`.
fn door_meets_exec(layout: &Layout, catalog: &Catalog, d: &DoorDef, origin: TilePos, open: OpenDoor) -> (r: bool)
    ensures
        r == door_meets(layout, catalog, *d, origin, open),
{
    let open_pos = match open_door_pos(layout, catalog, open) {
        Some(p) => p,
        None => {
            return false;
        },
    };
    let placement = match layout.get(open.placement) {
        Some(p) => p,
        None => {
            return false;
        },
    };
    let open_def = match catalog.get(placement.room) {
        Some(def) => def,
        None => {
            return false;
        },
    };
    if (open.door as usize) >= open_def.doors.len() {
        return false;
    }
    let want = open_def.doors[open.door as usize].dir.opposite();
    match origin.checked_plus(d.local_pos) {
        Some(p) => match p.checked_plus(step(d.dir)) {
            Some(q) => q == open_pos && d.dir == want,
            None => false,
        },
        None => false,
    }
}

/// The indices of `def`'s doors that, with the room placed at `origin`, meet
/// an open door of `layout`: the doors the placement connects through.
pub fn connected_doors(layout: &Layout, catalog: &Catalog, def: &RoomDef, origin: TilePos) -> (r: Vec<u8>)
    requires
        layout.wf(),
    ensures
        r@ == connected_indices(layout, catalog, *def, origin, def.doors@.len()),
{
    let open = layout.open_doors();
    let ghost list = open@;
    let mut out: Vec<u8> = Vec::new();
    let mut k: usize = 0;
    while k < def.doors.len()
        invariant
            k <= def.doors@.len(),
            list == open@,
            forall|j: int|
                0 <= j < list.len() ==> layout.open_map().contains_key(#[trigger] list[j].0)
                    && layout.open_map()[list[j].0] == list[j].1,
            forall|id: OpenDoorId|
                #[trigger] layout.open_map().contains_key(id) ==> exists|j: int|
                    0 <= j < list.len() && #[trigger] list[j].0 == id,
            out@ == connected_indices(layout, catalog, *def, origin, k as nat),
        decreases def.doors.len() - k,
    {
        let d = &def.doors[k];
        let mut hit = false;
        let mut j: usize = 0;
        while j < open.len()
            invariant
                j <= list.len(),
                list == open@,
                *d == def.doors@[k as int],
                hit <==> exists|i: int|
                    0 <= i < j && door_meets(layout, catalog, *d, origin, #[trigger] list[i].1),
            decreases open.len() - j,
        {
            if door_meets_exec(layout, catalog, d, origin, open[j].1) {
                hit = true;
            }
            j = j + 1;
        }
        proof {
            if hit {
                let i = choose|i: int|
                    0 <= i < j && door_meets(layout, catalog, *d, origin, #[trigger] list[i].1);
                assert(layout.open_map().contains_key(list[i].0));
                assert(door_meets(layout, catalog, def.doors@[k as int], origin, layout.open_map()[list[i].0]));
            }
            if meets_open(layout, catalog, *def, origin, k as int) {
                let oid = choose|oid: OpenDoorId|
                    layout.open_map().contains_key(oid) && #[trigger] door_meets(
                        layout,
                        catalog,
                        def.doors@[k as int],
                        origin,
                        layout.open_map()[oid],
                    );
                let i = choose|i: int| 0 <= i < list.len() && #[trigger] list[i].0 == oid;
                assert(door_meets(layout, catalog, *d, origin, list[i].1));
            }
        }
        let idx: u8 = if k <= 255 {
            k as u8
        } else {
            255
        };
        if hit {
            out.push(idx);
        }
        k = k + 1;
    }
    out
}

fn connects_any(def: &RoomDef, origin: TilePos, open_pos: TilePos, open_dir: Dir) -> (r: bool)
    ensures
        r == exists|k: int|
            0 <= k < def.doors@.len() && door_beyond(origin, #[trigger] def.doors@[k]) == Some(
                open_pos,
            ) && def.doors@[k].dir == opposite_spec(open_dir),
{
    let want = open_dir.opposite();
    let mut k: usize = 0;
    while k < def.doors.len()
        invariant
            want == opposite_spec(open_dir),
            k <= def.doors@.len(),
            forall|j: int|
                0 <= j < k ==> !(door_beyond(origin, #[trigger] def.doors@[j]) == Some(open_pos)
                    && def.doors@[j].dir == want),
        decreases def.doors.len() - k,
    {
        let d = &def.doors[k];
        if let Some(p) = origin.checked_plus(d.local_pos) {
            if let Some(q) = p.checked_plus(step(d.dir)) {
                if q == open_pos && d.dir == want {
                    assert(door_beyond(origin, def.doors@[k as int]) == Some(open_pos));
                    return true;
                }
            }
        }
        k = k + 1;
    }
    false
}

/// Every open door that `candidate` placed at `origin` would also connect
/// to, not just the one it was aimed at, in slot order.
pub fn satisfied_doors(layout: &Layout, catalog: &Catalog, candidate: RoomId, origin: TilePos) -> (r:
    Vec<OpenDoorId>)
    requires
        layout.wf(),
    ensures
        catalog.room(candidate) is None ==> r@.len() == 0,
        catalog.room(candidate) matches Some(def) ==> forall|oid: OpenDoorId|
            #[trigger] r@.contains(oid) <==> layout.open_map().contains_key(oid) && satisfies(
                layout,
                catalog,
                def,
                origin,
                layout.open_map()[oid],
            ),
        r@.no_duplicates(),
        forall|a: int, b: int| 0 <= a < b < r@.len() ==> (#[trigger] r@[a]).slot < (#[trigger] r@[b]).slot,
{
    let def = match catalog.get(candidate) {
        Some(def) => def,
        None => {
            return Vec::new();
        },
    };
    let open = layout.open_doors();
    let ghost list = open@;
    let mut out: Vec<OpenDoorId> = Vec::new();
    let mut k: usize = 0;
    while k < open.len()
        invariant
            layout.wf(),
            list == open@,
            catalog.room(candidate) == Some(*def),
            forall|j: int|
                0 <= j < list.len() ==> layout.open_map().contains_key(#[trigger] list[j].0)
                    && layout.open_map()[list[j].0] == list[j].1,
            forall|id: OpenDoorId|
                #[trigger] layout.open_map().contains_key(id) ==> exists|j: int|
                    0 <= j < list.len() && #[trigger] list[j].0 == id,
            forall|j1: int, j2: int|
                0 <= j1 < j2 < list.len() ==> (#[trigger] list[j1].0).slot < (#[trigger] list[j2].0).slot,
            k <= list.len(),
            forall|oid: OpenDoorId|
                #[trigger] out@.contains(oid) <==> exists|j: int|
                    0 <= j < k && #[trigger] list[j].0 == oid && satisfies(
                        layout,
                        catalog,
                        *def,
                        origin,
                        list[j].1,
                    ),
            forall|a: int, b: int| 0 <= a < b < out@.len() ==> (#[trigger] out@[a]).slot < (#[trigger] out@[b]).slot,
            forall|a: int| 0 <= a < out@.len() && k < list.len() ==> (#[trigger] out@[a]).slot < list[k as int].0.slot,
        decreases list.len() - k,
    {
        let (open_id, door) = open[k];
        let ghost before = out@;
        let mut hit = false;
        if let Some(open_pos) = open_door_pos(layout, catalog, door) {
            if let Some(open_placement) = layout.get(door.placement) {
                if let Some(open_def) = catalog.get(open_placement.room) {
                    if (door.door as usize) < open_def.doors.len() {
                        let open_door_def = &open_def.doors[door.door as usize];
                        if connects_any(def, origin, open_pos, open_door_def.dir) {
                            hit = true;
                        }
                    }
                }
            }
        }
        assert(hit == satisfies(layout, catalog, *def, origin, door));
        if hit {
            out.push(open_id);
        }
        proof {
            assert forall|oid: OpenDoorId|
                #[trigger] out@.contains(oid) <==> exists|j: int|
                    0 <= j < k + 1 && #[trigger] list[j].0 == oid && satisfies(
                        layout,
                        catalog,
                        *def,
                        origin,
                        list[j].1,
                    ) by {
                if out@.contains(oid) {
                    let a = choose|a: int| 0 <= a < out@.len() && out@[a] == oid;
                    if a < before.len() {
                        assert(before.contains(oid));
                    }
                }
                if before.contains(oid) {
                    let a = choose|a: int| 0 <= a < before.len() && before[a] == oid;
                    assert(out@[a] == oid);
                }
                if hit && oid == open_id {
                    assert(out@[out@.len() - 1] == oid);
                }
            }
            if k + 1 < list.len() {
                assert(list[k as int].0.slot < list[k + 1].0.slot);
            }
        }
        k = k + 1;
    }
    proof {
        assert forall|oid: OpenDoorId|
            #[trigger] out@.contains(oid) <==> layout.open_map().contains_key(oid) && satisfies(
                layout,
                catalog,
                *def,
                origin,
                layout.open_map()[oid],
            ) by {
            if layout.open_map().contains_key(oid) {
                let j = choose|j: int| 0 <= j < list.len() && #[trigger] list[j].0 == oid;
            }
        }
        assert forall|a: int, b: int| 0 <= a < out@.len() && 0 <= b < out@.len() && a != b implies out@[a]
            != out@[b] by {
            if a < b {
                assert(out@[a].slot < out@[b].slot);
            } else {
                assert(out@[b].slot < out@[a].slot);
            }
        }
    }
    out
}


/// One open door being filled: the door, where it is, which way it faces, its
/// width, and the candidates not yet tried.
#[derive(Debug, Clone)]
pub struct DoorAttempt {
    pub door_id: OpenDoorId,
    pub door: OpenDoor,
    pub pos: TilePos,
    pub dir: Dir,
    pub width: u8,
    /// `(room, door index)` pairs that could fill the door; each failed try
    /// removes one.
    pub candidates: Vec<(RoomId, u8)>,
}

/// The door listed under `id`, if any.
fn find_open(open: &Vec<(OpenDoorId, OpenDoor)>, id: OpenDoorId) -> (r: Option<OpenDoor>)
    ensures
        r matches Some(d) ==> exists|j: int| 0 <= j < open@.len() && #[trigger] open@[j] == (id, d),
        r is None ==> forall|j: int| 0 <= j < open@.len() ==> (#[trigger] open@[j]).0 != id,
{
    let mut k: usize = 0;
    while k < open.len()
        invariant
            k <= open@.len(),
            forall|j: int| 0 <= j < k ==> (#[trigger] open@[j]).0 != id,
        decreases open.len() - k,
    {
        if open[k].0 == id {
            assert(open@[k as int] == (id, open@[k as int].1));
            return Some(open[k].1);
        }
        k = k + 1;
    }
    None
}

/// A try that placed `room` at `o`: the attempt is unchanged, and the layout
/// committed the room, closing exactly the open doors it connects to and
/// opening exactly the room's doors that do not meet one of them.
pub open spec fn placed_outcome(
    old_a: DoorAttempt,
    new_a: DoorAttempt,
    old_l: Layout,
    new_l: Layout,
    catalog: &Catalog,
    room: RoomId,
    o: TilePos,
    r: Option<RoomId>,
) -> bool {
    let def = catalog.room(room).unwrap();
    let id = PlacementId(old_l.placements_spec().len() as u32);
    &&& r == Some(room)
    &&& new_a == old_a
    &&& exists|closes: Seq<OpenDoorId>|
        #![trigger old_l.committed(new_l, catalog, room, def, o, closes, connected_indices(&old_l, catalog, def, o, def.doors@.len()), Some(id))]
        {
            &&& forall|oid: OpenDoorId|
                #[trigger] closes.contains(oid) <==> old_l.open_map().contains_key(oid) && satisfies(
                    &old_l,
                    catalog,
                    def,
                    o,
                    old_l.open_map()[oid],
                )
            &&& forall|a: int, b: int|
                0 <= a < b < closes.len() ==> (#[trigger] closes[a]).slot < (#[trigger] closes[b]).slot
            &&& old_l.committed(
                new_l,
                catalog,
                room,
                def,
                o,
                closes,
                connected_indices(&old_l, catalog, def, o, def.doors@.len()),
                Some(id),
            )
        }
    &&& def.doors@.len() <= 256 ==> forall|k: int|
        0 <= k < def.doors@.len() ==> ((exists|oid: OpenDoorId|
            new_l.open_map().contains_key(oid) && #[trigger] new_l.open_map()[oid] == (OpenDoor {
                placement: id,
                door: k as u8,
            })) <==> !meets_open(&old_l, catalog, def, o, k))
}

/// A try that did not place: the layout is unchanged and candidate `pick` was
/// swap-removed.
pub open spec fn removed_outcome(
    old_a: DoorAttempt,
    new_a: DoorAttempt,
    old_l: Layout,
    new_l: Layout,
    pick: int,
    r: Option<RoomId>,
) -> bool {
    &&& r is None
    &&& new_l == old_l
    &&& new_a.candidates@ == old_a.candidates@.update(pick, old_a.candidates@.last()).drop_last()
    &&& new_a.door_id == old_a.door_id
    &&& new_a.door == old_a.door
    &&& new_a.pos == old_a.pos
    &&& new_a.dir == old_a.dir
    &&& new_a.width == old_a.width
}

/// What trying candidate `pick` does: places it where its door meets the
/// open door if it fits there, and otherwise removes it.
pub open spec fn tried(
    old_a: DoorAttempt,
    new_a: DoorAttempt,
    old_l: Layout,
    new_l: Layout,
    catalog: &Catalog,
    pick: int,
    r: Option<RoomId>,
) -> bool {
    let c = old_a.candidates@[pick];
    match candidate_origin_spec(catalog, c.0, c.1, old_a.pos, old_a.dir) {
        Some(o) => if fits_spec(&old_l, catalog, c.0, o) {
            placed_outcome(old_a, new_a, old_l, new_l, catalog, c.0, o, r)
        } else {
            removed_outcome(old_a, new_a, old_l, new_l, pick, r)
        },
        None => removed_outcome(old_a, new_a, old_l, new_l, pick, r),
    }
}

/// Two layouts agree in everything a placement step reads and writes: the
/// placements, the door slots and free list, and the spatial index's cells.
pub open spec fn same_layout(a: Layout, b: Layout) -> bool {
    &&& a.placements_spec() == b.placements_spec()
    &&& a.sizes() == b.sizes()
    &&& a.slots() == b.slots()
    &&& a.free_slots() == b.free_slots()
    &&& same_index(a, b)
}

/// Two attempts agree field by field.
pub open spec fn same_attempt(a: DoorAttempt, b: DoorAttempt) -> bool {
    &&& a.door_id == b.door_id
    &&& a.door == b.door
    &&& a.pos == b.pos
    &&& a.dir == b.dir
    &&& a.width == b.width
    &&& a.candidates@ == b.candidates@
}

/// Two slot-ordered sequences of handles with the same members are equal.
proof fn lemma_slot_sorted_unique(a: Seq<OpenDoorId>, b: Seq<OpenDoorId>)
    requires
        forall|i: int, j: int| 0 <= i < j < a.len() ==> (#[trigger] a[i]).slot < (#[trigger] a[j]).slot,
        forall|i: int, j: int| 0 <= i < j < b.len() ==> (#[trigger] b[i]).slot < (#[trigger] b[j]).slot,
        forall|x: OpenDoorId| #![trigger a.contains(x)] #![trigger b.contains(x)] a.contains(x) <==> b.contains(x),
    ensures
        a == b,
    decreases a.len() + b.len(),
{
    if a.len() == 0 {
        if b.len() > 0 {
            assert(b.contains(b[0]));
            assert(a.contains(b[0]));
        }
        assert(a =~= b);
    } else if b.len() == 0 {
        assert(a.contains(a[0]));
    } else {
        let x = a.last();
        let y = b.last();
        assert(a.contains(x));
        assert(b.contains(x));
        assert(b.contains(y));
        assert(a.contains(y));
        let i = choose|i: int| 0 <= i < b.len() && b[i] == x;
        let j = choose|j: int| 0 <= j < a.len() && a[j] == y;
        assert(x.slot <= y.slot) by {
            if i < b.len() - 1 {
                assert(b[i].slot < b[b.len() - 1].slot);
            }
        }
        assert(y.slot <= x.slot) by {
            if j < a.len() - 1 {
                assert(a[j].slot < a[a.len() - 1].slot);
            }
        }
        assert(i == b.len() - 1) by {
            if i < b.len() - 1 {
                assert(b[i].slot < b[b.len() - 1].slot);
            }
        }
        let ap = a.drop_last();
        let bp = b.drop_last();
        assert forall|z: OpenDoorId| #[trigger] ap.contains(z) <==> bp.contains(z) by {
            if ap.contains(z) {
                let k = choose|k: int| 0 <= k < ap.len() && ap[k] == z;
                assert(a[k].slot < a[a.len() - 1].slot);
                assert(z != x);
                assert(a.contains(z));
                let m = choose|m: int| 0 <= m < b.len() && b[m] == z;
                assert(m != b.len() - 1);
                assert(bp[m] == z);
            }
            if bp.contains(z) {
                let k = choose|k: int| 0 <= k < bp.len() && bp[k] == z;
                assert(b[k].slot < b[b.len() - 1].slot);
                assert(z != y);
                assert(b.contains(z));
                let m = choose|m: int| 0 <= m < a.len() && a[m] == z;
                assert(m != a.len() - 1);
                assert(ap[m] == z);
            }
        }
        lemma_slot_sorted_unique(ap, bp);
        assert(a =~= ap.push(x));
        assert(b =~= bp.push(y));
    }
}

/// A query reads only the cells its rectangle touches.
proof fn lemma_same_nearby(a: Layout, b: Layout, rect: TileRect)
    requires
        same_index(a, b),
        a.can_query(rect),
    ensures
        a.nearby_spec(rect) == b.nearby_spec(rect),
{
    if let Some(h) = a.index() {
        let g = b.index().unwrap();
        let cs = h.cell_size_spec();
        assert forall|cx: int, cy: int|
            lo_x(cs, rect) <= cx <= hi_x(cs, rect) && lo_y(cs, rect) <= cy <= hi_y(cs, rect) implies #[trigger] h.bucket(
            cx,
            cy,
        ) == g.bucket(cx, cy) by {
            assert(fits_i32(cx) && fits_i32(cy));
            assert(a.bucket_or_empty(cx, cy) == b.bucket_or_empty(cx, cy));
        }
        super::spatial::lemma_same_cells_same_grid(h, g, lo_x(cs, rect), hi_x(cs, rect), lo_y(cs, rect), hi_y(cs, rect));
    }
}

/// The doors a room meets depend only on the placements and open doors.
proof fn lemma_same_connected(a: Layout, b: Layout, catalog: &Catalog, cand: RoomDef, origin: TilePos, n: nat)
    requires
        a.placements_spec() == b.placements_spec(),
        a.slots() == b.slots(),
    ensures
        connected_indices(&a, catalog, cand, origin, n) == connected_indices(&b, catalog, cand, origin, n),
    decreases n,
{
    assert(a.open_map() == b.open_map());
    if n > 0 {
        lemma_same_connected(a, b, catalog, cand, origin, (n - 1) as nat);
        let d = cand.doors@[n - 1];
        if meets_open(&a, catalog, cand, origin, n - 1) {
            let oid = choose|oid: OpenDoorId|
                a.open_map().contains_key(oid) && #[trigger] door_meets(&a, catalog, d, origin, a.open_map()[oid]);
            assert(door_meets(&b, catalog, d, origin, b.open_map()[oid]));
        }
        if meets_open(&b, catalog, cand, origin, n - 1) {
            let oid = choose|oid: OpenDoorId|
                b.open_map().contains_key(oid) && #[trigger] door_meets(&b, catalog, d, origin, b.open_map()[oid]);
            assert(door_meets(&a, catalog, d, origin, a.open_map()[oid]));
        }
    }
}

/// A try is reproducible: the same try, on attempts and layouts that agree,
/// gives the same result and leaves attempts and layouts that agree.
pub proof fn lemma_try_reproducible(
    a1: DoorAttempt,
    a2: DoorAttempt,
    l1: Layout,
    l2: Layout,
    b1: DoorAttempt,
    b2: DoorAttempt,
    m1: Layout,
    m2: Layout,
    catalog: &Catalog,
    pick: int,
    r1: Option<RoomId>,
    r2: Option<RoomId>,
)
    requires
        same_attempt(a1, b1),
        same_layout(l1, m1),
        0 <= pick < a1.candidates@.len(),
        tried(a1, a2, l1, l2, catalog, pick, r1),
        tried(b1, b2, m1, m2, catalog, pick, r2),
    ensures
        r1 == r2,
        same_attempt(a2, b2),
        same_layout(l2, m2),
{
    let c = a1.candidates@[pick];
    assert(b1.candidates@[pick] == c);
    assert(l1.open_map() == m1.open_map());
    assert(l1.cell_size_for(catalog) == m1.cell_size_for(catalog));
    match candidate_origin_spec(catalog, c.0, c.1, a1.pos, a1.dir) {
        Some(o) => {
            let def = catalog.room(c.0).unwrap();
            let rect = TileRect { min: o, size: def.size };
            if catalog.room(c.0) is Some && cells_computable(l1.cell_size_for(catalog), rect) {
                lemma_same_nearby(l1, m1, rect);
            }
            assert(fits_spec(&l1, catalog, c.0, o) == fits_spec(&m1, catalog, c.0, o));
            if fits_spec(&l1, catalog, c.0, o) {
                let id = PlacementId(l1.placements_spec().len() as u32);
                let n = def.doors@.len();
                lemma_same_connected(l1, m1, catalog, def, o, n);
                let conn = connected_indices(&l1, catalog, def, o, n);
                let ca = choose|closes: Seq<OpenDoorId>|
                    {
                        &&& forall|oid: OpenDoorId|
                            #[trigger] closes.contains(oid) <==> l1.open_map().contains_key(oid) && satisfies(
                                &l1,
                                catalog,
                                def,
                                o,
                                l1.open_map()[oid],
                            )
                        &&& forall|a: int, b: int|
                            0 <= a < b < closes.len() ==> (#[trigger] closes[a]).slot < (#[trigger] closes[b]).slot
                        &&& l1.committed(l2, catalog, c.0, def, o, closes, conn, Some(id))
                    };
                let cb = choose|closes: Seq<OpenDoorId>|
                    {
                        &&& forall|oid: OpenDoorId|
                            #[trigger] closes.contains(oid) <==> m1.open_map().contains_key(oid) && satisfies(
                                &m1,
                                catalog,
                                def,
                                o,
                                m1.open_map()[oid],
                            )
                        &&& forall|a: int, b: int|
                            0 <= a < b < closes.len() ==> (#[trigger] closes[a]).slot < (#[trigger] closes[b]).slot
                        &&& m1.committed(m2, catalog, c.0, def, o, closes, conn, Some(id))
                    };
                assert forall|x: OpenDoorId| #[trigger] ca.contains(x) <==> cb.contains(x) by {
                    if l1.open_map().contains_key(x) {
                        assert(satisfies(&l1, catalog, def, o, l1.open_map()[x]) == satisfies(
                            &m1,
                            catalog,
                            def,
                            o,
                            m1.open_map()[x],
                        ));
                    }
                }
                lemma_slot_sorted_unique(ca, cb);
                lemma_commit_reproducible(l1, m1, l2, m2, catalog, c.0, def, o, ca, conn, Some(id), Some(id));
            }
        },
        None => {},
    }
}

impl DoorAttempt {
    /// The attempt still describes an open door of `layout`.
    pub open spec fn valid_for(&self, layout: &Layout, catalog: &Catalog) -> bool {
        &&& layout.open_map().contains_key(self.door_id)
        &&& layout.open_map()[self.door_id] == self.door
        &&& open_door_pos_spec(layout, catalog, self.door) == Some(self.pos)
        &&& self.dir == open_dir(layout, catalog, self.door)
        &&& self.width == open_width(layout, catalog, self.door)
    }

    /// Every remaining candidate is a catalog door facing the opposite way
    /// with the same width.
    pub open spec fn cands_ok(&self, catalog: &Catalog) -> bool {
        forall|k: int|
            0 <= k < self.candidates@.len() ==> candidate_ok(
                catalog,
                #[trigger] self.candidates@[k],
                opposite_spec(self.dir),
                self.width,
            )
    }

    /// Starts filling open door `door_id`: `None` if it is not open or its
    /// position cannot be derived.
    pub fn new(layout: &Layout, catalog: &Catalog, door_id: OpenDoorId) -> (r: Option<DoorAttempt>)
        requires
            layout.wf(),
            catalog.wf(),
        ensures
            r is Some <==> layout.open_map().contains_key(door_id) && open_door_pos_spec(
                layout,
                catalog,
                layout.open_map()[door_id],
            ) is Some,
            r matches Some(a) ==> {
                &&& a.door_id == door_id
                &&& a.valid_for(layout, catalog)
                &&& a.cands_ok(catalog)
                &&& a.candidates@ == candidates_spec(
                    catalog.rooms_spec(),
                    opposite_spec(a.dir),
                    a.width,
                    catalog.rooms_spec().len() as int,
                )
            },
    {
        let open = layout.open_doors();
        let found = find_open(&open, door_id);
        let door = match found {
            Some(d) => d,
            None => {
                assert(!layout.open_map().contains_key(door_id)) by {
                    if layout.open_map().contains_key(door_id) {
                        let j = choose|j: int| 0 <= j < open@.len() && #[trigger] open@[j].0 == door_id;
                        assert(open@[j].0 == door_id);
                    }
                }
                return None;
            },
        };
        assert(layout.open_map().contains_key(door_id) && layout.open_map()[door_id] == door) by {
            let j = choose|j: int| 0 <= j < open@.len() && #[trigger] open@[j] == (door_id, door);
            assert(open@[j].0 == door_id);
        }
        let pos = match open_door_pos(layout, catalog, door) {
            Some(p) => p,
            None => {
                return None;
            },
        };
        let placement = match layout.get(door.placement) {
            Some(p) => p,
            None => {
                return None;
            },
        };
        let existing_def = match catalog.get(placement.room) {
            Some(d) => d,
            None => {
                return None;
            },
        };
        if (door.door as usize) >= existing_def.doors.len() {
            return None;
        }
        let existing_door = &existing_def.doors[door.door as usize];
        let dir = existing_door.dir;
        let width = existing_door.width;
        let candidates = candidates_for(catalog, dir.opposite(), width);
        proof {
            lemma_candidates_ok(catalog, opposite_spec(dir), width, catalog.rooms_spec().len() as int);
        }
        Some(DoorAttempt { door_id, door, pos, dir, width, candidates })
    }

    /// Tries candidate `pick`: places it if its aligned position fits,
    /// closing every open door it connects to, and returns its room;
    /// otherwise removes it from the candidates (swapping the last one into
    /// its place) and returns `None`, leaving the layout as it was.
    pub fn try_candidate(&mut self, layout: &mut Layout, catalog: &Catalog, pick: usize) -> (r:
        Option<RoomId>)
        requires
            pick < old(self).candidates@.len(),
            old(layout).wf(),
            old(layout).rects_fit(catalog),
            catalog.wf(),
            old(layout).placements_spec().len() < u32::MAX,
            catalog.room(old(self).candidates@[pick as int].0) matches Some(def) ==> old(layout).slots().len() + def.doors@.len() <= u32::MAX,
        ensures
            final(layout).wf(),
            old(layout).matches(catalog) ==> final(layout).matches(catalog),
            tried(*old(self), *final(self), *old(layout), *final(layout), catalog, pick as int, r),
            old(self).cands_ok(catalog) ==> final(self).cands_ok(catalog),
            r is None && old(self).valid_for(old(layout), catalog) ==> final(self).valid_for(
                final(layout),
                catalog,
            ),
            r is Some && old(self).valid_for(old(layout), catalog) && old(self).cands_ok(catalog)
                ==> !final(layout).open_map().contains_key(old(self).door_id),
            r is Some && old(self).valid_for(old(layout), catalog) && old(self).cands_ok(catalog)
                ==> forall|oid: OpenDoorId|
                #[trigger] final(layout).open_map().contains_key(oid) ==> final(layout).open_map()[oid]
                    != (OpenDoor {
                    placement: PlacementId(old(layout).placements_spec().len() as u32),
                    door: old(self).candidates@[pick as int].1,
                }),
            r is Some && old(layout).matches(catalog) && old(layout).disjoint() && old(layout).all_non_empty() && final(layout).all_non_empty() ==> final(layout).disjoint(),
    {
        let (room, cand_door) = self.candidates[pick];
        let ghost old_layout = *layout;
        let ghost old_self = *self;
        let placed = match candidate_origin(catalog, room, cand_door, self.pos, self.dir) {
            Some(origin) => if fits(layout, catalog, room, origin) {
                let closes = satisfied_doors(layout, catalog, room, origin);
                let ghost def = catalog.room(room).unwrap();
                let connected = match catalog.get(room) {
                    Some(d) => connected_doors(layout, catalog, d, origin),
                    None => Vec::new(),
                };
                let r = layout.commit_connected(catalog, room, origin, closes.as_slice(), connected.as_slice());
                proof {
                    let o = origin;
                    let n = def.doors@.len();
                    let pid = PlacementId(old_layout.placements_spec().len() as u32);
                    let conn = connected_indices(&old_layout, catalog, def, o, n);
                    let kept = kept_doors(n, conn);
                    assert(connected@ == conn);
                    lemma_connected_indices(&old_layout, catalog, def, o, n);
                    lemma_kept_doors(n, conn);
                    if n <= 256 {
                        assert forall|k: int|
                            0 <= k < n implies ((exists|oid: OpenDoorId|
                            layout.open_map().contains_key(oid) && #[trigger] layout.open_map()[oid] == (
                            OpenDoor { placement: pid, door: k as u8 })) <==> !meets_open(
                            &old_layout,
                            catalog,
                            def,
                            o,
                            k,
                        )) by {
                            let x = k as u8;
                            assert(door_index(k) == x);
                            assert(kept.contains(x) <==> (exists|oid: OpenDoorId|
                                layout.open_map().contains_key(oid) && #[trigger] layout.open_map()[oid]
                                    == (OpenDoor { placement: pid, door: x })));
                            if conn.contains(x) {
                                let k2 = choose|k2: int|
                                    0 <= k2 < n && meets_open(&old_layout, catalog, def, o, k2)
                                        && door_index(k2) == x;
                                assert(k2 == k);
                            }
                        }
                    }
                    assert(final(layout).sizes() == old_layout.sizes().push(def.size));
                    assert forall|i: int|
                        old_layout.matches(catalog) && 0 <= i < layout.placements_spec().len() implies ((#[trigger] catalog.room(
                        layout.placements_spec()[i].room,
                    )) matches Some(d) && d.size == layout.sizes()[i]) by {
                        if i < old_layout.placements_spec().len() {
                            assert(layout.placements_spec()[i] == old_layout.placements_spec()[i]);
                        }
                    }
                    let rect = TileRect { min: o, size: def.size };
                    assert(layout.rect_of(old_layout.placements_spec().len() as int) == rect);
                    assert forall|i: int|
                        0 <= i < old_layout.placements_spec().len() implies #[trigger] layout.rect_of(i)
                        == old_layout.rect_of(i) by {
                        assert(layout.placements_spec()[i] == old_layout.placements_spec()[i]);
                    }
                    if old_layout.matches(catalog) && old_layout.disjoint() && old_layout.all_non_empty()
                        && layout.all_non_empty() {
                        let n = old_layout.placements_spec().len() as int;
                        assert(rect.non_empty()) by {
                            assert(layout.rect_of(n).non_empty());
                        }
                        assert forall|i: int, j: int|
                            0 <= i < j < layout.placements_spec().len() implies !super::geom::overlaps_spec(
                            #[trigger] layout.rect_of(i),
                            #[trigger] layout.rect_of(j),
                        ) by {
                            if j == n {
                                assert(old_layout.rect_of(i).non_empty());
                                assert(!overlaps_spec(rect, old_layout.rect_of(i)));
                                super::geom::lemma_overlaps_symmetric(rect, old_layout.rect_of(i));
                            } else {
                                assert(!overlaps_spec(old_layout.rect_of(i), old_layout.rect_of(j)));
                            }
                        }
                    }
                    if old_self.valid_for(&old_layout, catalog) && old_self.cands_ok(catalog) {
                        let c = old_self.candidates@[pick as int];
                        assert(candidate_ok(catalog, c, opposite_spec(old_self.dir), old_self.width));
                        let d = def.doors@[cand_door as int];
                        let target = checked_plus_spec(old_self.pos, step_spec(old_self.dir)).unwrap();
                        assert(checked_plus_spec(o, d.local_pos) == Some(target));
                        lemma_step_opposite(old_self.dir);
                        assert(door_beyond(o, d) == Some(old_self.pos));
                        assert(satisfies(&old_layout, catalog, def, o, old_self.door)) by {
                            assert(door_beyond(o, def.doors@[cand_door as int]) == Some(old_self.pos));
                        }
                        assert(closes@.contains(old_self.door_id));
                        assert(door_meets(&old_layout, catalog, d, o, old_layout.open_map()[old_self.door_id]));
                        assert(meets_open(&old_layout, catalog, def, o, cand_door as int));
                        assert(door_index(cand_door as int) == cand_door);
                        assert(conn.contains(cand_door));
                        assert(!kept.contains(cand_door));
                    }
                }
                r
            } else {
                None
            },
            None => None,
        };
        if placed.is_some() {
            return Some(room);
        }
        self.candidates.swap_remove(pick);
        proof {
            assert forall|k: int|
                0 <= k < self.candidates@.len() && old_self.cands_ok(catalog) implies candidate_ok(
                catalog,
                #[trigger] self.candidates@[k],
                opposite_spec(self.dir),
                self.width,
            ) by {
                if k == pick {
                    assert(self.candidates@[k] == old_self.candidates@[old_self.candidates@.len() - 1]);
                } else {
                    assert(self.candidates@[k] == old_self.candidates@[k]);
                }
            }
        }
        None
    }
}


/// The doors of one room that could fill a door facing `dir` with width
/// `width`: each such door among the first `n`, once, in door order.
proof fn lemma_room_candidates_members(def: RoomDef, room: RoomId, dir: Dir, width: u8, n: int)
    requires
        0 <= n <= def.doors@.len(),
    ensures
        forall|x: (RoomId, u8)|
            #[trigger] room_candidates(def, room, dir, width, n).contains(x) <==> x.0 == room && (x.1 as int)
                < n && def.doors@[x.1 as int].dir == dir && def.doors@[x.1 as int].width == width,
        forall|a: int, b: int|
            0 <= a < b < room_candidates(def, room, dir, width, n).len() ==> (#[trigger] room_candidates(
                def,
                room,
                dir,
                width,
                n,
            )[a]).1 < (#[trigger] room_candidates(def, room, dir, width, n)[b]).1,
        forall|a: int|
            0 <= a < room_candidates(def, room, dir, width, n).len() ==> (#[trigger] room_candidates(
                def,
                room,
                dir,
                width,
                n,
            )[a]).0 == room && (room_candidates(def, room, dir, width, n)[a].1 as int) < n,
    decreases n,
{
    if n > 0 {
        lemma_room_candidates_members(def, room, dir, width, n - 1);
        let p = room_candidates(def, room, dir, width, n - 1);
        let c = room_candidates(def, room, dir, width, n);
        let hit = def.doors@[n - 1].dir == dir && def.doors@[n - 1].width == width && n - 1 <= 255;
        if hit {
            assert(c == p + seq![(room, (n - 1) as u8)]);
        } else {
            assert(c == p + Seq::<(RoomId, u8)>::empty());
            assert(c =~= p);
        }
        assert forall|x: (RoomId, u8)| #[trigger] c.contains(x) <==> x.0 == room && (x.1 as int) < n
            && def.doors@[x.1 as int].dir == dir && def.doors@[x.1 as int].width == width by {
            if c.contains(x) {
                let i = choose|i: int| 0 <= i < c.len() && c[i] == x;
                if i < p.len() {
                    assert(p[i] == x);
                    assert(p.contains(x));
                }
            }
            if x.0 == room && (x.1 as int) < n && def.doors@[x.1 as int].dir == dir
                && def.doors@[x.1 as int].width == width {
                if (x.1 as int) < n - 1 {
                    assert(p.contains(x));
                    let i = choose|i: int| 0 <= i < p.len() && p[i] == x;
                    assert(c[i] == x);
                } else {
                    assert(c[p.len() as int] == x);
                }
            }
        }
        assert forall|a: int, b: int| 0 <= a < b < c.len() implies (#[trigger] c[a]).1 < (#[trigger] c[b]).1 by {
            if b >= p.len() {
                assert(c[a] == p[a]);
            } else {
                assert(c[a] == p[a] && c[b] == p[b]);
            }
        }
        assert forall|a: int| 0 <= a < c.len() implies (#[trigger] c[a]).0 == room && (c[a].1 as int) < n by {
            if a < p.len() {
                assert(c[a] == p[a]);
            }
        }
    }
}

/// The candidates for a door facing `dir` with width `width` are exactly the
/// catalog's doors facing that way with that width: `(room, i)` for every
/// room and every door index `i` of that room (an index has to fit a `u8`),
/// each once, so that the list is as long as there are such doors.
pub proof fn lemma_candidates_exact(rooms: Seq<RoomDef>, dir: Dir, width: u8, m: int)
    requires
        0 <= m <= rooms.len(),
        rooms.len() <= u32::MAX,
    ensures
        forall|r: int, i: int|
            0 <= r < m && 0 <= i < rooms[r].doors@.len() && i <= 255 && rooms[r].doors@[i].dir == dir
                && #[trigger] rooms[r].doors@[i].width == width ==> candidates_spec(rooms, dir, width, m).contains(
                (RoomId(r as u32), i as u8),
            ),
        forall|x: (RoomId, u8)|
            #[trigger] candidates_spec(rooms, dir, width, m).contains(x) ==> (x.0.0 as int) < m && (x.1 as int)
                < rooms[x.0.0 as int].doors@.len() && rooms[x.0.0 as int].doors@[x.1 as int].dir == dir
                && rooms[x.0.0 as int].doors@[x.1 as int].width == width,
        candidates_spec(rooms, dir, width, m).no_duplicates(),
    decreases m,
{
    if m > 0 {
        lemma_candidates_exact(rooms, dir, width, m - 1);
        let r0 = m - 1;
        let def = rooms[r0];
        let room = RoomId(r0 as u32);
        let n = def.doors@.len() as int;
        lemma_room_candidates_members(def, room, dir, width, n);
        let p = candidates_spec(rooms, dir, width, m - 1);
        let rc = room_candidates(def, room, dir, width, n);
        let c = candidates_spec(rooms, dir, width, m);
        assert(c == p + rc);
        assert forall|r: int, i: int|
            0 <= r < m && 0 <= i < rooms[r].doors@.len() && i <= 255 && rooms[r].doors@[i].dir == dir
                && #[trigger] rooms[r].doors@[i].width == width implies c.contains((RoomId(r as u32), i as u8)) by {
            let x = (RoomId(r as u32), i as u8);
            if r < m - 1 {
                assert(p.contains(x));
                let k = choose|k: int| 0 <= k < p.len() && p[k] == x;
                assert(c[k] == x);
            } else {
                assert(x.1 as int == i);
                assert(rc.contains(x));
                let k = choose|k: int| 0 <= k < rc.len() && rc[k] == x;
                assert(c[p.len() + k] == x);
            }
        }
        assert forall|x: (RoomId, u8)| #[trigger] c.contains(x) implies (x.0.0 as int) < m && (x.1 as int)
            < rooms[x.0.0 as int].doors@.len() && rooms[x.0.0 as int].doors@[x.1 as int].dir == dir
            && rooms[x.0.0 as int].doors@[x.1 as int].width == width by {
            let k = choose|k: int| 0 <= k < c.len() && c[k] == x;
            if k < p.len() {
                assert(p[k] == x);
                assert(p.contains(x));
            } else {
                assert(rc[k - p.len()] == x);
                assert(rc.contains(x));
            }
        }
        assert forall|a: int, b: int| 0 <= a < b < c.len() implies c[a] != c[b] by {
            if b < p.len() {
                assert(c[a] == p[a] && c[b] == p[b]);
            } else if a >= p.len() {
                assert(c[a] == rc[a - p.len()] && c[b] == rc[b - p.len()]);
                assert(rc[a - p.len()].1 < rc[b - p.len()].1);
            } else {
                assert(c[a] == p[a]);
                assert(p.contains(p[a]));
                assert((p[a].0.0 as int) < m - 1);
                assert(c[b] == rc[b - p.len()]);
                assert(rc[b - p.len()].0 == room);
            }
        }
    }
}

/// The tile one step out from door `d` of a room placed at `origin`, in the
/// direction the door faces (y up).
pub open spec fn outward_tile(origin: TilePos, d: DoorDef) -> (int, int) {
    let x = origin.x + d.local_pos.x;
    let y = origin.y + d.local_pos.y;
    match d.dir {
        Dir::N => (x, y + 1),
        Dir::S => (x, y - 1),
        Dir::E => (x + 1, y),
        Dir::W => (x - 1, y),
    }
}

/// Some open door of `layout` sits on `tile` and faces the way opposite to `dir`.
pub open spec fn open_door_facing(layout: &Layout, catalog: &Catalog, tile: (int, int), dir: Dir) -> bool {
    exists|oid: OpenDoorId|
        {
            &&& layout.open_map().contains_key(oid)
            &&& (#[trigger] open_door_pos_spec(layout, catalog, layout.open_map()[oid])) matches Some(p)
            &&& p.x == tile.0
            &&& p.y == tile.1
            &&& dir == opposite_spec(open_dir(layout, catalog, layout.open_map()[oid]))
        }
}

/// A door meets an open door exactly when the tile one step out from it
/// holds an open door facing the other way (for a door whose own tile is a
/// representable position).
pub proof fn lemma_meets_open_is_facing_neighbour(
    layout: &Layout,
    catalog: &Catalog,
    cand: RoomDef,
    origin: TilePos,
    k: int,
)
    requires
        0 <= k < cand.doors@.len(),
    ensures
        meets_open(layout, catalog, cand, origin, k) ==> open_door_facing(
            layout,
            catalog,
            outward_tile(origin, cand.doors@[k]),
            cand.doors@[k].dir,
        ),
        fits_i32(origin.x + cand.doors@[k].local_pos.x) && fits_i32(origin.y + cand.doors@[k].local_pos.y)
            && open_door_facing(layout, catalog, outward_tile(origin, cand.doors@[k]), cand.doors@[k].dir)
            ==> meets_open(layout, catalog, cand, origin, k),
{
    let d = cand.doors@[k];
    let t = outward_tile(origin, d);
    if meets_open(layout, catalog, cand, origin, k) {
        let oid = choose|oid: OpenDoorId|
            layout.open_map().contains_key(oid) && #[trigger] door_meets(
                layout,
                catalog,
                cand.doors@[k],
                origin,
                layout.open_map()[oid],
            );
        assert(open_door_pos_spec(layout, catalog, layout.open_map()[oid]) is Some);
    }
    if fits_i32(origin.x + d.local_pos.x) && fits_i32(origin.y + d.local_pos.y) && open_door_facing(
        layout,
        catalog,
        t,
        d.dir,
    ) {
        let oid = choose|oid: OpenDoorId|
            {
                &&& layout.open_map().contains_key(oid)
                &&& (#[trigger] open_door_pos_spec(layout, catalog, layout.open_map()[oid])) matches Some(p)
                &&& p.x == t.0
                &&& p.y == t.1
                &&& d.dir == opposite_spec(open_dir(layout, catalog, layout.open_map()[oid]))
            };
        assert(door_meets(layout, catalog, d, origin, layout.open_map()[oid]));
    }
}

/// After a try that places its candidate, a door of the placed room is left
/// closed only if the tile one step out from it holds a door that was open,
/// facing the other way: a door with no such neighbour is open.
pub proof fn lemma_placed_doors_open_unless_met(
    old_a: DoorAttempt,
    new_a: DoorAttempt,
    old_l: Layout,
    new_l: Layout,
    catalog: &Catalog,
    pick: int,
    r: Option<RoomId>,
    k: int,
)
    requires
        0 <= pick < old_a.candidates@.len(),
        tried(old_a, new_a, old_l, new_l, catalog, pick, r),
        r is Some,
        catalog.room(old_a.candidates@[pick].0) matches Some(def) && def.doors@.len() <= 256 && 0 <= k
            < def.doors@.len(),
    ensures
        ({
            let c = old_a.candidates@[pick];
            let def = catalog.room(c.0).unwrap();
            let o = candidate_origin_spec(catalog, c.0, c.1, old_a.pos, old_a.dir).unwrap();
            let placement = PlacementId(old_l.placements_spec().len() as u32);
            &&& (forall|oid: OpenDoorId|
                #[trigger] new_l.open_map().contains_key(oid) ==> new_l.open_map()[oid] != (OpenDoor {
                    placement,
                    door: k as u8,
                })) ==> open_door_facing(&old_l, catalog, outward_tile(o, def.doors@[k]), def.doors@[k].dir)
            &&& fits_i32(o.x + def.doors@[k].local_pos.x) && fits_i32(o.y + def.doors@[k].local_pos.y)
                && open_door_facing(&old_l, catalog, outward_tile(o, def.doors@[k]), def.doors@[k].dir)
                ==> forall|oid: OpenDoorId|
                #[trigger] new_l.open_map().contains_key(oid) ==> new_l.open_map()[oid] != (OpenDoor {
                    placement,
                    door: k as u8,
                })
        }),
{
    let c = old_a.candidates@[pick];
    let def = catalog.room(c.0).unwrap();
    let o = candidate_origin_spec(catalog, c.0, c.1, old_a.pos, old_a.dir).unwrap();
    let placement = PlacementId(old_l.placements_spec().len() as u32);
    assert(candidate_origin_spec(catalog, c.0, c.1, old_a.pos, old_a.dir) is Some);
    assert(fits_spec(&old_l, catalog, c.0, o));
    assert(placed_outcome(old_a, new_a, old_l, new_l, catalog, c.0, o, r));
    if forall|oid: OpenDoorId|
        #[trigger] new_l.open_map().contains_key(oid) ==> new_l.open_map()[oid] != (OpenDoor {
            placement,
            door: k as u8,
        }) {
        assert(!(exists|oid: OpenDoorId|
            new_l.open_map().contains_key(oid) && #[trigger] new_l.open_map()[oid] == (OpenDoor {
                placement,
                door: k as u8,
            })));
        assert(meets_open(&old_l, catalog, def, o, k));
    }
    lemma_meets_open_is_facing_neighbour(&old_l, catalog, def, o, k);
    if fits_i32(o.x + def.doors@[k].local_pos.x) && fits_i32(o.y + def.doors@[k].local_pos.y)
        && open_door_facing(&old_l, catalog, outward_tile(o, def.doors@[k]), def.doors@[k].dir) {
        assert(meets_open(&old_l, catalog, def, o, k));
        assert forall|oid: OpenDoorId| #[trigger] new_l.open_map().contains_key(oid) implies new_l.open_map()[oid]
            != (OpenDoor { placement, door: k as u8 }) by {
            if new_l.open_map()[oid] == (OpenDoor { placement, door: k as u8 }) {
                assert(exists|oid: OpenDoorId|
                    new_l.open_map().contains_key(oid) && #[trigger] new_l.open_map()[oid] == (OpenDoor {
                        placement,
                        door: k as u8,
                    }));
            }
        }
    }
}

/// After a try that places its candidate at `o`, a door that was open is
/// closed exactly when one of the placed room's doors sits one tile from it,
/// facing the other way (for doors whose tiles are representable positions);
/// every other door that was open stays open, as it was.
pub proof fn lemma_placed_closes_met_doors(
    old_a: DoorAttempt,
    new_a: DoorAttempt,
    old_l: Layout,
    new_l: Layout,
    catalog: &Catalog,
    pick: int,
    r: Option<RoomId>,
    oid: OpenDoorId,
)
    requires
        0 <= pick < old_a.candidates@.len(),
        tried(old_a, new_a, old_l, new_l, catalog, pick, r),
        r is Some,
        old_l.open_map().contains_key(oid),
    ensures
        ({
            let c = old_a.candidates@[pick];
            let def = catalog.room(c.0).unwrap();
            let o = candidate_origin_spec(catalog, c.0, c.1, old_a.pos, old_a.dir).unwrap();
            let open = old_l.open_map()[oid];
            let faced = exists|k: int|
                0 <= k < def.doors@.len() && (open_door_pos_spec(&old_l, catalog, open) matches Some(p)
                    && p.x == outward_tile(o, #[trigger] def.doors@[k]).0 && p.y == outward_tile(o, def.doors@[k]).1
                    && def.doors@[k].dir == opposite_spec(open_dir(&old_l, catalog, open))
                    && fits_i32(o.x + def.doors@[k].local_pos.x) && fits_i32(o.y + def.doors@[k].local_pos.y));
            &&& faced ==> !new_l.open_map().contains_key(oid)
            &&& !(exists|k: int|
                0 <= k < def.doors@.len() && satisfies_door(&old_l, catalog, def.doors@[k], o, open))
                ==> new_l.open_map().contains_key(oid) && new_l.open_map()[oid] == open
        }),
{
    let c = old_a.candidates@[pick];
    let def = catalog.room(c.0).unwrap();
    let o = candidate_origin_spec(catalog, c.0, c.1, old_a.pos, old_a.dir).unwrap();
    let id = PlacementId(old_l.placements_spec().len() as u32);
    let open = old_l.open_map()[oid];
    assert(candidate_origin_spec(catalog, c.0, c.1, old_a.pos, old_a.dir) is Some);
    assert(fits_spec(&old_l, catalog, c.0, o));
    assert(placed_outcome(old_a, new_a, old_l, new_l, catalog, c.0, o, r));
    let conn = connected_indices(&old_l, catalog, def, o, def.doors@.len());
    let closes = choose|closes: Seq<OpenDoorId>|
        {
            &&& forall|x: OpenDoorId|
                #[trigger] closes.contains(x) <==> old_l.open_map().contains_key(x) && satisfies(
                    &old_l,
                    catalog,
                    def,
                    o,
                    old_l.open_map()[x],
                )
            &&& forall|a: int, b: int|
                0 <= a < b < closes.len() ==> (#[trigger] closes[a]).slot < (#[trigger] closes[b]).slot
            &&& old_l.committed(new_l, catalog, c.0, def, o, closes, conn, Some(id))
        };
    if exists|k: int|
        0 <= k < def.doors@.len() && (open_door_pos_spec(&old_l, catalog, open) matches Some(p)
            && p.x == outward_tile(o, #[trigger] def.doors@[k]).0 && p.y == outward_tile(o, def.doors@[k]).1
            && def.doors@[k].dir == opposite_spec(open_dir(&old_l, catalog, open))
            && fits_i32(o.x + def.doors@[k].local_pos.x) && fits_i32(o.y + def.doors@[k].local_pos.y)) {
        let k = choose|k: int|
            0 <= k < def.doors@.len() && (open_door_pos_spec(&old_l, catalog, open) matches Some(p)
                && p.x == outward_tile(o, #[trigger] def.doors@[k]).0 && p.y == outward_tile(o, def.doors@[k]).1
                && def.doors@[k].dir == opposite_spec(open_dir(&old_l, catalog, open))
                && fits_i32(o.x + def.doors@[k].local_pos.x) && fits_i32(o.y + def.doors@[k].local_pos.y));
        let p = open_door_pos_spec(&old_l, catalog, open).unwrap();
        assert(door_beyond(o, def.doors@[k]) == Some(p));
        assert(satisfies(&old_l, catalog, def, o, open));
        assert(closes.contains(oid));
    }
    if !(exists|k: int| 0 <= k < def.doors@.len() && satisfies_door(&old_l, catalog, def.doors@[k], o, open)) {
        if satisfies(&old_l, catalog, def, o, open) {
            let p = open_door_pos_spec(&old_l, catalog, open).unwrap();
            let k = choose|k: int|
                0 <= k < def.doors@.len() && door_beyond(o, #[trigger] def.doors@[k]) == Some(p)
                    && def.doors@[k].dir == opposite_spec(open_dir(&old_l, catalog, open));
            assert(satisfies_door(&old_l, catalog, def.doors@[k], o, open));
        }
        assert(!closes.contains(oid));
    }
}

/// Door `d` of a room placed at `origin` sits one tile out from open door
/// `open` and faces it: the open door's position is the tile one step out
/// from `d`, and `d` faces the opposite way.
pub open spec fn satisfies_door(layout: &Layout, catalog: &Catalog, d: DoorDef, origin: TilePos, open: OpenDoor) -> bool {
    &&& open_door_pos_spec(layout, catalog, open) matches Some(p)
    &&& p.x == outward_tile(origin, d).0
    &&& p.y == outward_tile(origin, d).1
    &&& d.dir == opposite_spec(open_dir(layout, catalog, open))
}

} // verus!
