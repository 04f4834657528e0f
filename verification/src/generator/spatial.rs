//! `SpatialHash`: a uniform grid of square cells, each holding the values whose
//! rectangles touch it.
//!
//! A cell is named by its coordinates `(cx, cy)`; the cells a rectangle touches
//! are those from `min / cell_size` to `(max - 1) / cell_size` on each axis,
//! with Euclidean (flooring) division, since tile coordinates go negative.
//! The grid is a `HashMap` keyed by the two cell coordinates packed into one
//! `u64`.
use std::collections::HashMap;
use vstd::prelude::*;

use super::geom::{fits_i32, TileRect};

verus! {

broadcast use vstd::std_specs::hash::group_hash_axioms;

/// The hash-map key of cell `(cx, cy)`: `cx`'s bits above `cy`'s.
pub open spec fn key_of(cx: i32, cy: i32) -> u64 {
    ((cx as u32 as u64) << 32u64) | (cy as u32 as u64)
}

/// Distinct cells have distinct keys.
pub proof fn lemma_key_of_injective(a: i32, b: i32, c: i32, d: i32)
    ensures
        key_of(a, b) == key_of(c, d) ==> a == c && b == d,
{
    assert(((a as u32 as u64) << 32u64) | (b as u32 as u64) == ((c as u32 as u64) << 32u64) | (
    d as u32 as u64) ==> a == c && b == d) by (bit_vector);
}

fn cell_key(cx: i32, cy: i32) -> (k: u64)
    ensures
        k == key_of(cx, cy),
{
    ((cx as u32 as u64) << 32u64) | (cy as u32 as u64)
}

/// The cell size read as the signed divisor the cell arithmetic uses.
pub open spec fn divisor(cell_size: u32) -> int {
    (cell_size as i32) as int
}

/// Lowest cell column a rectangle touches.
pub open spec fn lo_x(cell_size: u32, rect: TileRect) -> int {
    (rect.min.x as int) / divisor(cell_size)
}

/// Highest cell column a rectangle touches.
pub open spec fn hi_x(cell_size: u32, rect: TileRect) -> int {
    (rect.max_x() - 1) / divisor(cell_size)
}

/// Lowest cell row a rectangle touches.
pub open spec fn lo_y(cell_size: u32, rect: TileRect) -> int {
    (rect.min.y as int) / divisor(cell_size)
}

/// Highest cell row a rectangle touches.
pub open spec fn hi_y(cell_size: u32, rect: TileRect) -> int {
    (rect.max_y() - 1) / divisor(cell_size)
}

/// Whether the cells `rect` touches can be computed without a division by
/// zero or an `i32` overflow.
pub open spec fn cells_computable(cell_size: u32, rect: TileRect) -> bool {
    &&& divisor(cell_size) != 0
    &&& rect.max_fits()
    &&& rect.max_x() > i32::MIN
    &&& rect.max_y() > i32::MIN
    &&& fits_i32(lo_x(cell_size, rect))
    &&& fits_i32(hi_x(cell_size, rect))
    &&& fits_i32(lo_y(cell_size, rect))
    &&& fits_i32(hi_y(cell_size, rect))
}

/// Whether cell `(cx, cy)` is one that `rect` touches.
pub open spec fn in_cells(cell_size: u32, rect: TileRect, cx: int, cy: int) -> bool {
    &&& lo_x(cell_size, rect) <= cx <= hi_x(cell_size, rect)
    &&& lo_y(cell_size, rect) <= cy <= hi_y(cell_size, rect)
}

/// Rectangles `a` and `b` touch a common cell.
pub open spec fn shares_cell(cell_size: u32, a: TileRect, b: TileRect) -> bool {
    exists|cx: int, cy: int| #[trigger] in_cells(cell_size, a, cx, cy) && in_cells(cell_size, b, cx, cy)
}

/// `s` with every repeated element after its first occurrence removed.
pub open spec fn dedup<T>(s: Seq<T>) -> Seq<T>
    decreases s.len(),
{
    if s.len() == 0 {
        s
    } else {
        let d = dedup(s.drop_last());
        if d.contains(s.last()) {
            d
        } else {
            d.push(s.last())
        }
    }
}

/// `dedup` keeps exactly the elements of its input, once each.
pub proof fn lemma_dedup<T>(s: Seq<T>)
    ensures
        forall|x: T|
            #![trigger dedup(s).contains(x)]
            #![trigger s.contains(x)]
            dedup(s).contains(x) <==> s.contains(x),
        dedup(s).no_duplicates(),
    decreases s.len(),
{
    if s.len() > 0 {
        lemma_dedup(s.drop_last());
        let d = dedup(s.drop_last());
        let t = s.drop_last();
        assert forall|x: T| dedup(s).contains(x) <==> s.contains(x) by {
            if dedup(s).contains(x) {
                let i = choose|i: int| 0 <= i < dedup(s).len() && dedup(s)[i] == x;
                if i < d.len() {
                    assert(d[i] == x);
                    assert(d.contains(x));
                    let k = choose|k: int| 0 <= k < t.len() && t[k] == x;
                    assert(s[k] == x);
                } else {
                    assert(s[s.len() - 1] == x);
                }
            }
            if s.contains(x) {
                let k = choose|k: int| 0 <= k < s.len() && s[k] == x;
                if k < s.len() - 1 {
                    assert(t[k] == x);
                    assert(t.contains(x));
                    let i = choose|i: int| 0 <= i < d.len() && d[i] == x;
                    assert(dedup(s)[i] == x);
                } else {
                    assert(x == s.last());
                    if !d.contains(x) {
                        assert(dedup(s)[d.len() as int] == x);
                    }
                }
            }
        }
    }
}

#[derive(Debug, Clone)]
pub struct SpatialHash<T> {
    cell_size: u32,
    cells: HashMap<u64, Vec<T>>,
}

impl<T> SpatialHash<T> {
    /// The edge length of a cell, in tiles.
    pub closed spec fn cell_size_spec(&self) -> u32 {
        self.cell_size
    }

    /// The values stored in cell `(cx, cy)`, in insertion order.
    pub closed spec fn bucket(&self, cx: int, cy: int) -> Seq<T> {
        let k = key_of(cx as i32, cy as i32);
        if self.cells@.contains_key(k) {
            self.cells@[k]@
        } else {
            Seq::empty()
        }
    }

    /// Cells `lo_x..=hi_x` of row `cy`, concatenated left to right.
    pub open spec fn row_values(&self, cy: int, lo_x: int, hi_x: int) -> Seq<T>
        decreases hi_x - lo_x + 1,
    {
        if hi_x < lo_x {
            Seq::empty()
        } else {
            self.row_values(cy, lo_x, hi_x - 1) + self.bucket(hi_x, cy)
        }
    }

    /// Rows `lo_y..=hi_y` of columns `lo_x..=hi_x`, bottom row first.
    pub open spec fn grid_values(&self, lo_x: int, hi_x: int, lo_y: int, hi_y: int) -> Seq<T>
        decreases hi_y - lo_y + 1,
    {
        if hi_y < lo_y {
            Seq::empty()
        } else {
            self.grid_values(lo_x, hi_x, lo_y, hi_y - 1) + self.row_values(hi_y, lo_x, hi_x)
        }
    }

    /// What `query(rect)` returns: the contents of every cell `rect` touches,
    /// row by row from the lowest, each row left to right, each value kept at
    /// its first occurrence only.
    pub open spec fn query_spec(&self, rect: TileRect) -> Seq<T> {
        let cs = self.cell_size_spec();
        dedup(
            self.grid_values(lo_x(cs, rect), hi_x(cs, rect), lo_y(cs, rect), hi_y(cs, rect)),
        )
    }

    pub fn new(cell_size: u32) -> (r: Self)
        ensures
            r.cell_size_spec() == cell_size,
            forall|cx: int, cy: int| r.bucket(cx, cy) == Seq::<T>::empty(),
    {
        SpatialHash { cell_size, cells: HashMap::new() }
    }

    pub fn cell_size(&self) -> (r: u32)
        ensures
            r == self.cell_size_spec(),
    {
        self.cell_size
    }
}

/// A value in row `cy` between columns `lo_x` and `hi_x` appears in the row's
/// concatenation.
pub proof fn lemma_row_values_contains<T>(h: &SpatialHash<T>, cy: int, lo_x: int, hi_x: int, cx: int, v: T)
    requires
        lo_x <= cx <= hi_x,
        h.bucket(cx, cy).contains(v),
    ensures
        h.row_values(cy, lo_x, hi_x).contains(v),
    decreases hi_x - lo_x + 1,
{
    let prefix = h.row_values(cy, lo_x, hi_x - 1);
    let b = h.bucket(hi_x, cy);
    if cx == hi_x {
        let i = choose|i: int| 0 <= i < b.len() && b[i] == v;
        assert((prefix + b)[prefix.len() + i] == v);
    } else {
        lemma_row_values_contains(h, cy, lo_x, hi_x - 1, cx, v);
        let i = choose|i: int| 0 <= i < prefix.len() && prefix[i] == v;
        assert((prefix + b)[i] == v);
    }
}

/// A value in a cell of the range appears in the range's concatenation.
pub proof fn lemma_grid_values_contains<T>(
    h: &SpatialHash<T>,
    lo_x: int,
    hi_x: int,
    lo_y: int,
    hi_y: int,
    cx: int,
    cy: int,
    v: T,
)
    requires
        lo_x <= cx <= hi_x,
        lo_y <= cy <= hi_y,
        h.bucket(cx, cy).contains(v),
    ensures
        h.grid_values(lo_x, hi_x, lo_y, hi_y).contains(v),
    decreases hi_y - lo_y + 1,
{
    let prefix = h.grid_values(lo_x, hi_x, lo_y, hi_y - 1);
    let row = h.row_values(hi_y, lo_x, hi_x);
    if cy == hi_y {
        lemma_row_values_contains(h, cy, lo_x, hi_x, cx, v);
        let i = choose|i: int| 0 <= i < row.len() && row[i] == v;
        assert((prefix + row)[prefix.len() + i] == v);
    } else {
        lemma_grid_values_contains(h, lo_x, hi_x, lo_y, hi_y - 1, cx, cy, v);
        let i = choose|i: int| 0 <= i < prefix.len() && prefix[i] == v;
        assert((prefix + row)[i] == v);
    }
}

/// Every value of the row's concatenation lies in one of the row's cells.
pub proof fn lemma_row_values_from_cell<T>(h: &SpatialHash<T>, cy: int, lo_x: int, hi_x: int, v: T)
    requires
        h.row_values(cy, lo_x, hi_x).contains(v),
    ensures
        exists|cx: int| lo_x <= cx <= hi_x && #[trigger] h.bucket(cx, cy).contains(v),
    decreases hi_x - lo_x + 1,
{
    if hi_x >= lo_x {
        let prefix = h.row_values(cy, lo_x, hi_x - 1);
        let b = h.bucket(hi_x, cy);
        let i = choose|i: int| 0 <= i < (prefix + b).len() && (prefix + b)[i] == v;
        if i < prefix.len() {
            assert(prefix[i] == v);
            lemma_row_values_from_cell(h, cy, lo_x, hi_x - 1, v);
        } else {
            assert(b[i - prefix.len()] == v);
            assert(h.bucket(hi_x, cy).contains(v));
        }
    }
}

/// Every value of the range's concatenation lies in one of the range's cells.
pub proof fn lemma_grid_values_from_cell<T>(
    h: &SpatialHash<T>,
    lo_x: int,
    hi_x: int,
    lo_y: int,
    hi_y: int,
    v: T,
)
    requires
        h.grid_values(lo_x, hi_x, lo_y, hi_y).contains(v),
    ensures
        exists|cx: int, cy: int|
            lo_x <= cx <= hi_x && lo_y <= cy <= hi_y && #[trigger] h.bucket(cx, cy).contains(v),
    decreases hi_y - lo_y + 1,
{
    if hi_y >= lo_y {
        let prefix = h.grid_values(lo_x, hi_x, lo_y, hi_y - 1);
        let row = h.row_values(hi_y, lo_x, hi_x);
        let i = choose|i: int| 0 <= i < (prefix + row).len() && (prefix + row)[i] == v;
        if i < prefix.len() {
            assert(prefix[i] == v);
            lemma_grid_values_from_cell(h, lo_x, hi_x, lo_y, hi_y - 1, v);
        } else {
            assert(row[i - prefix.len()] == v);
            lemma_row_values_from_cell(h, hi_y, lo_x, hi_x, v);
        }
    }
}

/// The cells a rectangle touches, as the bounds `(lo_x, hi_x, lo_y, hi_y)` of
/// their columns and rows.
fn cells_touching(cell_size: u32, rect: TileRect) -> (r: (i32, i32, i32, i32))
    requires
        cells_computable(cell_size, rect),
    ensures
        r.0 == lo_x(cell_size, rect),
        r.1 == hi_x(cell_size, rect),
        r.2 == lo_y(cell_size, rect),
        r.3 == hi_y(cell_size, rect),
{
    let size = cell_size as i32;
    let max = rect.max();
    let lx = match rect.min.x.checked_div_euclid(size) {
        Some(v) => v,
        None => 0,
    };
    let hx = match (max.x - 1).checked_div_euclid(size) {
        Some(v) => v,
        None => 0,
    };
    let ly = match rect.min.y.checked_div_euclid(size) {
        Some(v) => v,
        None => 0,
    };
    let hy = match (max.y - 1).checked_div_euclid(size) {
        Some(v) => v,
        None => 0,
    };
    (lx, hx, ly, hy)
}

/// Lexicographic "before": row first, then column.
pub open spec fn cell_before(cx: int, cy: int, at_x: int, at_y: int) -> bool {
    cy < at_y || (cy == at_y && cx < at_x)
}

/// `new` is `old` with `value` added to every cell `rect` touches.
pub open spec fn inserted<T>(old: SpatialHash<T>, new: SpatialHash<T>, rect: TileRect, value: T) -> bool {
    &&& new.cell_size_spec() == old.cell_size_spec()
    &&& forall|cx: int, cy: int|
        #![trigger new.bucket(cx, cy)]
        fits_i32(cx) && fits_i32(cy) ==> new.bucket(cx, cy) == if in_cells(
            old.cell_size_spec(),
            rect,
            cx,
            cy,
        ) {
            old.bucket(cx, cy).push(value)
        } else {
            old.bucket(cx, cy)
        }
}

/// A value inserted for `rect` is returned by every query whose rectangle
/// touches a cell that `rect` touches.
pub proof fn lemma_insert_then_query<T>(
    h0: SpatialHash<T>,
    h1: SpatialHash<T>,
    rect: TileRect,
    value: T,
    q: TileRect,
    cx: int,
    cy: int,
)
    requires
        inserted(h0, h1, rect, value),
        cells_computable(h0.cell_size_spec(), rect),
        cells_computable(h0.cell_size_spec(), q),
        in_cells(h0.cell_size_spec(), rect, cx, cy),
        in_cells(h0.cell_size_spec(), q, cx, cy),
    ensures
        h1.query_spec(q).contains(value),
{
    let cs = h0.cell_size_spec();
    assert(fits_i32(cx) && fits_i32(cy));
    assert(h1.bucket(cx, cy) == h0.bucket(cx, cy).push(value));
    assert(h1.bucket(cx, cy)[h0.bucket(cx, cy).len() as int] == value);
    lemma_grid_values_contains(&h1, lo_x(cs, q), hi_x(cs, q), lo_y(cs, q), hi_y(cs, q), cx, cy, value);
    lemma_dedup(h1.grid_values(lo_x(cs, q), hi_x(cs, q), lo_y(cs, q), hi_y(cs, q)));
}

/// A query never returns a value twice.
pub proof fn lemma_query_no_duplicates<T>(h: SpatialHash<T>, q: TileRect)
    ensures
        h.query_spec(q).no_duplicates(),
{
    let cs = h.cell_size_spec();
    lemma_dedup(h.grid_values(lo_x(cs, q), hi_x(cs, q), lo_y(cs, q), hi_y(cs, q)));
}

/// A query returns a value exactly when the value is in a cell the query
/// rectangle touches.
pub proof fn lemma_query_contains<T>(h: SpatialHash<T>, q: TileRect, v: T)
    ensures
        h.query_spec(q).contains(v) <==> exists|cx: int, cy: int|
            #[trigger] in_cells(h.cell_size_spec(), q, cx, cy) && h.bucket(cx, cy).contains(v),
{
    let cs = h.cell_size_spec();
    let g = h.grid_values(lo_x(cs, q), hi_x(cs, q), lo_y(cs, q), hi_y(cs, q));
    lemma_dedup(g);
    if g.contains(v) {
        lemma_grid_values_from_cell(&h, lo_x(cs, q), hi_x(cs, q), lo_y(cs, q), hi_y(cs, q), v);
        let (cx, cy) = choose|cx: int, cy: int|
            lo_x(cs, q) <= cx <= hi_x(cs, q) && lo_y(cs, q) <= cy <= hi_y(cs, q)
                && #[trigger] h.bucket(cx, cy).contains(v);
        assert(in_cells(cs, q, cx, cy));
    }
    if exists|cx: int, cy: int| #[trigger] in_cells(cs, q, cx, cy) && h.bucket(cx, cy).contains(v) {
        let (cx, cy) = choose|cx: int, cy: int| #[trigger] in_cells(cs, q, cx, cy) && h.bucket(cx, cy).contains(v);
        lemma_grid_values_contains(&h, lo_x(cs, q), hi_x(cs, q), lo_y(cs, q), hi_y(cs, q), cx, cy, v);
    }
}

/// Two overlapping non-empty rectangles touch a common cell.
pub proof fn lemma_overlap_shares_cell(cell_size: u32, a: TileRect, b: TileRect)
    requires
        divisor(cell_size) > 0,
        a.non_empty(),
        b.non_empty(),
        super::geom::overlaps_spec(a, b),
    ensures
        shares_cell(cell_size, a, b),
{
    let s = divisor(cell_size);
    let px = if a.min.x < b.min.x {
        b.min.x as int
    } else {
        a.min.x as int
    };
    let py = if a.min.y < b.min.y {
        b.min.y as int
    } else {
        a.min.y as int
    };
    let cx = px / s;
    let cy = py / s;
    vstd::arithmetic::div_mod::lemma_div_is_ordered(a.min.x as int, px, s);
    vstd::arithmetic::div_mod::lemma_div_is_ordered(b.min.x as int, px, s);
    vstd::arithmetic::div_mod::lemma_div_is_ordered(px, a.max_x() - 1, s);
    vstd::arithmetic::div_mod::lemma_div_is_ordered(px, b.max_x() - 1, s);
    vstd::arithmetic::div_mod::lemma_div_is_ordered(a.min.y as int, py, s);
    vstd::arithmetic::div_mod::lemma_div_is_ordered(b.min.y as int, py, s);
    vstd::arithmetic::div_mod::lemma_div_is_ordered(py, a.max_y() - 1, s);
    vstd::arithmetic::div_mod::lemma_div_is_ordered(py, b.max_y() - 1, s);
    assert(in_cells(cell_size, a, cx, cy));
    assert(in_cells(cell_size, b, cx, cy));
}

/// Inserting only adds: whatever a query returned before, it still returns;
/// afterwards it also returns the inserted value when its rectangle shares
/// a cell with the query's, and nothing else new.
pub proof fn lemma_insert_monotone<T>(h0: SpatialHash<T>, h1: SpatialHash<T>, rect: TileRect, value: T, q: TileRect)
    requires
        inserted(h0, h1, rect, value),
        cells_computable(h0.cell_size_spec(), q),
    ensures
        forall|v: T| #[trigger] h0.query_spec(q).contains(v) ==> h1.query_spec(q).contains(v),
        forall|v: T|
            #[trigger] h1.query_spec(q).contains(v) ==> h0.query_spec(q).contains(v) || v == value,
        shares_cell(h0.cell_size_spec(), rect, q) ==> h1.query_spec(q).contains(value),
{
    let cs = h0.cell_size_spec();
    assert forall|v: T| #[trigger] h0.query_spec(q).contains(v) implies h1.query_spec(q).contains(v) by {
        lemma_query_contains(h0, q, v);
        lemma_query_contains(h1, q, v);
        let (cx, cy) = choose|cx: int, cy: int| #[trigger] in_cells(cs, q, cx, cy) && h0.bucket(cx, cy).contains(v);
        assert(fits_i32(cx) && fits_i32(cy));
        let i = choose|i: int| 0 <= i < h0.bucket(cx, cy).len() && h0.bucket(cx, cy)[i] == v;
        assert(h1.bucket(cx, cy)[i] == v);
        assert(h1.bucket(cx, cy).contains(v));
    }
    assert forall|v: T| #[trigger] h1.query_spec(q).contains(v) implies h0.query_spec(q).contains(v) || v == value by {
        lemma_query_contains(h0, q, v);
        lemma_query_contains(h1, q, v);
        let (cx, cy) = choose|cx: int, cy: int| #[trigger] in_cells(cs, q, cx, cy) && h1.bucket(cx, cy).contains(v);
        assert(fits_i32(cx) && fits_i32(cy));
        let i = choose|i: int| 0 <= i < h1.bucket(cx, cy).len() && h1.bucket(cx, cy)[i] == v;
        if v != value {
            assert(i < h0.bucket(cx, cy).len());
            assert(h0.bucket(cx, cy)[i] == v);
            assert(h0.bucket(cx, cy).contains(v));
        }
    }
    if shares_cell(cs, rect, q) {
        let (cx, cy) = choose|cx: int, cy: int| #[trigger] in_cells(cs, rect, cx, cy) && in_cells(cs, q, cx, cy);
        assert(fits_i32(cx) && fits_i32(cy));
        assert(h1.bucket(cx, cy) == h0.bucket(cx, cy).push(value));
        assert(h1.bucket(cx, cy)[h0.bucket(cx, cy).len() as int] == value);
        lemma_query_contains(h1, q, value);
    }
}

/// The values a sequence of inserts puts in cell `(cx, cy)`, in insertion
/// order.
pub open spec fn cell_values<T>(cell_size: u32, items: Seq<(TileRect, T)>, cx: int, cy: int) -> Seq<T>
    decreases items.len(),
{
    if items.len() == 0 {
        Seq::empty()
    } else {
        let p = cell_values(cell_size, items.drop_last(), cx, cy);
        if in_cells(cell_size, items.last().0, cx, cy) {
            p.push(items.last().1)
        } else {
            p
        }
    }
}

/// `hs[k + 1]` is `hs[k]` after inserting `items[k]`.
pub open spec fn insert_chain<T>(hs: Seq<SpatialHash<T>>, items: Seq<(TileRect, T)>) -> bool {
    &&& hs.len() == items.len() + 1
    &&& forall|k: int| 0 <= k < items.len() ==> inserted(#[trigger] hs[k], hs[k + 1], items[k].0, items[k].1)
}

/// Every cell of an empty hash is empty.
pub open spec fn all_empty<T>(h: SpatialHash<T>) -> bool {
    forall|cx: int, cy: int| #[trigger] h.bucket(cx, cy) == Seq::<T>::empty()
}

/// After a sequence of inserts into an empty hash, each cell holds the values
/// whose rectangles touch it, in insertion order.
pub proof fn lemma_chain_buckets<T>(hs: Seq<SpatialHash<T>>, items: Seq<(TileRect, T)>)
    requires
        insert_chain(hs, items),
        all_empty(hs[0]),
    ensures
        hs.last().cell_size_spec() == hs[0].cell_size_spec(),
        forall|cx: int, cy: int|
            fits_i32(cx) && fits_i32(cy) ==> #[trigger] hs.last().bucket(cx, cy) == cell_values(
                hs[0].cell_size_spec(),
                items,
                cx,
                cy,
            ),
    decreases items.len(),
{
    if items.len() == 0 {
        assert forall|cx: int, cy: int| fits_i32(cx) && fits_i32(cy) implies #[trigger] hs.last().bucket(cx, cy)
            == cell_values(hs[0].cell_size_spec(), items, cx, cy) by {
            assert(hs.last().bucket(cx, cy) == Seq::<T>::empty());
        }
    } else {
        let hp = hs.drop_last();
        let ip = items.drop_last();
        assert forall|k: int| 0 <= k < ip.len() implies inserted(#[trigger] hp[k], hp[k + 1], ip[k].0, ip[k].1) by {
            assert(hp[k] == hs[k] && hp[k + 1] == hs[k + 1] && ip[k] == items[k]);
        }
        lemma_chain_buckets(hp, ip);
        let n = items.len() - 1;
        assert(inserted(hs[n], hs[n + 1], items[n].0, items[n].1));
        assert(hp.last() == hs[n]);
        assert(hs.last() == hs[n + 1]);
    }
}

/// Whether a value occurs in a cell is whether some insert put it there.
pub proof fn lemma_cell_values_contains<T>(cell_size: u32, items: Seq<(TileRect, T)>, cx: int, cy: int, v: T)
    ensures
        cell_values(cell_size, items, cx, cy).contains(v) <==> exists|k: int|
            0 <= k < items.len() && #[trigger] items[k].1 == v && in_cells(cell_size, items[k].0, cx, cy),
    decreases items.len(),
{
    if items.len() > 0 {
        let ip = items.drop_last();
        lemma_cell_values_contains(cell_size, ip, cx, cy, v);
        let p = cell_values(cell_size, ip, cx, cy);
        let c = cell_values(cell_size, items, cx, cy);
        let n = items.len() - 1;
        if c.contains(v) {
            let i = choose|i: int| 0 <= i < c.len() && c[i] == v;
            if i < p.len() {
                assert(p[i] == v);
                assert(p.contains(v));
                let k = choose|k: int|
                    0 <= k < ip.len() && #[trigger] ip[k].1 == v && in_cells(cell_size, ip[k].0, cx, cy);
                assert(items[k] == ip[k]);
            } else {
                assert(items[n].1 == v);
            }
        }
        if exists|k: int| 0 <= k < items.len() && #[trigger] items[k].1 == v && in_cells(cell_size, items[k].0, cx, cy) {
            let k = choose|k: int|
                0 <= k < items.len() && #[trigger] items[k].1 == v && in_cells(cell_size, items[k].0, cx, cy);
            if k < n {
                assert(ip[k] == items[k]);
                assert(p.contains(v));
                let i = choose|i: int| 0 <= i < p.len() && p[i] == v;
                assert(c[i] == v);
            } else {
                assert(c[p.len() as int] == v);
            }
        }
    }
}

/// A query after any sequence of inserts into an empty hash returns, once
/// each, exactly the inserted values whose rectangles share a cell with the
/// query's: nothing never inserted, nothing sharing a cell missed.
pub proof fn lemma_query_after_inserts<T>(hs: Seq<SpatialHash<T>>, items: Seq<(TileRect, T)>, q: TileRect)
    requires
        insert_chain(hs, items),
        all_empty(hs[0]),
        cells_computable(hs[0].cell_size_spec(), q),
    ensures
        hs.last().query_spec(q).no_duplicates(),
        forall|v: T|
            #[trigger] hs.last().query_spec(q).contains(v) <==> exists|k: int|
                0 <= k < items.len() && #[trigger] items[k].1 == v && shares_cell(
                    hs[0].cell_size_spec(),
                    items[k].0,
                    q,
                ),
{
    let cs = hs[0].cell_size_spec();
    let h = hs.last();
    lemma_chain_buckets(hs, items);
    lemma_query_no_duplicates(h, q);
    assert forall|v: T|
        #[trigger] h.query_spec(q).contains(v) <==> exists|k: int|
            0 <= k < items.len() && #[trigger] items[k].1 == v && shares_cell(cs, items[k].0, q) by {
        lemma_query_contains(h, q, v);
        if h.query_spec(q).contains(v) {
            let (cx, cy) = choose|cx: int, cy: int| #[trigger] in_cells(cs, q, cx, cy) && h.bucket(cx, cy).contains(v);
            assert(fits_i32(cx) && fits_i32(cy));
            lemma_cell_values_contains(cs, items, cx, cy, v);
            let k = choose|k: int|
                0 <= k < items.len() && #[trigger] items[k].1 == v && in_cells(cs, items[k].0, cx, cy);
            assert(shares_cell(cs, items[k].0, q));
        }
        if exists|k: int| 0 <= k < items.len() && #[trigger] items[k].1 == v && shares_cell(cs, items[k].0, q) {
            let k = choose|k: int| 0 <= k < items.len() && #[trigger] items[k].1 == v && shares_cell(cs, items[k].0, q);
            let (cx, cy) = choose|cx: int, cy: int| #[trigger] in_cells(cs, items[k].0, cx, cy) && in_cells(cs, q, cx, cy);
            assert(fits_i32(cx) && fits_i32(cy));
            lemma_cell_values_contains(cs, items, cx, cy, v);
            assert(h.bucket(cx, cy).contains(v));
        }
    }
}

/// The broad phase misses nothing: after any sequence of inserts into an
/// empty hash, a query returns every inserted value whose non-empty
/// rectangle overlaps the non-empty query rectangle.
pub proof fn lemma_query_finds_overlapping<T>(
    hs: Seq<SpatialHash<T>>,
    items: Seq<(TileRect, T)>,
    q: TileRect,
    k: int,
)
    requires
        insert_chain(hs, items),
        all_empty(hs[0]),
        1 <= hs[0].cell_size_spec() <= i32::MAX,
        cells_computable(hs[0].cell_size_spec(), q),
        0 <= k < items.len(),
        items[k].0.non_empty(),
        q.non_empty(),
        super::geom::overlaps_spec(items[k].0, q),
    ensures
        hs.last().query_spec(q).contains(items[k].1),
{
    lemma_overlap_shares_cell(hs[0].cell_size_spec(), items[k].0, q);
    lemma_query_after_inserts(hs, items, q);
}

/// Hashes that agree on the cells of a range give the same contents for it.
pub proof fn lemma_same_cells_same_grid<T>(h: SpatialHash<T>, g: SpatialHash<T>, lo_x: int, hi_x: int, lo_y: int, hi_y: int)
    requires
        forall|cx: int, cy: int| lo_x <= cx <= hi_x && lo_y <= cy <= hi_y ==> #[trigger] h.bucket(cx, cy) == g.bucket(cx, cy),
    ensures
        h.grid_values(lo_x, hi_x, lo_y, hi_y) == g.grid_values(lo_x, hi_x, lo_y, hi_y),
    decreases hi_y - lo_y + 1,
{
    if hi_y >= lo_y {
        lemma_same_cells_same_grid(h, g, lo_x, hi_x, lo_y, hi_y - 1);
        lemma_same_cells_same_row(h, g, hi_y, lo_x, hi_x);
    }
}

proof fn lemma_same_cells_same_row<T>(h: SpatialHash<T>, g: SpatialHash<T>, cy: int, lo_x: int, hi_x: int)
    requires
        forall|cx: int| lo_x <= cx <= hi_x ==> #[trigger] h.bucket(cx, cy) == g.bucket(cx, cy),
    ensures
        h.row_values(cy, lo_x, hi_x) == g.row_values(cy, lo_x, hi_x),
    decreases hi_x - lo_x + 1,
{
    if hi_x >= lo_x {
        lemma_same_cells_same_row(h, g, cy, lo_x, hi_x - 1);
    }
}

impl<T: Copy> SpatialHash<T> {
    fn push_into_cell(&mut self, cx: i32, cy: i32, value: T)
        ensures
            final(self).cell_size_spec() == old(self).cell_size_spec(),
            forall|x: int, y: int|
                #![trigger final(self).bucket(x, y)]
                fits_i32(x) && fits_i32(y) ==> final(self).bucket(x, y) == if x == cx && y == cy {
                    old(self).bucket(x, y).push(value)
                } else {
                    old(self).bucket(x, y)
                },
    {
        let k = cell_key(cx, cy);
        let mut values = match self.cells.remove(&k) {
            Some(v) => v,
            None => Vec::new(),
        };
        values.push(value);
        self.cells.insert(k, values);
        proof {
            assert forall|x: int, y: int| fits_i32(x) && fits_i32(y) implies #[trigger] self.bucket(
                x,
                y,
            ) == if x == cx && y == cy {
                old(self).bucket(x, y).push(value)
            } else {
                old(self).bucket(x, y)
            } by {
                lemma_key_of_injective(x as i32, y as i32, cx, cy);
            }
        }
    }

    /// Adds `value` to every cell that `rect` touches.
    pub fn insert(&mut self, rect: TileRect, value: T)
        requires
            cells_computable(old(self).cell_size_spec(), rect),
        ensures
            inserted(*old(self), *final(self), rect, value),
    {
        let ghost cs = self.cell_size;
        let ghost orig = *self;
        let (lx, hx, ly, hy) = cells_touching(self.cell_size, rect);
        if lx > hx || ly > hy {
            return;
        }
        let mut cy = ly;
        loop
            invariant_except_break
                ly <= cy <= hy,
                lx <= hx,
                self.cell_size_spec() == cs,
                forall|x: int, y: int|
                    #![trigger self.bucket(x, y)]
                    fits_i32(x) && fits_i32(y) ==> self.bucket(x, y) == if in_cells(cs, rect, x, y)
                        && y < cy {
                        orig.bucket(x, y).push(value)
                    } else {
                        orig.bucket(x, y)
                    },
            invariant
                cs == orig.cell_size_spec(),
                lx == lo_x(cs, rect),
                hx == hi_x(cs, rect),
                ly == lo_y(cs, rect),
                hy == hi_y(cs, rect),
            ensures
                self.cell_size_spec() == cs,
                forall|x: int, y: int|
                    #![trigger self.bucket(x, y)]
                    fits_i32(x) && fits_i32(y) ==> self.bucket(x, y) == if in_cells(cs, rect, x, y) {
                        orig.bucket(x, y).push(value)
                    } else {
                        orig.bucket(x, y)
                    },
            decreases hy - cy,
        {
            let mut cx = lx;
            loop
                invariant_except_break
                    lx <= cx <= hx,
                    self.cell_size_spec() == cs,
                    forall|x: int, y: int|
                        #![trigger self.bucket(x, y)]
                        fits_i32(x) && fits_i32(y) ==> self.bucket(x, y) == if in_cells(
                            cs,
                            rect,
                            x,
                            y,
                        ) && cell_before(x, y, cx as int, cy as int) {
                            orig.bucket(x, y).push(value)
                        } else {
                            orig.bucket(x, y)
                        },
                invariant
                    ly <= cy <= hy,
                    cs == orig.cell_size_spec(),
                    lx == lo_x(cs, rect),
                    hx == hi_x(cs, rect),
                    ly == lo_y(cs, rect),
                    hy == hi_y(cs, rect),
                ensures
                    self.cell_size_spec() == cs,
                    forall|x: int, y: int|
                        #![trigger self.bucket(x, y)]
                        fits_i32(x) && fits_i32(y) ==> self.bucket(x, y) == if in_cells(
                            cs,
                            rect,
                            x,
                            y,
                        ) && y <= cy {
                            orig.bucket(x, y).push(value)
                        } else {
                            orig.bucket(x, y)
                        },
                decreases hx - cx,
            {
                self.push_into_cell(cx, cy, value);
                if cx == hx {
                    break ;
                }
                cx = cx + 1;
            }
            if cy == hy {
                break ;
            }
            cy = cy + 1;
        }
    }
}

fn vec_contains<T: Copy + PartialEq>(v: &Vec<T>, x: T) -> (r: bool)
    requires
        vstd::laws_eq::obeys_concrete_eq::<T>(),
    ensures
        r == v@.contains(x),
{
    proof {
        reveal(vstd::laws_eq::obeys_concrete_eq);
    }
    let mut i: usize = 0;
    while i < v.len()
        invariant
            vstd::laws_eq::obeys_concrete_eq::<T>(),
            i <= v.len(),
            forall|j: int| 0 <= j < i ==> v@[j] != x,
        decreases v.len() - i,
    {
        proof {
            reveal(vstd::laws_eq::obeys_concrete_eq);
        }
        if v[i] == x {
            assert(v@[i as int] == x);
            return true;
        }
        i = i + 1;
    }
    false
}

impl<T: Copy + PartialEq> SpatialHash<T> {
    /// Every value in a cell that `rect` touches, once each, in cell order.
    pub fn query(&self, rect: TileRect) -> (r: Vec<T>)
        requires
            cells_computable(self.cell_size_spec(), rect),
            vstd::laws_eq::obeys_concrete_eq::<T>(),
        ensures
            r@ == self.query_spec(rect),
    {
        let ghost cs = self.cell_size_spec();
        let (lx, hx, ly, hy) = cells_touching(self.cell_size, rect);
        let mut out: Vec<T> = Vec::new();
        if lx > hx || ly > hy {
            proof {
                assert(self.grid_values(lx as int, hx as int, ly as int, hy as int) =~= Seq::empty())
                    by {
                    if lx > hx && ly <= hy {
                        self.lemma_grid_empty_row(lx as int, hx as int, ly as int, hy as int);
                    }
                }
            }
            return out;
        }
        let ghost mut seen: Seq<T> = Seq::empty();
        let mut cy = ly;
        loop
            invariant_except_break
                ly <= cy <= hy,
                seen == self.grid_values(lx as int, hx as int, ly as int, cy - 1),
            invariant
                lx <= hx,
                cs == self.cell_size_spec(),
                vstd::laws_eq::obeys_concrete_eq::<T>(),
                lx == lo_x(cs, rect),
                hx == hi_x(cs, rect),
                ly == lo_y(cs, rect),
                hy == hi_y(cs, rect),
                out@ == dedup(seen),
            ensures
                seen == self.grid_values(lx as int, hx as int, ly as int, hy as int),
            decreases hy - cy,
        {
            let mut cx = lx;
            loop
                invariant_except_break
                    lx <= cx <= hx,
                    seen == self.grid_values(lx as int, hx as int, ly as int, cy - 1)
                        + self.row_values(cy as int, lx as int, cx - 1),
                invariant
                    ly <= cy <= hy,
                    lx <= hx,
                    cs == self.cell_size_spec(),
                    vstd::laws_eq::obeys_concrete_eq::<T>(),
                    lx == lo_x(cs, rect),
                    hx == hi_x(cs, rect),
                    ly == lo_y(cs, rect),
                    hy == hi_y(cs, rect),
                    out@ == dedup(seen),
                ensures
                    seen == self.grid_values(lx as int, hx as int, ly as int, cy as int),
                decreases hx - cx,
            {
                let k = cell_key(cx, cy);
                let ghost before = seen;
                match self.cells.get(&k) {
                    Some(values) => {
                        assert(values@ == self.bucket(cx as int, cy as int));
                        let mut j: usize = 0;
                        while j < values.len()
                            invariant
                                j <= values.len(),
                                seen == before + values@.subrange(0, j as int),
                                out@ == dedup(seen),
                                vstd::laws_eq::obeys_concrete_eq::<T>(),
                            decreases values.len() - j,
                        {
                            let v = values[j];
                            proof {
                                assert(seen.push(v).drop_last() =~= seen);
                                assert(values@.subrange(0, j + 1) =~= values@.subrange(
                                    0,
                                    j as int,
                                ).push(v));
                                seen = seen.push(v);
                            }
                            if !vec_contains(&out, v) {
                                out.push(v);
                            }
                            assert(seen =~= before + values@.subrange(0, j + 1));
                            j = j + 1;
                        }
                        assert(values@.subrange(0, values@.len() as int) =~= values@);
                    },
                    None => {
                        assert(self.bucket(cx as int, cy as int) =~= Seq::empty());
                        assert(seen =~= before + self.bucket(cx as int, cy as int));
                    },
                }
                assert(seen =~= self.grid_values(lx as int, hx as int, ly as int, cy - 1)
                    + self.row_values(cy as int, lx as int, cx as int));
                if cx == hx {
                    break ;
                }
                cx = cx + 1;
            }
            if cy == hy {
                break ;
            }
            cy = cy + 1;
        }
        out
    }
}

impl<T> SpatialHash<T> {
    proof fn lemma_grid_empty_row(&self, lo_x: int, hi_x: int, lo_y: int, hi_y: int)
        requires
            hi_x < lo_x,
        ensures
            self.grid_values(lo_x, hi_x, lo_y, hi_y) =~= Seq::<T>::empty(),
        decreases hi_y - lo_y + 1,
    {
        if hi_y >= lo_y {
            self.lemma_grid_empty_row(lo_x, hi_x, lo_y, hi_y - 1);
        }
    }
}


/// Whether the cells of `rect` can be computed for cells of `cell_size`.
pub fn cells_computable_check(cell_size: u32, rect: TileRect) -> (r: bool)
    ensures
        r == cells_computable(cell_size, rect),
{
    let size = cell_size as i32;
    if size == 0 {
        return false;
    }
    let max = match rect.checked_max() {
        Some(m) => m,
        None => {
            return false;
        },
    };
    if max.x == i32::MIN || max.y == i32::MIN {
        return false;
    }
    rect.min.x.checked_div_euclid(size).is_some() && (max.x - 1).checked_div_euclid(size).is_some()
        && rect.min.y.checked_div_euclid(size).is_some() && (max.y - 1).checked_div_euclid(
        size,
    ).is_some()
}

} // verus!
