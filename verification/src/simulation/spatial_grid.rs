//! Finding vehicles by where they are.

use std::collections::HashMap;

use vstd::prelude::*;
use vstd::std_specs::iter::IteratorSpec;

use crate::units::{between, floor_div};

verus! {

/// Vehicles by the cell of a grid that they are in; places and cell size in billionths of a degree.
pub struct SpatialGrid {
    pub cell_size: i64,
    pub cells: HashMap<u64, Vec<u32>>,
}

/// The number of a row or column, kept in the range of 32 bits. With cells of no size all places but
/// the origin lie at the ends of that range.
pub open spec fn cell_line(x: int, size: int) -> int {
    if size > 0 {
        between(x / size, i32::MIN as int, i32::MAX as int)
    } else if size < 0 {
        between((-x) / (-size), i32::MIN as int, i32::MAX as int)
    } else if x > 0 {
        i32::MAX as int
    } else if x < 0 {
        i32::MIN as int
    } else {
        0
    }
}

/// The number of a cell.
pub open spec fn cell_key(y: int, x: int) -> u64 {
    ((y + 0x8000_0000) * 0x1_0000_0000 + (x + 0x8000_0000)) as u64
}

/// Whether a row or column has a number.
pub open spec fn in_grid(y: int) -> bool {
    i32::MIN <= y <= i32::MAX
}

fn line_of(x: i64, size: i64) -> (r: i32)
    ensures
        r == cell_line(x as int, size as int),
{
    if size == 0 {
        return if x > 0 {
            i32::MAX
        } else if x < 0 {
            i32::MIN
        } else {
            0
        };
    }
    let q: i128 = if size > 0 {
        floor_div(x as i128, size as i128)
    } else {
        floor_div(-(x as i128), -(size as i128))
    };
    if q < i32::MIN as i128 {
        i32::MIN
    } else if q > i32::MAX as i128 {
        i32::MAX
    } else {
        q as i32
    }
}

fn key_of(y: i32, x: i32) -> (r: u64)
    ensures
        r == cell_key(y as int, x as int),
{
    let row: i64 = y as i64 + 0x8000_0000;
    let column: i64 = x as i64 + 0x8000_0000;
    row as u64 * 0x1_0000_0000 + column as u64
}

proof fn lemma_keys_differ(y: int, x: int, b: int, a: int)
    requires
        in_grid(y),
        in_grid(x),
        in_grid(b),
        in_grid(a),
        cell_key(y, x) == cell_key(b, a),
    ensures
        y == b && x == a,
{
}

impl SpatialGrid {
    /// The vehicles in a cell, in the order in which they were added.
    pub open spec fn in_cell(&self, y: int, x: int) -> Seq<u32> {
        if self.cells@.contains_key(cell_key(y, x)) {
            self.cells@[cell_key(y, x)]@
        } else {
            Seq::empty()
        }
    }

    /// The row and the column of a place.
    pub open spec fn cell_at(&self, lat: int, lng: int) -> (int, int) {
        (cell_line(lat, self.cell_size as int), cell_line(lng, self.cell_size as int))
    }

    /// A grid without vehicles.
    pub fn new(cell_size: i64) -> (r: SpatialGrid)
        ensures
            r.cell_size == cell_size,
            forall|y: int, x: int| #[trigger] r.in_cell(y, x) == Seq::<u32>::empty(),
    {
        broadcast use vstd::std_specs::hash::group_hash_axioms;

        SpatialGrid { cell_size, cells: HashMap::new() }
    }

    fn cell_of(&self, lat: i64, lng: i64) -> (r: (i32, i32))
        ensures
            (r.0 as int, r.1 as int) == self.cell_at(lat as int, lng as int),
    {
        (line_of(lat, self.cell_size), line_of(lng, self.cell_size))
    }

    /// Takes all vehicles out of the grid; its cells stay.
    pub fn clear(&mut self)
        ensures
            final(self).cell_size == old(self).cell_size,
            final(self).cells@.dom() == old(self).cells@.dom(),
            forall|k: u64| #[trigger]
                final(self).cells@.contains_key(k) ==> final(self).cells@[k]@.len() == 0,
            forall|y: int, x: int| #[trigger] final(self).in_cell(y, x) == Seq::<u32>::empty(),
    {
        broadcast use vstd::std_specs::hash::group_hash_axioms;

        let ghost all = self.cells@.dom();
        let ghost walk = self.cells.keys().remaining().unref();
        let mut keys: Vec<u64> = Vec::new();
        for k in it: self.cells.keys()
            invariant
                it.seq().unref() == walk,
                keys@ == walk.take(it.index() as int),
        {
            keys.push(*k);
            assert(keys@ =~= walk.take(it.index() + 1));
        }
        assert(walk.take(walk.len() as int) =~= walk);
        assert(keys@.to_set() == all);
        let mut i: usize = 0;
        while i < keys.len()
            invariant
                i <= keys@.len(),
                self.cell_size == old(self).cell_size,
                keys@.to_set() == all,
                self.cells@.dom() == all,
                forall|j: int| 0 <= j < i ==> self.cells@[#[trigger] keys@[j]]@.len() == 0,
            decreases keys.len() - i,
        {
            let ghost before = self.cells@;
            let none: Vec<u32> = Vec::new();
            assert(keys@.to_set().contains(keys@[i as int]));
            self.cells.insert(keys[i], none);
            assert(self.cells@.dom() =~= all);
            i = i + 1;
        }
        proof {
            assert forall|k: u64| #[trigger] self.cells@.contains_key(k) implies self.cells@[k]@.len()
                == 0 by {
                assert(keys@.to_set().contains(k));
                let j = choose|j: int| 0 <= j < keys@.len() && keys@[j] == k;
                assert(self.cells@[keys@[j]]@.len() == 0);
            }
            assert forall|y: int, x: int| #[trigger] self.in_cell(y, x)
                == Seq::<u32>::empty() by {
                assert(self.in_cell(y, x) =~= Seq::<u32>::empty());
            }
        }
    }

    /// Adds a vehicle at a place.
    pub fn insert(&mut self, id: u32, lat: i64, lng: i64)
        ensures
            final(self).cell_size == old(self).cell_size,
            forall|y: int, x: int|
                in_grid(y) && in_grid(x) ==> #[trigger] final(self).in_cell(y, x) == if (y, x)
                    == old(self).cell_at(lat as int, lng as int) {
                    old(self).in_cell(y, x).push(id)
                } else {
                    old(self).in_cell(y, x)
                },
    {
        broadcast use vstd::std_specs::hash::group_hash_axioms;

        let (cy, cx) = self.cell_of(lat, lng);
        let key: u64 = key_of(cy, cx);
        let mut ids: Vec<u32> = match self.cells.remove(&key) {
            Some(v) => v,
            None => Vec::new(),
        };
        ids.push(id);
        self.cells.insert(key, ids);
        proof {
            assert forall|y: int, x: int|
                in_grid(y) && in_grid(x) implies #[trigger] self.in_cell(y, x) == if (y, x) == old(
                self,
            ).cell_at(lat as int, lng as int) {
                old(self).in_cell(y, x).push(id)
            } else {
                old(self).in_cell(y, x)
            } by {
                if cell_key(y, x) == key {
                    lemma_keys_differ(y, x, cy as int, cx as int);
                }
            }
        }
    }

    /// The vehicles in the cells of a row from column `x` on, `n` of them.
    pub open spec fn in_row(&self, y: int, x: int, n: int) -> Seq<u32>
        decreases n,
    {
        if n <= 0 {
            Seq::empty()
        } else {
            self.in_row(y, x, n - 1) + self.in_cell(y, x + n - 1)
        }
    }

    /// The vehicles in the cells of `n` rows from row `y` on, `width` cells wide from column `x`
    /// on.
    pub open spec fn in_block(&self, y: int, x: int, n: int, width: int) -> Seq<u32>
        decreases n,
    {
        if n <= 0 {
            Seq::empty()
        } else {
            self.in_block(y, x, n - 1, width) + self.in_row(y + n - 1, x, width)
        }
    }

    /// The vehicles in the cells around a place, up to `radius` cells away.
    pub open spec fn around(&self, lat: int, lng: int, radius: int) -> Seq<u32> {
        let c = self.cell_at(lat, lng);
        self.in_block(c.0 - radius, c.1 - radius, 2 * radius + 1, 2 * radius + 1)
    }

    /// The vehicles in the cells around a place, up to `radius_cells` cells away, row by row.
    pub fn query_nearby(&self, lat: i64, lng: i64, radius_cells: i32) -> (r: Vec<u32>)
        requires
            radius_cells >= 0 ==> {
                let c = self.cell_at(lat as int, lng as int);
                in_grid(c.0 - radius_cells) && in_grid(c.0 + radius_cells) && in_grid(
                    c.1 - radius_cells,
                ) && in_grid(c.1 + radius_cells)
            },
        ensures
            r@ == self.around(lat as int, lng as int, radius_cells as int),
    {
        broadcast use vstd::std_specs::hash::group_hash_axioms;

        let mut out: Vec<u32> = Vec::new();
        if radius_cells < 0 {
            return out;
        }
        let (cy, cx) = self.cell_of(lat, lng);
        let width: i64 = 2 * radius_cells as i64 + 1;
        let top: i64 = cy as i64 - radius_cells as i64;
        let left: i64 = cx as i64 - radius_cells as i64;
        let mut i: i64 = 0;
        while i < width
            invariant
                0 <= i <= width,
                width == 2 * radius_cells + 1,
                in_grid(top as int),
                in_grid(left as int),
                in_grid(top + width - 1),
                in_grid(left + width - 1),
                out@ == self.in_block(top as int, left as int, i as int, width as int),
            decreases width - i,
        {
            let ghost before = out@;
            let y: i32 = (top + i) as i32;
            let mut j: i64 = 0;
            assert(before + self.in_row(y as int, left as int, 0) =~= before);
            while j < width
                invariant
                    0 <= j <= width,
                    width == 2 * radius_cells + 1,
                    in_grid(left as int),
                    in_grid(left + width - 1),
                    out@ == before + self.in_row(y as int, left as int, j as int),
                decreases width - j,
            {
                broadcast use vstd::std_specs::hash::group_hash_axioms;

                let x: i32 = (left + j) as i32;
                let key: u64 = key_of(y, x);
                let ghost so_far = out@;
                match self.cells.get(&key) {
                    Some(ids) => {
                        let mut k: usize = 0;
                        assert(ids@.take(0) =~= Seq::<u32>::empty());
                        assert(so_far + ids@.take(0) =~= so_far);
                        while k < ids.len()
                            invariant
                                k <= ids@.len(),
                                out@ == so_far + ids@.take(k as int),
                            decreases ids.len() - k,
                        {
                            out.push(ids[k]);
                            k = k + 1;
                            assert(ids@.take(k as int) =~= ids@.take(k - 1).push(ids@[k - 1]));
                            assert(out@ =~= so_far + ids@.take(k as int));
                        }
                        assert(ids@.take(k as int) =~= ids@);
                    },
                    None => {
                        assert(out@ =~= so_far + Seq::<u32>::empty());
                    },
                }
                assert(out@ == so_far + self.in_cell(y as int, x as int));
                j = j + 1;
                assert(out@ =~= before + self.in_row(y as int, left as int, j as int));
            }
            i = i + 1;
        }
        out
    }
}

proof fn lemma_row_holds(g: SpatialGrid, y: int, x: int, n: int, k: int, id: u32)
    requires
        0 <= k < n,
        g.in_cell(y, x + k).contains(id),
    ensures
        g.in_row(y, x, n).contains(id),
    decreases n,
{
    let before = g.in_row(y, x, n - 1);
    let last = g.in_cell(y, x + n - 1);
    if k == n - 1 {
        let i = choose|i: int| 0 <= i < last.len() && last[i] == id;
        assert((before + last)[before.len() + i] == id);
    } else {
        lemma_row_holds(g, y, x, n - 1, k, id);
        let i = choose|i: int| 0 <= i < before.len() && before[i] == id;
        assert((before + last)[i] == id);
    }
}

proof fn lemma_block_holds(g: SpatialGrid, y: int, x: int, n: int, width: int, k: int, m: int, id: u32)
    requires
        0 <= k < n,
        0 <= m < width,
        g.in_cell(y + k, x + m).contains(id),
    ensures
        g.in_block(y, x, n, width).contains(id),
    decreases n,
{
    let before = g.in_block(y, x, n - 1, width);
    let last = g.in_row(y + n - 1, x, width);
    if k == n - 1 {
        lemma_row_holds(g, y + n - 1, x, width, m, id);
        let i = choose|i: int| 0 <= i < last.len() && last[i] == id;
        assert((before + last)[before.len() + i] == id);
    } else {
        lemma_block_holds(g, y, x, n - 1, width, k, m, id);
        let i = choose|i: int| 0 <= i < before.len() && before[i] == id;
        assert((before + last)[i] == id);
    }
}

/// A vehicle in a cell is found from every place whose cell is at most `radius` rows and columns
/// away.
pub proof fn law_neighbours_are_found(g: SpatialGrid, y: int, x: int, lat: int, lng: int, radius: int, id: u32)
    requires
        g.in_cell(y, x).contains(id),
        -radius <= y - g.cell_at(lat, lng).0 <= radius,
        -radius <= x - g.cell_at(lat, lng).1 <= radius,
    ensures
        g.around(lat, lng, radius).contains(id),
{
    let c = g.cell_at(lat, lng);
    let top = c.0 - radius;
    let left = c.1 - radius;
    let k = y - top;
    let m = x - left;
    assert(top + k == y && left + m == x);
    lemma_block_holds(g, top, left, 2 * radius + 1, 2 * radius + 1, k, m, id);
}

/// A cell holds the places from its lower edge up to that of the next one.
pub proof fn law_cells_hold_places(x: int, size: int)
    requires
        size > 0,
        i32::MIN * size <= x < (i32::MAX + 1) * size,
    ensures
        cell_line(x, size) * size <= x < (cell_line(x, size) + 1) * size,
{
    let q = x / size;
    let (lo, hi) = (i32::MIN as int, i32::MAX as int);
    assert(q * size <= x < (q + 1) * size) by (nonlinear_arith)
        requires
            size > 0,
            q == x / size,
    ;
    assert(lo <= q <= hi) by (nonlinear_arith)
        requires
            size > 0,
            lo * size <= x < (hi + 1) * size,
            q * size <= x < (q + 1) * size,
    ;
}

/// Two places less than a cell apart in a row or column lie in the same cell or in neighbouring ones.
pub proof fn law_near_places_are_neighbours(a: int, b: int, size: int)
    requires
        size > 0,
        a <= b <= a + size,
    ensures
        0 <= cell_line(b, size) - cell_line(a, size) <= 1,
{
    let (p, q) = (a / size, b / size);
    assert(p <= q <= p + 1) by (nonlinear_arith)
        requires
            size > 0,
            a <= b <= a + size,
            p == a / size,
            q == b / size,
    ;
}

/// All that is found around a place lies in the cells around it.
pub proof fn law_only_neighbours_are_found(g: SpatialGrid, lat: int, lng: int, radius: int, id: u32)
    requires
        g.around(lat, lng, radius).contains(id),
    ensures
        exists|y: int, x: int| #[trigger]
            g.in_cell(y, x).contains(id) && -radius <= y - g.cell_at(lat, lng).0 <= radius
                && -radius <= x - g.cell_at(lat, lng).1 <= radius,
{
    let c = g.cell_at(lat, lng);
    lemma_found_in_block(g, c.0 - radius, c.1 - radius, 2 * radius + 1, 2 * radius + 1, id);
}

proof fn lemma_found_in_block(g: SpatialGrid, y: int, x: int, n: int, width: int, id: u32)
    requires
        g.in_block(y, x, n, width).contains(id),
    ensures
        exists|r: int, c: int| #[trigger]
            g.in_cell(r, c).contains(id) && y <= r < y + n && x <= c < x + width,
    decreases n,
{
    if n > 0 {
        let before = g.in_block(y, x, n - 1, width);
        let row = g.in_row(y + n - 1, x, width);
        let all = g.in_block(y, x, n, width);
        if before.contains(id) {
            lemma_found_in_block(g, y, x, n - 1, width, id);
        } else {
            let k = choose|k: int| 0 <= k < all.len() && all[k] == id;
            if k < before.len() {
                assert(before[k] == id);
            }
            assert(row[k - before.len()] == id);
            lemma_found_in_row(g, y + n - 1, x, width, id);
        }
    }
}

proof fn lemma_found_in_row(g: SpatialGrid, y: int, x: int, n: int, id: u32)
    requires
        g.in_row(y, x, n).contains(id),
    ensures
        exists|c: int| #[trigger] g.in_cell(y, c).contains(id) && x <= c < x + n,
    decreases n,
{
    if n > 0 {
        let before = g.in_row(y, x, n - 1);
        let cell = g.in_cell(y, x + n - 1);
        let all = g.in_row(y, x, n);
        if before.contains(id) {
            lemma_found_in_row(g, y, x, n - 1, id);
        } else {
            let k = choose|k: int| 0 <= k < all.len() && all[k] == id;
            if k < before.len() {
                assert(before[k] == id);
            }
            assert(cell[k - before.len()] == id);
            assert(g.in_cell(y, x + n - 1).contains(id));
        }
    }
}

} // verus!
