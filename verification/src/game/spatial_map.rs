//! The spatial map: the cell → entities index, the reverse lookup of the
//! positions column. Derived, never authoritative: a pure function of the
//! world, rebuilt whole — no carry, no merge, nothing to save. Between
//! rebuilds it is a snapshot of where everyone stood.

use vstd::prelude::*;
use crate::entities::id::{EntityId, Ids, CAPACITY};
use crate::entities::table::Table;
use crate::game::map::{CellPos, grid_index, lemma_grid_index};
use crate::game::world::World;

verus! {

/// Where a position row is indexed: a live owner standing on a real cell of
/// a `width` × `height` grid; the zero position is nowhere.
pub open spec fn indexed_at(ids: &Ids, owner: EntityId, pos: CellPos, width: u32, height: u32) -> bool {
    &&& pos != (CellPos { x: 0, y: 0 })
    &&& pos.x < width
    &&& pos.y < height
    &&& ids.alive(owner)
}

/// The live owners among the first `n` position rows standing on (`x`,
/// `y`), in slot order.
pub open spec fn standing(ids: &Ids, positions: &Table<CellPos>, width: u32, height: u32, x: int, y: int, n: int) -> Seq<EntityId>
    decreases n,
{
    if n <= 0 {
        Seq::empty()
    } else {
        let prev = standing(ids, positions, width, height, x, y, n - 1);
        let (owner, pos) = positions.row(n - 1);
        if indexed_at(ids, owner, pos, width, height) && pos.x == x && pos.y == y {
            prev.push(owner)
        } else {
            prev
        }
    }
}

/// The index: every positioned live entity, grouped by cell. The default
/// (unbuilt) index answers empty everywhere.
pub struct SpatialMap {
    width: u32,
    height: u32,
    cells: Vec<Vec<EntityId>>,
}

impl SpatialMap {
    pub closed spec fn grid_width(&self) -> u32 {
        self.width
    }

    pub closed spec fn grid_height(&self) -> u32 {
        self.height
    }

    /// The entities indexed on (`x`, `y`).
    pub closed spec fn at_cell(&self, x: int, y: int) -> Seq<EntityId> {
        self.cells@[grid_index(x, y, self.width as int)]@
    }

    pub closed spec fn wf(&self) -> bool {
        &&& self.width * self.height <= u32::MAX
        &&& self.cells@.len() == self.width * self.height
    }

    /// The unbuilt index.
    pub fn new() -> (m: SpatialMap)
        ensures
            m.wf(),
            m.grid_width() == 0,
            m.grid_height() == 0,
    {
        SpatialMap { width: 0, height: 0, cells: Vec::new() }
    }

    /// Everyone standing on `pos`, in slot order — a fixed order, so "the
    /// first person here" is deterministic. Out of bounds is the void.
    pub fn at(&self, pos: CellPos) -> (r: &[EntityId])
        requires
            self.wf(),
        ensures
            r@ == (if pos.x < self.grid_width() && pos.y < self.grid_height() {
                self.at_cell(pos.x as int, pos.y as int)
            } else {
                Seq::empty()
            }),
    {
        if pos.x >= self.width || pos.y >= self.height {
            return &[];
        }
        proof {
            lemma_grid_index(self.width as int, self.height as int);
            assert(grid_index(pos.x as int, pos.y as int, self.width as int) < self.width * self.height);
        }
        self.cells[(pos.y * self.width + pos.x) as usize].as_slice()
    }

    /// Re-derives the whole index from the world's current positions: every
    /// live entity standing on a real cell, filed under that cell in slot
    /// order.
    pub fn rebuild(&mut self, world: &World)
        requires
            world.wf(),
        ensures
            final(self).wf(),
            final(self).grid_width() == world.map.grid_width(),
            final(self).grid_height() == world.map.grid_height(),
            forall|x: int, y: int|
                0 <= x < world.map.grid_width() && 0 <= y < world.map.grid_height() ==> #[trigger] final(self).at_cell(x, y)
                    == standing(&world.ids, &world.state.positions, world.map.grid_width(), world.map.grid_height(), x, y, CAPACITY as int),
    {
        let width = world.map.width();
        let height = world.map.height();
        proof {
            world.map.lemma_dims();
        }
        let total = (width * height) as usize;
        let mut cells: Vec<Vec<EntityId>> = Vec::new();
        let mut n: usize = 0;
        while n < total
            invariant
                n <= total,
                cells@.len() == n,
                forall|i: int| 0 <= i < n ==> (#[trigger] cells@[i])@.len() == 0,
            decreases total - n,
        {
            cells.push(Vec::new());
            n = n + 1;
        }
        proof {
            lemma_grid_index(width as int, height as int);
        }
        let rows = world.state.positions.rows();
        let ids = &world.ids;
        let ghost positions = &world.state.positions;
        let mut s: usize = 0;
        while s < CAPACITY
            invariant
                s <= CAPACITY,
                ids == &world.ids,
                ids.wf(),
                positions == &world.state.positions,
                rows@.len() == CAPACITY,
                forall|i: int| 0 <= i < CAPACITY ==> #[trigger] rows@[i] == positions.row(i),
                width * height <= u32::MAX,
                cells@.len() == width * height,
                forall|x1: int, y1: int| 0 <= x1 < width && 0 <= y1 < height ==> 0 <= #[trigger] grid_index(x1, y1, width as int) < width * height,
                forall|x1: int, y1: int, x2: int, y2: int|
                    0 <= x1 < width && 0 <= y1 < height && 0 <= x2 < width && 0 <= y2 < height && #[trigger] grid_index(x1, y1, width as int)
                        == #[trigger] grid_index(x2, y2, width as int) ==> x1 == x2 && y1 == y2,
                forall|x: int, y: int|
                    0 <= x < width && 0 <= y < height ==> (#[trigger] cells@[grid_index(x, y, width as int)])@ == standing(ids, positions, width, height, x, y, s as int),
            decreases CAPACITY - s,
        {
            let (owner, pos) = rows[s];
            if pos != CellPos::default() && pos.x < width && pos.y < height && ids.is_alive(owner) {
                proof {
                    assert(grid_index(pos.x as int, pos.y as int, width as int) < width * height);
                    assert(pos.y * width + pos.x < width * height);
                    assert(pos.y * width <= pos.y * width + pos.x);
                }
                let cell = (pos.y * width + pos.x) as usize;
                cells[cell].push(owner);
                proof {
                    assert forall|x: int, y: int| 0 <= x < width && 0 <= y < height implies (#[trigger] cells@[grid_index(x, y, width as int)])@
                        == standing(ids, positions, width, height, x, y, s + 1) by {
                        if x != pos.x || y != pos.y {
                            assert(grid_index(x, y, width as int) != grid_index(pos.x as int, pos.y as int, width as int));
                        }
                    }
                }
            }
            s = s + 1;
        }
        self.width = width;
        self.height = height;
        self.cells = cells;
    }
}

impl Default for SpatialMap {
    fn default() -> (m: SpatialMap)
        ensures
            m.wf(),
            m.grid_width() == 0,
            m.grid_height() == 0,
    {
        SpatialMap::new()
    }
}

} // verus!
