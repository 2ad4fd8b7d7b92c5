//! The map's render model: everything the harness needs to draw the map,
//! with every drawing decision (which color, what gets a dot) made here,
//! sim-side. The harness only rasterizes cells and dots in the palette's
//! colors; it never looks at world state.

use vstd::prelude::*;
use crate::entities::defs::SetId;
use crate::entities::id::{EntityId, CAPACITY};
use crate::game::game::{player, player_spec, PEOPLE};
use crate::game::map::{grid_index, CellPos, Terrain, WorldMap};
use crate::game::world::World;

verus! {

/// A palette entry. The manuscript palette: vellum land, slate sea,
/// oxblood settlements. `Clear` is transparent: nothing to draw.
#[derive(Clone, Copy, PartialEq, Eq, Structural, Debug)]
pub enum Swatch {
    Clear,
    Wild,
    Sea,
    Road,
    Settlement,
    Person,
    Player,
}

/// One drawable cell: a fill, and a dot drawn on top when someone stands
/// here (`Clear` = no dot).
#[derive(Clone, Copy, PartialEq, Eq, Structural, Debug)]
pub struct DrawCell {
    pub fill: Swatch,
    pub dot: Swatch,
}

/// The whole map, ready to draw: `width * height` cells in row-major order.
pub struct DrawMap {
    pub width: u32,
    pub height: u32,
    pub cells: Vec<DrawCell>,
}

/// The fill a terrain is drawn in.
pub open spec fn terrain_swatch(t: Terrain) -> Swatch {
    match t {
        Terrain::Wild => Swatch::Wild,
        Terrain::Road => Swatch::Road,
        Terrain::Sea => Swatch::Sea,
        Terrain::Settlement => Swatch::Settlement,
    }
}

/// Slot `i` holds a live person standing on `(x, y)`.
pub open spec fn person_at(w: &World, i: int, x: int, y: int) -> bool {
    let id = w.ids.slot(i);
    let pos = w.state.positions.row(i).1;
    &&& w.ids.member(id, PEOPLE as int)
    &&& pos.x == x && pos.y == y
}

/// The dot on `(x, y)` from the people in the first `n` slots: people
/// travelling become dots, on road cells only (a settlement's fill is
/// marker enough); the player's dot outshines anyone sharing the cell.
pub open spec fn dot_upto(w: &World, x: int, y: int, n: int) -> Swatch
    decreases n,
{
    if n <= 0 || (x == 0 && y == 0) || w.map.cell_at(x, y).terrain != Terrain::Road {
        Swatch::Clear
    } else {
        let prev = dot_upto(w, x, y, n - 1);
        if person_at(w, n - 1, x, y) {
            if player_spec(w) == Some(w.ids.slot(n - 1)) {
                Swatch::Player
            } else if prev == Swatch::Clear {
                Swatch::Person
            } else {
                prev
            }
        } else {
            prev
        }
    }
}

/// Row-major cell `k` of a grid `width` wide, with the dots of the first
/// `n` slots placed.
pub open spec fn partial_cell(w: &World, k: int, width: int, n: int) -> DrawCell {
    DrawCell { fill: terrain_swatch(w.map.cell_at(k % width, k / width).terrain), dot: dot_upto(w, k % width, k / width, n) }
}

/// The cell `(x, y)` as drawn.
pub open spec fn draw_cell(w: &World, x: int, y: int) -> DrawCell {
    DrawCell { fill: terrain_swatch(w.map.cell_at(x, y).terrain), dot: dot_upto(w, x, y, CAPACITY as int) }
}

/// Some slot below `n` holds a live person standing on `(x, y)`.
pub open spec fn someone_at(w: &World, x: int, y: int, n: int) -> bool {
    exists|i: int| 0 <= i < n && #[trigger] person_at(w, i, x, y)
}

/// The player is a live person standing on `(x, y)`, in a slot below `n`.
pub open spec fn player_at(w: &World, x: int, y: int, n: int) -> bool {
    exists|i: int| 0 <= i < n && #[trigger] person_at(w, i, x, y) && player_spec(w) == Some(w.ids.slot(i))
}

/// `(x, y)` is a road square other than the zero square.
pub open spec fn dotted_ground(w: &World, x: int, y: int) -> bool {
    !(x == 0 && y == 0) && w.map.cell_at(x, y).terrain == Terrain::Road
}

proof fn lemma_dot_upto(w: &World, x: int, y: int, n: int)
    requires
        0 <= n,
    ensures
        !dotted_ground(w, x, y) ==> dot_upto(w, x, y, n) == Swatch::Clear,
        dotted_ground(w, x, y) ==> {
            &&& (dot_upto(w, x, y, n) == Swatch::Clear) == !someone_at(w, x, y, n)
            &&& (dot_upto(w, x, y, n) == Swatch::Player) == player_at(w, x, y, n)
            &&& (dot_upto(w, x, y, n) == Swatch::Person) == (someone_at(w, x, y, n) && !player_at(w, x, y, n))
        },
    decreases n,
{
    if n > 0 {
        lemma_dot_upto(w, x, y, n - 1);
        if dotted_ground(w, x, y) {
            if someone_at(w, x, y, n) && !someone_at(w, x, y, n - 1) {
                let i = choose|i: int| 0 <= i < n && #[trigger] person_at(w, i, x, y);
                assert(i == n - 1);
            }
            if player_at(w, x, y, n) && !player_at(w, x, y, n - 1) {
                let i = choose|i: int| 0 <= i < n && #[trigger] person_at(w, i, x, y) && player_spec(w) == Some(w.ids.slot(i));
                assert(i == n - 1);
            }
            if person_at(w, n - 1, x, y) {
                assert(someone_at(w, x, y, n));
                if player_spec(w) == Some(w.ids.slot(n - 1)) {
                    assert(player_at(w, x, y, n));
                }
            }
            if someone_at(w, x, y, n - 1) {
                let i = choose|i: int| 0 <= i < n - 1 && #[trigger] person_at(w, i, x, y);
                assert(someone_at(w, x, y, n));
            }
            if player_at(w, x, y, n - 1) {
                let i = choose|i: int| 0 <= i < n - 1 && #[trigger] person_at(w, i, x, y) && player_spec(w) == Some(w.ids.slot(i));
                assert(player_at(w, x, y, n));
            }
        }
    }
}

/// What the drawn map shows on a square: its terrain's fill, and a dot
/// exactly on road squares (never the zero square) where some live person
/// stands: the player's dot when the player stands there, else a person's.
pub proof fn lemma_drawn_dots(w: &World, x: int, y: int)
    ensures
        draw_cell(w, x, y).fill == terrain_swatch(w.map.cell_at(x, y).terrain),
        !dotted_ground(w, x, y) ==> draw_cell(w, x, y).dot == Swatch::Clear,
        dotted_ground(w, x, y) && !someone_at(w, x, y, CAPACITY as int) ==> draw_cell(w, x, y).dot == Swatch::Clear,
        dotted_ground(w, x, y) && player_at(w, x, y, CAPACITY as int) ==> draw_cell(w, x, y).dot == Swatch::Player,
        dotted_ground(w, x, y) && someone_at(w, x, y, CAPACITY as int) && !player_at(w, x, y, CAPACITY as int)
            ==> draw_cell(w, x, y).dot == Swatch::Person,
{
    lemma_dot_upto(w, x, y, CAPACITY as int);
}

fn swatch_of(t: Terrain) -> (s: Swatch)
    ensures
        s == terrain_swatch(t),
{
    match t {
        Terrain::Wild => Swatch::Wild,
        Terrain::Road => Swatch::Road,
        Terrain::Sea => Swatch::Sea,
        Terrain::Settlement => Swatch::Settlement,
    }
}

/// Derives the render model from the world, read-only, once per frame.
pub fn build(world: &World) -> (m: DrawMap)
    requires
        world.wf(),
    ensures
        m.width == world.map.grid_width(),
        m.height == world.map.grid_height(),
        m.cells@.len() == m.width * m.height,
        forall|x: int, y: int|
            0 <= x < m.width && 0 <= y < m.height ==> #[trigger] m.cells@[grid_index(x, y, m.width as int)] == draw_cell(world, x, y),
{
    let map = &world.map;
    let width = map.width();
    let height = map.height();
    proof {
        map.lemma_dims();
    }
    let total = (width * height) as usize;
    let mut cells: Vec<DrawCell> = Vec::new();
    let mut n: usize = 0;
    while n < total
        invariant
            world.wf(),
            map == &world.map,
            width == map.grid_width(),
            height == map.grid_height(),
            total == width * height,
            width * height <= u32::MAX,
            n <= total,
            cells@.len() == n,
            forall|k: int| 0 <= k < n ==> #[trigger] cells@[k] == partial_cell(world, k, width as int, 0),
        decreases total - n,
    {
        proof {
            assert(width > 0);
            assert((n as int) / (width as int) < height) by (nonlinear_arith)
                requires n < width * height, width > 0;
        }
        let x = (n as u32) % width;
        let y = (n as u32) / width;
        let cell = map.cell(CellPos { x, y });
        cells.push(DrawCell { fill: swatch_of(cell.terrain), dot: Swatch::Clear });
        n = n + 1;
    }
    let you = player(world);
    let mut slot: usize = 0;
    proof {
        world.ids.lemma_wf();
    }
    while slot < CAPACITY
        invariant
            world.wf(),
            map == &world.map,
            width == map.grid_width(),
            height == map.grid_height(),
            total == width * height,
            width * height <= u32::MAX,
            you == player_spec(world),
            slot <= CAPACITY,
            cells@.len() == total,
            forall|k: int| 0 <= k < total ==> #[trigger] cells@[k] == partial_cell(world, k, width as int, slot as int),
        decreases CAPACITY - slot,
    {
        let id = world.ids.id_at(slot);
        if world.ids.in_set(id, SetId(PEOPLE)) {
            let pos = world.position(id);
            if !(pos.x == 0 && pos.y == 0) && pos.x < width && pos.y < height && map.cell(pos).terrain == Terrain::Road {
                proof {
                    assert(pos.y * width + pos.x < width * height) by (nonlinear_arith)
                        requires pos.x < width, pos.y < height;
                }
                let k = (pos.y * width + pos.x) as usize;
                let is_player = match you {
                    Some(p) => p == id,
                    None => false,
                };
                let mut cell = cells[k];
                if is_player {
                    cell.dot = Swatch::Player;
                } else if cell.dot == Swatch::Clear {
                    cell.dot = Swatch::Person;
                }
                let ghost before = cells@;
                cells.set(k, cell);
                proof {
                    assert(k as int % width as int == pos.x && k as int / width as int == pos.y) by (nonlinear_arith)
                        requires k == pos.y * width + pos.x, pos.x < width;
                    assert forall|j: int| 0 <= j < total implies #[trigger] cells@[j] == partial_cell(world, j, width as int, slot + 1) by {
                        let jx = j % width as int;
                        let jy = j / width as int;
                        if j != k {
                            assert(jx != pos.x || jy != pos.y) by (nonlinear_arith)
                                requires j != k, k == pos.y * width + pos.x, jx == j % width as int, jy == j / width as int, width > 0, 0 <= j;
                            assert(!person_at(world, slot as int, jx, jy));
                        }
                    }
                }
            } else {
                proof {
                    assert forall|j: int| 0 <= j < total implies #[trigger] cells@[j] == partial_cell(world, j, width as int, slot + 1) by {
                        let jx = j % width as int;
                        let jy = j / width as int;
                        assert(0 <= jx < width && 0 <= jy < height) by (nonlinear_arith)
                            requires jx == j % width as int, jy == j / width as int, 0 <= j < width * height, width > 0;
                    }
                }
            }
        }
        slot = slot + 1;
    }
    proof {
        assert forall|x: int, y: int| 0 <= x < width && 0 <= y < height implies #[trigger] cells@[grid_index(x, y, width as int)]
            == draw_cell(world, x, y) by {
            let k = grid_index(x, y, width as int);
            crate::game::map::lemma_grid_index(width as int, height as int);
            assert(k % width as int == x && k / width as int == y) by (nonlinear_arith)
                requires k == y * width + x, 0 <= x < width, 0 <= y;
        }
    }
    DrawMap { width, height, cells }
}

} // verus!
