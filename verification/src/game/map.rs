//! The world map: a flat grid of square cells, authored as plain ASCII.
//!
//! Format: the text mixes grid rows and legend lines. Any line containing
//! `=` is a legend entry, `<letter> = <data key>`, tying a settlement glyph
//! to the entry that spawned it; every other non-blank line is a row of
//! cells. Glyphs: `a`-`z`/`A`-`Z` = a cell of that settlement's blob, `#` =
//! road, `~` = sea, `.` = impassable wilds.

use vstd::prelude::*;
use crate::entities::id::EntityId;
use crate::entities::uvars::Bits64;
use crate::util::decimal::{decimal, format_u64, parse_u64, parse_u64_spec, chars_of};
use crate::util::text::string_push_str;
use crate::game::map_text::{
    letter_slot, letter_slot_of, views, texts, push_chars, text_lines, legend_lines, grid_lines, dedent,
    dedentable, widest, read_legend, lookup_ok, split_map_text, read_legend_lines, dedent_rows, widest_row, rows_dedentable,
};

verus! {

/// A cell coordinate. Packs into a u64 slot; the zero position is the
/// map's top-left corner, which authored maps keep void, so zero reads as
/// "nowhere".
#[derive(Clone, Copy, PartialEq, Eq, Structural, Debug, Hash)]
pub struct CellPos {
    pub x: u32,
    pub y: u32,
}

impl Default for CellPos {
    fn default() -> (p: CellPos)
        ensures
            p == (CellPos { x: 0, y: 0 }),
    {
        CellPos { x: 0, y: 0 }
    }
}

/// The packed form: `x` in the high 32 bits, `y` in the low ones.
pub open spec fn cell_bits(p: CellPos) -> u64 {
    (p.x as int * 0x1_0000_0000 + p.y as int) as u64
}

pub open spec fn cell_of_bits(bits: u64) -> CellPos {
    CellPos { x: (bits / 0x1_0000_0000) as u32, y: (bits % 0x1_0000_0000) as u32 }
}

impl Bits64 for CellPos {
    open spec fn bits_of(self) -> u64 {
        cell_bits(self)
    }

    open spec fn from_bits_spec(bits: u64) -> CellPos {
        cell_of_bits(bits)
    }

    fn to_bits(self) -> (r: u64) {
        let x = self.x as u64;
        let y = self.y as u64;
        assert((x << 32u64) | y == x * 0x1_0000_0000 + y) by (bit_vector)
            requires
                x < 0x1_0000_0000u64,
                y < 0x1_0000_0000u64,
        ;
        (x << 32u64) | y
    }

    fn from_bits(bits: u64) -> (r: CellPos) {
        assert((bits >> 32u64) == bits / 0x1_0000_0000) by (bit_vector);
        assert(bits as u32 == bits % 0x1_0000_0000) by (bit_vector);
        CellPos { x: (bits >> 32u64) as u32, y: bits as u32 }
    }

    proof fn lemma_round_trip(p: CellPos) {
        let b = p.x as int * 0x1_0000_0000 + p.y as int;
        assert(b < 0x1_0000_0000_0000_0000) by (nonlinear_arith)
            requires
                0 <= p.x < 0x1_0000_0000,
                0 <= p.y < 0x1_0000_0000,
                b == p.x as int * 0x1_0000_0000 + p.y as int,
        ;
        assert(b / 0x1_0000_0000 == p.x && b % 0x1_0000_0000 == p.y) by (nonlinear_arith)
            requires
                0 <= p.y < 0x1_0000_0000,
                b == p.x as int * 0x1_0000_0000 + p.y as int,
        ;
    }
}

impl CellPos {
    /// The packed bits in decimal, the form cells travel in through UI
    /// action strings.
    pub fn to_string(&self) -> (r: String)
        ensures
            r@ == decimal(cell_bits(*self) as nat),
    {
        format_u64(Bits64::to_bits(*self))
    }

    /// Inverse of [`CellPos::to_string`]: a decimal number unpacks to its
    /// cell; anything else is `None`.
    pub fn parse(text: &str) -> (r: Option<CellPos>)
        ensures
            r == (match parse_u64_spec(text@) {
                Some(bits) => Some(cell_of_bits(bits)),
                None => None,
            }),
    {
        let chars = chars_of(text);
        match parse_u64(chars.as_slice()) {
            Some(bits) => Some(<CellPos as Bits64>::from_bits(bits)),
            None => None,
        }
    }
}

/// What ground a cell is made of; the zero terrain is the impassable wild.
#[derive(Clone, Copy, PartialEq, Eq, Structural, Debug)]
pub enum Terrain {
    Wild,
    Road,
    Sea,
    /// A cell of some settlement's blob; which one is the cell's
    /// `settlement` field.
    Settlement,
}

impl Default for Terrain {
    fn default() -> (t: Terrain)
        ensures
            t == Terrain::Wild,
    {
        Terrain::Wild
    }
}

/// One square of the world. The all-zero cell is the impassable wild,
/// which is also what lies beyond every map edge.
#[derive(Clone, Copy, PartialEq, Eq, Structural, Debug)]
pub struct Cell {
    pub terrain: Terrain,
    /// Price of stepping in; 0 = impassable.
    pub cost: u8,
    /// The settlement whose blob this cell belongs to; null = none.
    pub settlement: EntityId,
}

/// The void cell: impassable wild, nobody's.
pub open spec fn void_cell() -> Cell {
    Cell { terrain: Terrain::Wild, cost: 0, settlement: EntityId::null_spec() }
}

impl Default for Cell {
    fn default() -> (c: Cell)
        ensures
            c == void_cell(),
    {
        Cell { terrain: Terrain::Wild, cost: 0, settlement: EntityId::null() }
    }
}


/// Where (`x`, `y`) sits in a row-major grid `w` wide.
pub open spec fn grid_index(x: int, y: int, w: int) -> int {
    y * w + x
}

/// Distinct squares of a `w` × `h` grid sit at distinct places inside it.
pub proof fn lemma_grid_index(w: int, h: int)
    requires
        w >= 0,
        h >= 0,
    ensures
        forall|x: int, y: int| 0 <= x < w && 0 <= y < h ==> 0 <= #[trigger] grid_index(x, y, w) < w * h,
        forall|x1: int, y1: int, x2: int, y2: int|
            0 <= x1 < w && 0 <= y1 < h && 0 <= x2 < w && 0 <= y2 < h && #[trigger] grid_index(x1, y1, w)
                == #[trigger] grid_index(x2, y2, w) ==> x1 == x2 && y1 == y2,
{
    assert forall|x: int, y: int| 0 <= x < w && 0 <= y < h implies 0 <= #[trigger] grid_index(x, y, w) < w * h by {
        assert(0 <= y * w + x < w * h) by (nonlinear_arith)
            requires
                0 <= x < w,
                0 <= y < h,
        ;
    }
    assert forall|x1: int, y1: int, x2: int, y2: int|
        0 <= x1 < w && 0 <= y1 < h && 0 <= x2 < w && 0 <= y2 < h && #[trigger] grid_index(x1, y1, w)
            == #[trigger] grid_index(x2, y2, w) implies x1 == x2 && y1 == y2 by {
        assert(y1 == y2) by (nonlinear_arith)
            requires
                0 <= x1 < w,
                0 <= x2 < w,
                y1 * w + x1 == y2 * w + x2,
        ;
    }
}

/// The cell a glyph makes under the legend `table`: `.` wild, `~` sea, `#`
/// road, a letter its settlement's blob when the legend files one there;
/// anything else is the void.
pub open spec fn glyph_cell(g: char, table: Seq<EntityId>) -> Cell {
    if g == '~' {
        Cell { terrain: Terrain::Sea, cost: 0, settlement: EntityId::null_spec() }
    } else if g == '#' {
        Cell { terrain: Terrain::Road, cost: 1, settlement: EntityId::null_spec() }
    } else {
        match letter_slot(g) {
            Some(slot) => if table[slot] != EntityId::null_spec() {
                Cell { terrain: Terrain::Settlement, cost: 1, settlement: table[slot] }
            } else {
                void_cell()
            },
            None => void_cell(),
        }
    }
}

/// The problem a glyph at (`x`, `y`) reports, if any: a letter with no
/// legend, or a character that is no glyph at all.
pub open spec fn glyph_error(x: int, y: int, g: char, table: Seq<EntityId>) -> Option<Seq<char>> {
    if g == '.' || g == '~' || g == '#' {
        None
    } else {
        match letter_slot(g) {
            Some(slot) => if table[slot] != EntityId::null_spec() {
                None
            } else {
                Some("glyph '"@ + seq![g] + "' at "@ + decimal(x as nat) + ","@ + decimal(y as nat) + " has no legend"@)
            },
            None => Some("unknown glyph '"@ + seq![g] + "' at "@ + decimal(x as nat) + ","@ + decimal(y as nat)),
        }
    }
}

/// A row's glyphs with their coordinates, left to right.
pub open spec fn row_glyphs(row: Seq<char>, y: int) -> Seq<(int, int, char)>
    decreases row.len(),
{
    if row.len() == 0 {
        Seq::empty()
    } else {
        row_glyphs(row.drop_last(), y).push((row.len() - 1, y, row.last()))
    }
}

/// Every glyph of the grid with its coordinates, in row-major order.
pub open spec fn grid_glyphs(rows: Seq<Seq<char>>) -> Seq<(int, int, char)>
    decreases rows.len(),
{
    if rows.len() == 0 {
        Seq::empty()
    } else {
        grid_glyphs(rows.drop_last()) + row_glyphs(rows.last(), rows.len() - 1)
    }
}

/// The problems the glyphs report, in order.
pub open spec fn glyph_errors(glyphs: Seq<(int, int, char)>, table: Seq<EntityId>) -> Seq<Seq<char>>
    decreases glyphs.len(),
{
    if glyphs.len() == 0 {
        Seq::empty()
    } else {
        let p = glyph_errors(glyphs.drop_last(), table);
        let (x, y, g) = glyphs.last();
        match glyph_error(x, y, g, table) {
            Some(e) => p.push(e),
            None => p,
        }
    }
}

/// Each settlement's anchor: the first of its cells met, in glyph order.
pub open spec fn glyph_anchors(glyphs: Seq<(int, int, char)>, table: Seq<EntityId>) -> Seq<(EntityId, CellPos)>
    decreases glyphs.len(),
{
    if glyphs.len() == 0 {
        Seq::empty()
    } else {
        let p = glyph_anchors(glyphs.drop_last(), table);
        let (x, y, g) = glyphs.last();
        let c = glyph_cell(g, table);
        if c.terrain == Terrain::Settlement && !(exists|i: int| 0 <= i < p.len() && (#[trigger] p[i]).0 == c.settlement) {
            p.push((c.settlement, CellPos { x: x as u32, y: y as u32 }))
        } else {
            p
        }
    }
}

/// How many cells of settlement `id` run rightward from (`x`, `y`) along
/// row `y` of a grid `width` wide.
pub open spec fn run_from(cells: Seq<Cell>, width: int, x: int, y: int, id: EntityId) -> nat
    decreases width - x,
{
    if 0 <= x < width && 0 <= y * width + x < cells.len() && cells[y * width + x].settlement == id {
        1 + run_from(cells, width, x + 1, y, id)
    } else {
        0
    }
}

/// The center of the blob of `id` whose first cell in row-major order is
/// `first`. Blobs are odd-sided squares, so the first cell is the square's
/// top-left corner, its side is the blob's run along that row, and the
/// center sits half a side (rounded down) right of and below the corner.
pub open spec fn blob_center(cells: Seq<Cell>, width: int, first: CellPos, id: EntityId) -> CellPos {
    let side = run_from(cells, width, first.x as int, first.y as int, id);
    let half = if side == 0 {
        0
    } else {
        (side - 1) / 2
    };
    CellPos { x: (first.x + half) as u32, y: (first.y + half) as u32 }
}

/// Each anchor moved from its blob's first cell to the blob's center.
pub open spec fn centered(cells: Seq<Cell>, width: int, firsts: Seq<(EntityId, CellPos)>) -> Seq<(EntityId, CellPos)> {
    Seq::new(firsts.len(), |i: int| (firsts[i].0, blob_center(cells, width, firsts[i].1, firsts[i].0)))
}

/// The grid rows of a map text: the lines without `=`, their common
/// indentation cut off.
pub open spec fn map_rows(source: Seq<char>) -> Seq<Seq<char>> {
    dedent(grid_lines(text_lines(source)))
}

/// A map text the parser takes: indentation cut at character boundaries, and
/// a grid whose square count fits 32 bits.
pub open spec fn map_text_ok(source: Seq<char>) -> bool {
    &&& dedentable(grid_lines(text_lines(source)))
    &&& widest(map_rows(source)) * map_rows(source).len() <= u32::MAX
    &&& map_rows(source).len() <= u32::MAX
}

/// Whether the parser takes `source`: the test a caller makes before
/// [`WorldMap::parse`].
pub fn map_text_fits(source: &str) -> (ok: bool)
    ensures
        ok == map_text_ok(source@),
{
    let text = chars_of(source);
    let (_legend, raw_rows) = split_map_text(&text);
    if !rows_dedentable(&raw_rows) {
        return false;
    }
    let rows = dedent_rows(&raw_rows);
    let width = widest_row(&rows);
    let height = rows.len();
    proof {
        assert(views(rows@) == map_rows(source@));
        assert(views(rows@).len() == rows@.len());
    }
    if height as u64 > u32::MAX as u64 {
        return false;
    }
    match (width as u64).checked_mul(height as u64) {
        Some(total) => total <= u32::MAX as u64,
        None => false,
    }
}

/// The grid and, for each settlement with cells, its anchor: the first
/// cell of its blob in row-major order, where "located" people are dropped.
#[derive(Clone)]
pub struct WorldMap {
    pub width: u32,
    pub height: u32,
    cells: Vec<Cell>,
    anchors: Vec<(EntityId, CellPos)>,
}

impl WorldMap {
    /// The cells, row-major.
    pub closed spec fn cells(&self) -> Seq<Cell> {
        self.cells@
    }

    /// Columns in the grid.
    pub closed spec fn grid_width(&self) -> u32 {
        self.width
    }

    /// Rows in the grid.
    pub closed spec fn grid_height(&self) -> u32 {
        self.height
    }

    /// The anchors, in the order their blobs were first met.
    pub closed spec fn anchor_seq(&self) -> Seq<(EntityId, CellPos)> {
        self.anchors@
    }

    /// One cell per grid square, and one anchor per settlement.
    pub closed spec fn wf(&self) -> bool {
        &&& self.width * self.height <= u32::MAX
        &&& self.cells().len() == self.width * self.height
        &&& forall|i: int, j: int|
            0 <= i < j < self.anchor_seq().len() ==> (#[trigger] self.anchor_seq()[i]).0 != (#[trigger] self.anchor_seq()[j]).0
    }

    /// The cell at (`x`, `y`), or the void beyond the edges.
    pub closed spec fn cell_at(&self, x: int, y: int) -> Cell {
        if 0 <= x < self.width && 0 <= y < self.height {
            self.cells()[y * self.width + x]
        } else {
            void_cell()
        }
    }

    /// The grid's size fits 32 bits.
    pub proof fn lemma_dims(&self)
        requires
            self.wf(),
        ensures
            self.grid_width() * self.grid_height() <= u32::MAX,
    {
    }

    /// The cell at (`x`, `y`) read off the row-major cells.
    pub proof fn lemma_cell_at(&self, p: CellPos)
        ensures
            self.cell_at(p.x as int, p.y as int) == (if p.x < self.grid_width() && p.y < self.grid_height() {
                self.cells()[p.y * self.grid_width() + p.x]
            } else {
                void_cell()
            }),
    {
    }

    /// Columns in the grid.
    pub fn width(&self) -> (w: u32)
        ensures
            w == self.grid_width(),
    {
        self.width
    }

    /// Rows in the grid.
    pub fn height(&self) -> (h: u32)
        ensures
            h == self.grid_height(),
    {
        self.height
    }

    /// The empty map: all void.
    pub fn empty() -> (m: WorldMap)
        ensures
            m.wf(),
            m.grid_width() == 0,
            m.grid_height() == 0,
            m.anchor_seq().len() == 0,
    {
        WorldMap { width: 0, height: 0, cells: Vec::new(), anchors: Vec::new() }
    }

    /// The cell at `pos`, or the void cell when out of bounds — the map
    /// extends with impassable nothing in every direction.
    pub fn cell(&self, pos: CellPos) -> (c: Cell)
        requires
            self.wf(),
        ensures
            c == self.cell_at(pos.x as int, pos.y as int),
    {
        if pos.x < self.width && pos.y < self.height {
            proof {
                assert(pos.y * self.width + pos.x < self.width * self.height) by (nonlinear_arith)
                    requires
                        pos.x < self.width,
                        pos.y < self.height,
                ;
            }
            self.cells[(pos.y * self.width + pos.x) as usize]
        } else {
            Cell::default()
        }
    }

    /// A settlement's anchor cell; the zero position when it has no blob on
    /// the map.
    /// Every settlement's anchor cell: its first cell in reading order.
    pub fn anchors(&self) -> (r: &[(EntityId, CellPos)])
        ensures
            r@ == self.anchor_seq(),
    {
        self.anchors.as_slice()
    }

    /// Where `settlement`'s anchor sits; the zero cell when it has none.
    pub open spec fn anchor_of(&self, settlement: EntityId) -> CellPos {
        if exists|i: int| 0 <= i < self.anchor_seq().len() && (#[trigger] self.anchor_seq()[i]).0 == settlement {
            self.anchor_seq()[choose|i: int| 0 <= i < self.anchor_seq().len() && (#[trigger] self.anchor_seq()[i]).0 == settlement].1
        } else {
            CellPos { x: 0, y: 0 }
        }
    }

    pub fn anchor(&self, settlement: EntityId) -> (p: CellPos)
        requires
            self.wf(),
        ensures
            p == self.anchor_of(settlement),
            (exists|i: int| 0 <= i < self.anchor_seq().len() && (#[trigger] self.anchor_seq()[i]).0 == settlement && p == self.anchor_seq()[i].1)
                || ((forall|i: int| 0 <= i < self.anchor_seq().len() ==> (#[trigger] self.anchor_seq()[i]).0 != settlement) && p == (CellPos { x: 0, y: 0 })),
    {
        let mut i: usize = 0;
        while i < self.anchors.len()
            invariant
                self.wf(),
                i <= self.anchors@.len(),
                forall|j: int| 0 <= j < i ==> (#[trigger] self.anchors@[j]).0 != settlement,
            decreases self.anchors@.len() - i,
        {
            if self.anchors[i].0 == settlement {
                proof {
                    assert(self.anchor_seq()[i as int].0 == settlement);
                    let j = choose|j: int| 0 <= j < self.anchor_seq().len() && (#[trigger] self.anchor_seq()[j]).0 == settlement;
                    if j != i {
                        if j < i {
                            assert(self.anchor_seq()[j].0 != self.anchor_seq()[i as int].0);
                        } else {
                            assert(self.anchor_seq()[i as int].0 != self.anchor_seq()[j].0);
                        }
                    }
                }
                return self.anchors[i].1;
            }
            i = i + 1;
        }
        CellPos::default()
    }
}

impl Default for WorldMap {
    fn default() -> (m: WorldMap)
        ensures
            m.wf(),
            m.grid_width() == 0,
            m.grid_height() == 0,
            m.anchor_seq().len() == 0,
    {
        WorldMap::empty()
    }
}

/// Square (`x`, `y`) of the finished grid: its row's glyph's cell, or the
/// void past the row's end.
pub open spec fn grid_cell(rows: Seq<Seq<char>>, table: Seq<EntityId>, x: int, y: int) -> Cell {
    if x < rows[y].len() {
        glyph_cell(rows[y][x], table)
    } else {
        void_cell()
    }
}

/// A square is whole: a settlement square exactly when it names a
/// settlement, and costing 1 to enter exactly on road and settlement.
pub open spec fn cell_whole(c: Cell) -> bool {
    &&& (c.terrain == Terrain::Settlement) == (c.settlement != EntityId::null_spec())
    &&& c.cost == if c.terrain == Terrain::Road || c.terrain == Terrain::Settlement {
        1u32
    } else {
        0u32
    }
}

/// Every square a parsed map holds is whole: where each in-bounds square
/// is the one its text's glyph gives (as [`WorldMap::parse`] ensures), a
/// square is a settlement square exactly when it names a settlement, and
/// costs 1 to enter exactly on road and settlement.
pub proof fn lemma_parsed_cells_whole(map: &WorldMap, rows: Seq<Seq<char>>, table: Seq<EntityId>)
    requires
        map.grid_height() == rows.len(),
        forall|x: int, y: int|
            0 <= x < map.grid_width() && 0 <= y < map.grid_height() ==> #[trigger] map.cell_at(x, y) == grid_cell(
                rows,
                table,
                x,
                y,
            ),
    ensures
        forall|x: int, y: int| 0 <= x < map.grid_width() && 0 <= y < map.grid_height() ==> cell_whole(#[trigger] map.cell_at(x, y)),
{
    assert forall|x: int, y: int| 0 <= x < map.grid_width() && 0 <= y < map.grid_height() implies cell_whole(
        #[trigger] map.cell_at(x, y),
    ) by {
        assert(map.cell_at(x, y) == grid_cell(rows, table, x, y));
    }
}

/// Square (`x`, `y`) while the grid fills: set once row-major order has
/// passed (`cx`, `cy`), void before.
pub open spec fn filled(rows: Seq<Seq<char>>, table: Seq<EntityId>, x: int, y: int, cx: int, cy: int) -> Cell {
    if y < cy || (y == cy && x < cx) {
        grid_cell(rows, table, x, y)
    } else {
        void_cell()
    }
}

fn glyph_to_cell(g: char, table: &Vec<EntityId>) -> (c: Cell)
    requires
        table@.len() == 52,
    ensures
        c == glyph_cell(g, table@),
{
    if g == '~' {
        Cell { terrain: Terrain::Sea, cost: 0, settlement: EntityId::null() }
    } else if g == '#' {
        Cell { terrain: Terrain::Road, cost: 1, settlement: EntityId::null() }
    } else {
        match letter_slot_of(g) {
            Some(slot) => {
                let id = table[slot];
                if id != EntityId::null() {
                    Cell { terrain: Terrain::Settlement, cost: 1, settlement: id }
                } else {
                    Cell::default()
                }
            },
            None => Cell::default(),
        }
    }
}

/// Appends "`g`' at `x`,`y`" to `msg`.
fn push_place(msg: &mut String, g: char, x: usize, y: usize)
    ensures
        final(msg)@ == old(msg)@ + seq![g] + "' at "@ + decimal(x as nat) + ","@ + decimal(y as nat),
{
    crate::util::decimal::string_push(msg, g);
    string_push_str(msg, "' at ");
    let xs = format_u64(x as u64);
    string_push_str(msg, xs.as_str());
    string_push_str(msg, ",");
    let ys = format_u64(y as u64);
    string_push_str(msg, ys.as_str());
    assert(msg@ =~= old(msg)@ + seq![g] + "' at "@ + decimal(x as nat) + ","@ + decimal(y as nat));
}

fn glyph_problem(x: usize, y: usize, g: char, table: &Vec<EntityId>) -> (r: Option<String>)
    requires
        table@.len() == 52,
    ensures
        r matches Some(m) ==> glyph_error(x as int, y as int, g, table@) == Some(m@),
        r is None ==> glyph_error(x as int, y as int, g, table@) is None,
{
    if g == '.' || g == '~' || g == '#' {
        return None;
    }
    match letter_slot_of(g) {
        Some(slot) => {
            if table[slot] != EntityId::null() {
                None
            } else {
                let mut msg = String::new();
                string_push_str(&mut msg, "glyph '");
                push_place(&mut msg, g, x, y);
                string_push_str(&mut msg, " has no legend");
                assert(msg@ =~= "glyph '"@ + seq![g] + "' at "@ + decimal(x as nat) + ","@ + decimal(y as nat) + " has no legend"@);
                Some(msg)
            }
        },
        None => {
            let mut msg = String::new();
            string_push_str(&mut msg, "unknown glyph '");
            push_place(&mut msg, g, x, y);
            assert(msg@ =~= "unknown glyph '"@ + seq![g] + "' at "@ + decimal(x as nat) + ","@ + decimal(y as nat));
            Some(msg)
        },
    }
}

fn note_anchor(anchors: &mut Vec<(EntityId, CellPos)>, c: Cell, x: u32, y: u32)
    ensures
        final(anchors)@ == (if c.terrain == Terrain::Settlement && !(exists|i: int|
            0 <= i < old(anchors)@.len() && (#[trigger] old(anchors)@[i]).0 == c.settlement) {
            old(anchors)@.push((c.settlement, CellPos { x, y }))
        } else {
            old(anchors)@
        }),
{
    if c.terrain != Terrain::Settlement {
        return;
    }
    let mut i: usize = 0;
    while i < anchors.len()
        invariant
            i <= anchors@.len(),
            anchors@ == old(anchors)@,
            forall|j: int| 0 <= j < i ==> (#[trigger] anchors@[j]).0 != c.settlement,
        decreases anchors@.len() - i,
    {
        if anchors[i].0 == c.settlement {
            assert(anchors@[i as int].0 == c.settlement);
            return;
        }
        i = i + 1;
    }
    anchors.push((c.settlement, CellPos { x, y }));
}

/// Fills row `y` of the grid: its cells, its anchors, its problems.
fn fill_row(
    rows: &Vec<Vec<char>>,
    y: usize,
    table: &Vec<EntityId>,
    width: usize,
    cells: &mut Vec<Cell>,
    anchors: &mut Vec<(EntityId, CellPos)>,
    errors: &mut Vec<String>,
    Ghost(head): Ghost<Seq<Seq<char>>>,
)
    requires
        y < rows@.len(),
        table@.len() == 52,
        width == widest(views(rows@)),
        width * rows@.len() <= u32::MAX,
        old(cells)@.len() == width * rows@.len(),
        forall|x: int, y2: int|
            0 <= x < width && 0 <= y2 < rows@.len() ==> old(cells)@[#[trigger] grid_index(x, y2, width as int)]
                == filled(views(rows@), table@, x, y2, 0, y as int),
        old(anchors)@ == glyph_anchors(grid_glyphs(views(rows@).take(y as int)), table@),
        texts(old(errors)@) == head + glyph_errors(grid_glyphs(views(rows@).take(y as int)), table@),
    ensures
        final(cells)@.len() == width * rows@.len(),
        forall|x: int, y2: int|
            0 <= x < width && 0 <= y2 < rows@.len() ==> final(cells)@[#[trigger] grid_index(x, y2, width as int)]
                == filled(views(rows@), table@, x, y2, 0, y + 1),
        final(anchors)@ == glyph_anchors(grid_glyphs(views(rows@).take(y + 1)), table@),
        texts(final(errors)@) == head + glyph_errors(grid_glyphs(views(rows@).take(y + 1)), table@),
{
    let ghost v = views(rows@);
    let ghost h = rows@.len() as int;
    let row = &rows[y];
    let ghost base = grid_glyphs(v.take(y as int));
    proof {
        lemma_grid_index(width as int, h);
        lemma_widest(v, y as int);
        assert(row@ == v[y as int]);
        assert(row@.take(0) =~= Seq::<char>::empty());
        assert(base + row_glyphs(row@.take(0), y as int) =~= base);
        assert forall|x: int, y2: int| 0 <= x < width && 0 <= y2 < h implies filled(v, table@, x, y2, 0, y as int)
            == filled(v, table@, x, y2, 0 as int, y as int) by {}
    }
    let mut x: usize = 0;
    while x < row.len()
        invariant
            v == views(rows@),
            h == rows@.len(),
            y < h,
            row@ == v[y as int],
            row@.len() <= width,
            table@.len() == 52,
            width * h <= u32::MAX,
            x <= row@.len(),
            cells@.len() == width * h,
            forall|x1: int, y1: int| 0 <= x1 < width && 0 <= y1 < h ==> 0 <= #[trigger] grid_index(x1, y1, width as int) < width * h,
            forall|x1: int, y1: int, x2: int, y2: int|
                0 <= x1 < width && 0 <= y1 < h && 0 <= x2 < width && 0 <= y2 < h && #[trigger] grid_index(x1, y1, width as int)
                    == #[trigger] grid_index(x2, y2, width as int) ==> x1 == x2 && y1 == y2,
            forall|x2: int, y2: int|
                0 <= x2 < width && 0 <= y2 < h ==> cells@[#[trigger] grid_index(x2, y2, width as int)] == filled(v, table@, x2, y2, x as int, y as int),
            anchors@ == glyph_anchors(base + row_glyphs(row@.take(x as int), y as int), table@),
            texts(errors@) == head + glyph_errors(base + row_glyphs(row@.take(x as int), y as int), table@),
        decreases row@.len() - x,
    {
        let g = row[x];
        let ghost done = base + row_glyphs(row@.take(x as int), y as int);
        proof {
            assert(row@.take(x + 1).drop_last() =~= row@.take(x as int));
            assert(row_glyphs(row@.take(x + 1), y as int) == row_glyphs(row@.take(x as int), y as int).push((x as int, y as int, g)));
            assert(base + row_glyphs(row@.take(x + 1), y as int) =~= done.push((x as int, y as int, g)));
            assert(done.push((x as int, y as int, g)).drop_last() =~= done);
            assert(grid_index(x as int, y as int, width as int) < width * h);
        }
        let cell = glyph_to_cell(g, table);
        let i = y * width + x;
        cells.set(i, cell);
        proof {
            assert forall|x2: int, y2: int|
                0 <= x2 < width && 0 <= y2 < h implies cells@[#[trigger] grid_index(x2, y2, width as int)] == filled(v, table@, x2, y2, x + 1, y as int) by {
                if x2 == x && y2 == y {
                    assert(cells@[grid_index(x2, y2, width as int)] == cell);
                } else {
                    assert(grid_index(x2, y2, width as int) != grid_index(x as int, y as int, width as int));
                }
            }
        }
        note_anchor(anchors, cell, x as u32, y as u32);
        let problem = glyph_problem(x, y, g, table);
        match problem {
            Some(msg) => {
                let ghost before = errors@;
                errors.push(msg);
                assert(texts(errors@) =~= texts(before).push(msg@));
            },
            None => {},
        }
        proof {
            let next = done.push((x as int, y as int, g));
            assert(texts(errors@) =~= head + glyph_errors(next, table@));
        }
        x = x + 1;
    }
    proof {
        assert(row@.take(row@.len() as int) =~= row@);
        assert(v.take(y + 1).drop_last() =~= v.take(y as int));
        assert(v.take(y + 1).last() == row@);
        assert(grid_glyphs(v.take(y + 1)) == base + row_glyphs(row@, y as int));
        assert forall|x2: int, y2: int|
            0 <= x2 < width && 0 <= y2 < h implies cells@[#[trigger] grid_index(x2, y2, width as int)] == filled(v, table@, x2, y2, 0, y + 1) by {
            if y2 == y && x2 >= row@.len() {
                assert(filled(v, table@, x2, y2, x as int, y as int) == void_cell());
            }
        }
    }
}

/// Every row is at most as long as the widest.
proof fn lemma_widest(rows: Seq<Seq<char>>, y: int)
    requires
        0 <= y < rows.len(),
    ensures
        rows[y].len() <= widest(rows),
    decreases rows.len(),
{
    if y < rows.len() - 1 {
        lemma_widest(rows.drop_last(), y);
    }
}

/// Every legend line holds an `=`.
proof fn lemma_legend_lines_have_equals(lines: Seq<Seq<char>>)
    ensures
        forall|i: int| 0 <= i < legend_lines(lines).len() ==> (#[trigger] legend_lines(lines)[i]).contains('='),
    decreases lines.len(),
{
    if lines.len() > 0 {
        lemma_legend_lines_have_equals(lines.drop_last());
        let p = legend_lines(lines.drop_last());
        assert forall|i: int| 0 <= i < legend_lines(lines).len() implies (#[trigger] legend_lines(lines)[i]).contains('=') by {
            if i < p.len() {
                assert(legend_lines(lines)[i] == p[i]);
            }
        }
    }
}

impl WorldMap {
    /// Parses map text. `resolve` turns a legend entry's data key into the
    /// settlement spawned for it, or `None` if the key is unknown. Legend
    /// lines are read first, so rows may use letters defined below them;
    /// rows lose their common indentation, so the text can sit indented.
    /// Problems come back as messages — legend ones first, then the grid's
    /// in row-major order — and broken cells parse to the void.
    pub fn parse<F: Fn(&str) -> Option<EntityId>>(source: &str, resolve: F) -> (r: (WorldMap, Vec<String>))
        requires
            lookup_ok(resolve),
            map_text_ok(source@),
        ensures
            r.0.wf(),
            r.0.grid_width() == widest(map_rows(source@)),
            r.0.grid_height() == map_rows(source@).len(),
            forall|x: int, y: int|
                0 <= x < r.0.grid_width() && 0 <= y < r.0.grid_height() ==> #[trigger] r.0.cell_at(x, y) == grid_cell(
                    map_rows(source@),
                    read_legend(resolve, legend_lines(text_lines(source@))).0,
                    x,
                    y,
                ),
            r.0.anchor_seq() == centered(
                r.0.cells(),
                r.0.grid_width() as int,
                glyph_anchors(grid_glyphs(map_rows(source@)), read_legend(resolve, legend_lines(text_lines(source@))).0),
            ),
            texts(r.1@) == read_legend(resolve, legend_lines(text_lines(source@))).1 + glyph_errors(
                grid_glyphs(map_rows(source@)),
                read_legend(resolve, legend_lines(text_lines(source@))).0,
            ),
    {
        let text = chars_of(source);
        let (legend, raw_rows) = split_map_text(&text);
        proof {
            lemma_legend_lines_have_equals(text_lines(source@));
            assert forall|i: int| 0 <= i < legend@.len() implies (#[trigger] legend@[i])@.contains('=') by {
                assert(views(legend@)[i] == legend@[i]@);
            }
        }
        let (table, mut errors) = read_legend_lines(&legend, &resolve);
        let ghost head = texts(errors@);
        let rows = dedent_rows(&raw_rows);
        let ghost v = views(rows@);
        let width = widest_row(&rows);
        let height = rows.len();
        proof {
            assert(v == map_rows(source@));
            assert(v.len() == rows@.len());
            lemma_legend_table_len(resolve, legend_lines(text_lines(source@)));
            if height > 0 {
                lemma_widest(v, 0);
                assert(width * height >= width) by (nonlinear_arith)
                    requires
                        height >= 1,
                ;
            }
        }
        let total = width * height;
        let mut cells: Vec<Cell> = Vec::new();
        let mut n: usize = 0;
        while n < total
            invariant
                n <= total,
                cells@.len() == n,
                forall|i: int| 0 <= i < n ==> #[trigger] cells@[i] == void_cell(),
            decreases total - n,
        {
            cells.push(Cell::default());
            n = n + 1;
        }
        let mut anchors: Vec<(EntityId, CellPos)> = Vec::new();
        proof {
            lemma_grid_index(width as int, height as int);
            assert(v.take(0) =~= Seq::<Seq<char>>::empty());
            assert(texts(errors@) =~= head + glyph_errors(grid_glyphs(v.take(0)), table@));
            assert(anchors@ =~= glyph_anchors(grid_glyphs(v.take(0)), table@));
        }
        let mut y: usize = 0;
        while y < height
            invariant
                v == views(rows@),
                height == rows@.len(),
                y <= height,
                table@.len() == 52,
                width == widest(v),
                width * height <= u32::MAX,
                cells@.len() == width * height,
                forall|x: int, y2: int|
                    0 <= x < width && 0 <= y2 < height ==> cells@[#[trigger] grid_index(x, y2, width as int)]
                        == filled(v, table@, x, y2, 0, y as int),
                anchors@ == glyph_anchors(grid_glyphs(v.take(y as int)), table@),
                texts(errors@) == head + glyph_errors(grid_glyphs(v.take(y as int)), table@),
            decreases height - y,
        {
            fill_row(&rows, y, &table, width, &mut cells, &mut anchors, &mut errors, Ghost(head));
            y = y + 1;
        }
        proof {
            assert(v.take(height as int) =~= v);
            assert forall|i: int, j: int| 0 <= i < j < anchors@.len() implies (#[trigger] anchors@[i]).0 != (#[trigger] anchors@[j]).0 by {
                lemma_anchors_distinct(grid_glyphs(v), table@, i, j);
            }
        }
        let mut map = WorldMap { width: width as u32, height: height as u32, cells, anchors };
        let ghost firsts = map.anchors@;
        map.center_anchors();
        proof {
            assert forall|x: int, y2: int| 0 <= x < map.grid_width() && 0 <= y2 < map.grid_height() implies #[trigger] map.cell_at(x, y2)
                == grid_cell(v, table@, x, y2) by {
                assert(map.cells()[grid_index(x, y2, width as int)] == filled(v, table@, x, y2, 0, height as int));
            }
        }
        (map, errors)
    }
}

impl WorldMap {
    /// The run of `id`'s cells rightward from (`x`, `y`).
    fn run_length(&self, x: u32, y: u32, id: EntityId) -> (n: u32)
        requires
            self.wf(),
            y < self.grid_height(),
        ensures
            n == run_from(self.cells(), self.grid_width() as int, x as int, y as int, id),
            x < self.grid_width() ==> x + n <= self.grid_width(),
            x >= self.grid_width() ==> n == 0,
    {
        let mut k = x;
        proof {
            assert(self.grid_width() * self.grid_height() <= u32::MAX);
        }
        let mut going = true;
        while going && k < self.width
            invariant
                self.wf(),
                y < self.grid_height(),
                x <= k,
                x < self.grid_width() ==> k <= self.grid_width(),
                x >= self.grid_width() ==> k == x,
                run_from(self.cells(), self.grid_width() as int, x as int, y as int, id) == (k - x) + if going {
                    run_from(self.cells(), self.grid_width() as int, k as int, y as int, id)
                } else {
                    0
                },
            decreases self.grid_width() - k, if going { 1int } else { 0int },
        {
            proof {
                assert((y as int) * (self.width as int) + (k as int) < self.grid_width() * self.grid_height()) by (nonlinear_arith)
                    requires
                        y < self.grid_height(),
                        k < self.grid_width(),
                        self.width == self.grid_width(),
                ;
            }
            let idx = (y as usize) * (self.width as usize) + (k as usize);
            if self.cells[idx].settlement == id {
                k = k + 1;
            } else {
                going = false;
            }
        }
        proof {
            if going && k >= self.grid_width() {
                assert(run_from(self.cells(), self.grid_width() as int, k as int, y as int, id) == 0);
            }
        }
        k - x
    }

    /// Moves every anchor from its blob's first cell to the blob's center.
    fn center_anchors(&mut self)
        requires
            old(self).wf(),
        ensures
            final(self).wf(),
            final(self).grid_width() == old(self).grid_width(),
            final(self).grid_height() == old(self).grid_height(),
            final(self).cells() == old(self).cells(),
            final(self).anchor_seq() == centered(old(self).cells(), old(self).grid_width() as int, old(self).anchor_seq()),
    {
        let ghost firsts = self.anchors@;
        let mut i: usize = 0;
        while i < self.anchors.len()
            invariant
                self.wf(),
                self.cells() == old(self).cells(),
                self.width == old(self).width,
                self.height == old(self).height,
                self.anchors@.len() == firsts.len(),
                firsts == old(self).anchor_seq(),
                i <= firsts.len(),
                forall|j: int| 0 <= j < firsts.len() ==> (#[trigger] self.anchors@[j]).0 == firsts[j].0,
                forall|j: int| i <= j < firsts.len() ==> #[trigger] self.anchors@[j] == firsts[j],
                forall|j: int|
                    0 <= j < i ==> #[trigger] self.anchors@[j] == (firsts[j].0, blob_center(
                        self.cells(),
                        self.grid_width() as int,
                        firsts[j].1,
                        firsts[j].0,
                    )),
            decreases firsts.len() - i,
        {
            let (id, first) = self.anchors[i];
            let mut center = first;
            if first.y < self.height {
                let side = self.run_length(first.x, first.y, id);
                let half = if side == 0 { 0 } else { (side - 1) / 2 };
                proof {
                    if side > 0 {
                        assert(first.x + half < self.grid_width());
                        assert(first.y + half <= u32::MAX) by (nonlinear_arith)
                            requires
                                first.y < self.grid_height(),
                                half < self.grid_width(),
                                self.grid_width() * self.grid_height() <= u32::MAX,
                        ;
                    }
                }
                center = CellPos { x: first.x + half, y: first.y + half };
            } else {
                proof {
                    assert(run_from(self.cells(), self.grid_width() as int, first.x as int, first.y as int, id) == 0) by {
                        if 0 <= first.x < self.grid_width() {
                            assert(first.y * self.grid_width() + first.x >= self.grid_width() * self.grid_height()) by (nonlinear_arith)
                                requires
                                    first.y >= self.grid_height(),
                                    first.x >= 0,
                                    self.grid_width() >= 0,
                            ;
                        }
                        reveal_with_fuel(run_from, 1);
                    }
                }
            }
            let ghost pre = *self;
            self.anchors.set(i, (id, center));
            proof {
                assert forall|a: int, b: int| 0 <= a < b < self.anchor_seq().len() implies (#[trigger] self.anchor_seq()[a]).0
                    != (#[trigger] self.anchor_seq()[b]).0 by {
                    assert(pre.anchor_seq()[a].0 != pre.anchor_seq()[b].0);
                    assert(self.anchor_seq()[a].0 == pre.anchor_seq()[a].0);
                    assert(self.anchor_seq()[b].0 == pre.anchor_seq()[b].0);
                }
            }
            i = i + 1;
        }
        proof {
            assert(self.anchor_seq() =~= centered(old(self).cells(), old(self).grid_width() as int, old(self).anchor_seq()));
        }
    }
}

/// The legend always has its 52 slots.
proof fn lemma_legend_table_len<F: Fn(&str) -> Option<EntityId>>(resolve: F, lines: Seq<Seq<char>>)
    ensures
        read_legend(resolve, lines).0.len() == 52,
    decreases lines.len(),
{
    if lines.len() > 0 {
        lemma_legend_table_len(resolve, lines.drop_last());
    }
}

/// No settlement is anchored twice.
proof fn lemma_anchors_distinct(glyphs: Seq<(int, int, char)>, table: Seq<EntityId>, i: int, j: int)
    requires
        0 <= i < j < glyph_anchors(glyphs, table).len(),
    ensures
        glyph_anchors(glyphs, table)[i].0 != glyph_anchors(glyphs, table)[j].0,
    decreases glyphs.len(),
{
    let p = glyph_anchors(glyphs.drop_last(), table);
    if j < p.len() {
        lemma_anchors_distinct(glyphs.drop_last(), table, i, j);
    } else {
        assert(p[i] == glyph_anchors(glyphs, table)[i]);
    }
}

} // verus!
