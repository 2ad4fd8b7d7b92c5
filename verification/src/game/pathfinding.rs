//! Route queries over the map: "standing here, headed there — where do I
//! step next?" Derived data, not world state: the memo lives beside the
//! world and rebuilds from nothing.

use vstd::prelude::*;
use std::collections::HashMap;
use rustc_hash::FxBuildHasher;
use crate::game::map::{Cell, CellPos, WorldMap, cell_bits, cell_of_bits, void_cell};
use crate::entities::uvars::Bits64;

verus! {

/// The Fx hash builder, for the route memo.
#[verifier::external_type_specification]
#[verifier::external_body]
pub struct ExFxBuildHasher(FxBuildHasher);

/// The memo's key for "from `a`, headed to `b`".
pub open spec fn route_key(a: CellPos, b: CellPos) -> (u64, u64) {
    (cell_bits(a), cell_bits(b))
}

/// The memo that has answered nothing.
pub open spec fn no_answers() -> Map<(u64, u64), CellPos> {
    Map::empty()
}

/// The memo's answer for `key`, if any (`HashMap::get` under the Fx
/// hasher, which hashes each key the same way every time).
#[verifier::external_body]
fn memo_get(m: &HashMap<(u64, u64), CellPos, FxBuildHasher>, key: (u64, u64)) -> (r: Option<CellPos>)
    ensures
        r == (if m@.contains_key(key) {
            Some(m@[key])
        } else {
            None
        }),
{
    m.get(&key).copied()
}

/// Files `value` under `key`, replacing what was there (`HashMap::insert`).
#[verifier::external_body]
fn memo_insert(m: &mut HashMap<(u64, u64), CellPos, FxBuildHasher>, key: (u64, u64), value: CellPos)
    ensures
        final(m)@ == old(m)@.insert(key, value),
{
    m.insert(key, value);
}

/// How many questions the memo holds (`HashMap::len`).
#[verifier::external_body]
fn memo_len(m: &HashMap<(u64, u64), CellPos, FxBuildHasher>) -> (n: usize)
    requires
        m@.dom().finite(),
    ensures
        n == m@.dom().len(),
{
    m.len()
}

/// Forgets every answer (`HashMap::clear`).
#[verifier::external_body]
fn memo_clear(m: &mut HashMap<(u64, u64), CellPos, FxBuildHasher>)
    ensures
        final(m)@ == no_answers(),
{
    m.clear();
}

/// The cells one step from `pos` — west, north, east, south, those that
/// exist — that can be entered, with what entering costs.
pub open spec fn step_options(cells: Seq<Cell>, width: u32, height: u32, pos: CellPos) -> Seq<(CellPos, u64)> {
    let candidates = (if pos.x > 0 { seq![CellPos { x: (pos.x - 1) as u32, y: pos.y }] } else { Seq::empty() })
        + (if pos.y > 0 { seq![CellPos { x: pos.x, y: (pos.y - 1) as u32 }] } else { Seq::empty() })
        + (if pos.x < u32::MAX { seq![CellPos { x: (pos.x + 1) as u32, y: pos.y }] } else { Seq::empty() })
        + (if pos.y < u32::MAX { seq![CellPos { x: pos.x, y: (pos.y + 1) as u32 }] } else { Seq::empty() });
    enterable(cells, width, height, candidates)
}

/// `b` is one of the cells one step from `a` that can be entered.
pub open spec fn steps_to(cells: Seq<Cell>, width: u32, height: u32, a: CellPos, b: CellPos) -> bool {
    exists|j: int|
        0 <= j < step_options(cells, width, height, a).len() && (#[trigger] step_options(cells, width, height, a)[j]).0 == b
}

/// What `enterable` keeps is among the candidates and can be entered.
proof fn lemma_enterable_members(cells: Seq<Cell>, width: u32, height: u32, candidates: Seq<CellPos>, j: int)
    requires
        0 <= j < enterable(cells, width, height, candidates).len(),
    ensures
        candidates.contains(enterable(cells, width, height, candidates)[j].0),
        grid_cell_at(cells, width, height, enterable(cells, width, height, candidates)[j].0).cost != 0,
    decreases candidates.len(),
{
    let prev = enterable(cells, width, height, candidates.drop_last());
    if j < prev.len() {
        lemma_enterable_members(cells, width, height, candidates.drop_last(), j);
        let k = choose|k: int| 0 <= k < candidates.drop_last().len() && candidates.drop_last()[k] == prev[j].0;
        assert(candidates[k] == prev[j].0);
    } else {
        assert(candidates[candidates.len() - 1] == candidates.last());
    }
}

/// A step goes to another cell, one that can be entered.
pub proof fn lemma_step_facts(cells: Seq<Cell>, width: u32, height: u32, a: CellPos, b: CellPos)
    requires
        steps_to(cells, width, height, a, b),
    ensures
        b != a,
        grid_cell_at(cells, width, height, b).cost != 0,
{
    let candidates = (if a.x > 0 { seq![CellPos { x: (a.x - 1) as u32, y: a.y }] } else { Seq::empty() })
        + (if a.y > 0 { seq![CellPos { x: a.x, y: (a.y - 1) as u32 }] } else { Seq::empty() })
        + (if a.x < u32::MAX { seq![CellPos { x: (a.x + 1) as u32, y: a.y }] } else { Seq::empty() })
        + (if a.y < u32::MAX { seq![CellPos { x: a.x, y: (a.y + 1) as u32 }] } else { Seq::empty() });
    let j = choose|j: int|
        0 <= j < step_options(cells, width, height, a).len() && (#[trigger] step_options(cells, width, height, a)[j]).0 == b;
    lemma_enterable_members(cells, width, height, candidates, j);
    assert(!candidates.contains(a)) by {
        if candidates.contains(a) {
            let k = choose|k: int| 0 <= k < candidates.len() && candidates[k] == a;
            assert(candidates[k] != a);
        }
    }
}

/// The cell at `p` of a `width`-wide grid, or the void off it.
pub open spec fn grid_cell_at(cells: Seq<Cell>, width: u32, height: u32, p: CellPos) -> Cell {
    if p.x < width && p.y < height {
        cells[p.y * width + p.x]
    } else {
        void_cell()
    }
}

/// The candidates that can be entered, each with its cost.
pub open spec fn enterable(cells: Seq<Cell>, width: u32, height: u32, candidates: Seq<CellPos>) -> Seq<(CellPos, u64)>
    decreases candidates.len(),
{
    if candidates.len() == 0 {
        Seq::empty()
    } else {
        let prev = enterable(cells, width, height, candidates.drop_last());
        let c = candidates.last();
        let cost = grid_cell_at(cells, width, height, c).cost;
        if cost != 0 {
            prev.push((c, cost as u64))
        } else {
            prev
        }
    }
}

/// The cells one step from `pos` that can be entered, with their costs.
pub fn successors(map: &WorldMap, pos: CellPos) -> (r: Vec<(CellPos, u64)>)
    requires
        map.wf(),
    ensures
        r@ == step_options(map.cells(), map.grid_width(), map.grid_height(), pos),
{
    let mut candidates: Vec<CellPos> = Vec::new();
    if pos.x > 0 {
        candidates.push(CellPos { x: pos.x - 1, y: pos.y });
    }
    if pos.y > 0 {
        candidates.push(CellPos { x: pos.x, y: pos.y - 1 });
    }
    if pos.x < u32::MAX {
        candidates.push(CellPos { x: pos.x + 1, y: pos.y });
    }
    if pos.y < u32::MAX {
        candidates.push(CellPos { x: pos.x, y: pos.y + 1 });
    }
    let ghost all = (if pos.x > 0 { seq![CellPos { x: (pos.x - 1) as u32, y: pos.y }] } else { Seq::empty() })
        + (if pos.y > 0 { seq![CellPos { x: pos.x, y: (pos.y - 1) as u32 }] } else { Seq::empty() })
        + (if pos.x < u32::MAX { seq![CellPos { x: (pos.x + 1) as u32, y: pos.y }] } else { Seq::empty() })
        + (if pos.y < u32::MAX { seq![CellPos { x: pos.x, y: (pos.y + 1) as u32 }] } else { Seq::empty() });
    assert(candidates@ =~= all);
    let mut out: Vec<(CellPos, u64)> = Vec::new();
    let mut i: usize = 0;
    while i < candidates.len()
        invariant
            map.wf(),
            i <= candidates@.len(),
            out@ == enterable(map.cells(), map.grid_width(), map.grid_height(), candidates@.take(i as int)),
        decreases candidates@.len() - i,
    {
        let c = candidates[i];
        let cell = map.cell(c);
        proof {
            map.lemma_cell_at(c);
            assert(candidates@.take(i + 1).drop_last() =~= candidates@.take(i as int));
        }
        if cell.cost != 0 {
            out.push((c, cell.cost as u64));
        }
        i = i + 1;
    }
    assert(candidates@.take(candidates@.len() as int) =~= candidates@);
    out
}

/// Steps left between `pos` and `to` if every step cost 1: the Manhattan
/// distance, which a 64-bit count always holds. Admissible because every
/// enterable cell costs at least 1.
pub fn manhattan(pos: CellPos, to: CellPos) -> (d: u64)
    ensures
        d == (if pos.x >= to.x { pos.x - to.x } else { to.x - pos.x }) + (if pos.y >= to.y { pos.y - to.y } else { to.y - pos.y }),
{
    let dx = if pos.x >= to.x { pos.x - to.x } else { to.x - pos.x };
    let dy = if pos.y >= to.y { pos.y - to.y } else { to.y - pos.y };
    dx as u64 + dy as u64
}

/// Whether `pos` is the goal `to`.
pub fn same_cell(pos: CellPos, to: CellPos) -> (b: bool)
    ensures
        b == (pos == to),
{
    pos == to
}

/// The cheapest route that pathfinding's A* finds over the grid from
/// `from` to `to`, both ends included; `None` when `to` can't be reached.
/// Which of several equally cheap routes comes back is A*'s business.
pub uninterp spec fn astar_route(cells: Seq<Cell>, width: u32, height: u32, from: CellPos, to: CellPos) -> Option<Seq<CellPos>>;

/// One A* (pathfinding's `astar`) over the grid: 4-connected, a cell is
/// enterable iff its cost is nonzero and that cost prices the step in,
/// steered by the Manhattan distance; costs and estimates are 64-bit, so
/// no sum the search forms can overflow (a route costs at most 255 per
/// cell of a grid under 2^32 cells, an estimate under 2^33). Claimed of it,
/// as its documentation gives: the result is a function of the grid and the
/// two ends, and a route found starts at `from`, ends at `to`, never visits
/// a cell twice, and steps each time to one of `successors`' cells. That
/// the route is a cheapest one is left unsaid: stating it would mean
/// writing out every route's cost against A*'s own search.
#[verifier::external_body]
fn find_route(map: &WorldMap, from: CellPos, to: CellPos) -> (r: Option<Vec<CellPos>>)
    requires
        map.wf(),
    ensures
        match r {
            Some(route) => astar_route(map.cells(), map.grid_width(), map.grid_height(), from, to) == Some(route@),
            None => astar_route(map.cells(), map.grid_width(), map.grid_height(), from, to) is None,
        },
        r matches Some(route) ==> {
            &&& route@.len() >= 1
            &&& route@[0] == from
            &&& route@.last() == to
            &&& route@.no_duplicates()
            &&& forall|k: int|
                0 <= k < route@.len() - 1 ==> #[trigger] steps_to(
                    map.cells(),
                    map.grid_width(),
                    map.grid_height(),
                    route@[k],
                    route@[k + 1],
                )
        },
{
    pathfinding::prelude::astar(&from, |p: &CellPos| successors(map, *p), |p: &CellPos| manhattan(*p, to), |p: &CellPos| same_cell(*p, to))
        .map(|(route, _cost)| route)
}

/// The memo after filing every hop of `route` toward `to`: each cell of the
/// route answers with the next one.
pub open spec fn seed_hops(m: Map<(u64, u64), CellPos>, route: Seq<CellPos>, to: CellPos) -> Map<(u64, u64), CellPos>
    decreases route.len(),
{
    if route.len() < 2 {
        m
    } else {
        seed_hops(m, route.drop_last(), to).insert(route_key(route[route.len() - 2], to), route.last())
    }
}

/// Answering "from `from`, headed to `to`" against memo `m`: the memo and the
/// answer afterwards. A memo hit answers as filed; otherwise a full memo
/// clears first, then one A* seeds every hop of the route it finds — the
/// goal itself answering "no move" — or files "no move" for an unreachable
/// goal.
pub open spec fn answer(
    m: Map<(u64, u64), CellPos>,
    cells: Seq<Cell>,
    width: u32,
    height: u32,
    from: CellPos,
    to: CellPos,
) -> (Map<(u64, u64), CellPos>, CellPos) {
    let key = route_key(from, to);
    let nowhere = CellPos { x: 0, y: 0 };
    if m.contains_key(key) {
        (m, m[key])
    } else {
        let base = if m.dom().len() >= 65536 { Map::empty() } else { m };
        match astar_route(cells, width, height, from, to) {
            Some(route) => {
                let seeded = seed_hops(base, route, to).insert(route_key(to, to), nowhere);
                (seeded, seeded[key])
            },
            None => (base.insert(key, nowhere), nowhere),
        }
    }
}

/// An answer the memo may hold for "from `from`, headed to `to`": a cell
/// one enterable step from `from`, or no move when `from` is the goal or
/// the goal cannot be reached.
pub open spec fn hop_ok(cells: Seq<Cell>, width: u32, height: u32, from: CellPos, to: CellPos, next: CellPos) -> bool {
    ||| steps_to(cells, width, height, from, next)
    ||| next == (CellPos { x: 0, y: 0 }) && (from == to || astar_route(cells, width, height, from, to) is None)
}

/// Every answer memo `m` holds is one `map` allows.
pub open spec fn memo_consistent(m: Map<(u64, u64), CellPos>, map: &WorldMap) -> bool {
    forall|k: (u64, u64)|
        #[trigger] m.contains_key(k) ==> hop_ok(
            map.cells(),
            map.grid_width(),
            map.grid_height(),
            cell_of_bits(k.0),
            cell_of_bits(k.1),
            m[k],
        )
}

/// The route oracle. Callers stay stateless — an entity re-asks from its
/// current cell every step and stores nothing; the memo of answered
/// questions is this object's business. One A* seeds every hop of the
/// found route, so the rest of the journey answers from the memo. The memo
/// assumes the map never changes; if it does, [`Pathfinding::clear`].
pub struct Pathfinding {
    cache: HashMap<(u64, u64), CellPos, FxBuildHasher>,
}

/// The memo's entry cap: past it, the whole memo clears and rebuilds from
/// use.
pub const MAX_ENTRIES: usize = 65_536;

impl Pathfinding {
    /// The answered questions: (from, to) keys to next cells.
    pub closed spec fn memo(&self) -> Map<(u64, u64), CellPos> {
        self.cache@
    }

    pub closed spec fn wf(&self) -> bool {
        self.cache@.dom().finite()
    }

    /// Every answer the memo holds is one `map` allows.
    pub open spec fn consistent(&self, map: &WorldMap) -> bool {
        memo_consistent(self.memo(), map)
    }

    /// An oracle that has answered nothing yet.
    pub fn new() -> (p: Pathfinding)
        ensures
            p.wf(),
            p.memo() == no_answers(),
    {
        Pathfinding { cache: HashMap::default() }
    }

    /// The next cell on the route A* finds from `from` to `to`; the zero
    /// cell = nowhere to go (unreachable, or `from` is `to`).
    pub fn next_step(&mut self, map: &WorldMap, from: CellPos, to: CellPos) -> (next: CellPos)
        requires
            old(self).wf(),
            map.wf(),
        ensures
            final(self).wf(),
            (final(self).memo(), next) == answer(old(self).memo(), map.cells(), map.grid_width(), map.grid_height(), from, to),
            old(self).consistent(map) ==> final(self).consistent(map) && hop_ok(
                map.cells(),
                map.grid_width(),
                map.grid_height(),
                from,
                to,
                next,
            ),
    {
        proof {
            <CellPos as Bits64>::lemma_round_trip(from);
            <CellPos as Bits64>::lemma_round_trip(to);
        }
        let key = (Bits64::to_bits(from), Bits64::to_bits(to));
        if let Some(next) = memo_get(&self.cache, key) {
            return next;
        }
        if memo_len(&self.cache) >= MAX_ENTRIES {
            memo_clear(&mut self.cache);
        }
        let ghost base = self.cache@;
        proof {
            if old(self).consistent(map) {
                assert forall|k: (u64, u64)| #[trigger] self.cache@.contains_key(k) implies hop_ok(
                    map.cells(),
                    map.grid_width(),
                    map.grid_height(),
                    cell_of_bits(k.0),
                    cell_of_bits(k.1),
                    self.cache@[k],
                ) by {
                    assert(old(self).cache@.contains_key(k));
                }
            }
        }
        match find_route(map, from, to) {
            Some(route) => {
                let mut i: usize = 1;
                proof {
                    assert(route@.take(1).len() == 1);
                }
                while i < route.len()
                    invariant
                        1 <= i <= route@.len(),
                        self.cache@ == seed_hops(base, route@.take(i as int), to),
                        base.dom().finite(),
                        old(self).consistent(map) ==> self.consistent(map),
                        forall|k: int|
                            0 <= k < route@.len() - 1 ==> #[trigger] steps_to(
                                map.cells(),
                                map.grid_width(),
                                map.grid_height(),
                                route@[k],
                                route@[k + 1],
                            ),
                    decreases route@.len() - i,
                {
                    let hop = (Bits64::to_bits(route[i - 1]), Bits64::to_bits(to));
                    let ghost pre = self.cache@;
                    memo_insert(&mut self.cache, hop, route[i]);
                    proof {
                        <CellPos as Bits64>::lemma_round_trip(route@[i - 1]);
                        let kk = i - 1;
                        assert(steps_to(map.cells(), map.grid_width(), map.grid_height(), route@[kk as int], route@[kk + 1]));
                        if old(self).consistent(map) {
                            assert forall|k: (u64, u64)| #[trigger] self.cache@.contains_key(k) implies hop_ok(
                                map.cells(),
                                map.grid_width(),
                                map.grid_height(),
                                cell_of_bits(k.0),
                                cell_of_bits(k.1),
                                self.cache@[k],
                            ) by {
                                if k != hop {
                                    assert(pre.contains_key(k));
                                }
                            }
                        }
                    }
                    proof {
                        let t = route@.take(i + 1);
                        assert(t.drop_last() =~= route@.take(i as int));
                        assert(t[t.len() - 2] == route@[i - 1]);
                    }
                    i = i + 1;
                }
                assert(route@.take(route@.len() as int) =~= route@);
                let ghost pre = self.cache@;
                memo_insert(&mut self.cache, (Bits64::to_bits(to), Bits64::to_bits(to)), CellPos::default());
                proof {
                    lemma_seed_hops_finite(base, route@, to);
                    if route@.len() >= 2 {
                        lemma_seed_hops_has_start(base, route@, to);
                    } else {
                        assert(from == to);
                    }
                    if old(self).consistent(map) {
                        assert forall|k: (u64, u64)| #[trigger] self.cache@.contains_key(k) implies hop_ok(
                            map.cells(),
                            map.grid_width(),
                            map.grid_height(),
                            cell_of_bits(k.0),
                            cell_of_bits(k.1),
                            self.cache@[k],
                        ) by {
                            if k != route_key(to, to) {
                                assert(pre.contains_key(k));
                            }
                        }
                    }
                }
                match memo_get(&self.cache, key) {
                    Some(next) => next,
                    None => {
                        proof {
                            assert(self.memo().contains_key(key));
                        }
                        CellPos::default()
                    },
                }
            },
            None => {
                let ghost pre = self.cache@;
                memo_insert(&mut self.cache, key, CellPos::default());
                proof {
                    if old(self).consistent(map) {
                        assert forall|k: (u64, u64)| #[trigger] self.cache@.contains_key(k) implies hop_ok(
                            map.cells(),
                            map.grid_width(),
                            map.grid_height(),
                            cell_of_bits(k.0),
                            cell_of_bits(k.1),
                            self.cache@[k],
                        ) by {
                            if k != key {
                                assert(pre.contains_key(k));
                            }
                        }
                    }
                }
                CellPos::default()
            },
        }
    }

    /// Forgets every answered question, for when the map changes under the
    /// memo.
    pub fn clear(&mut self)
        ensures
            final(self).wf(),
            final(self).memo() == no_answers(),
    {
        memo_clear(&mut self.cache);
    }

    /// How many answered questions the memo holds.
    pub fn len(&self) -> (n: usize)
        requires
            self.wf(),
        ensures
            n == self.memo().dom().len(),
    {
        memo_len(&self.cache)
    }
}

impl Default for Pathfinding {
    fn default() -> (p: Pathfinding)
        ensures
            p.wf(),
            p.memo() == no_answers(),
    {
        Pathfinding::new()
    }
}

proof fn lemma_seed_hops_finite(m: Map<(u64, u64), CellPos>, route: Seq<CellPos>, to: CellPos)
    requires
        m.dom().finite(),
    ensures
        seed_hops(m, route, to).dom().finite(),
    decreases route.len(),
{
    if route.len() >= 2 {
        lemma_seed_hops_finite(m, route.drop_last(), to);
    }
}

/// Seeding a route that starts at `from` files an answer for `from`, unless
/// the route is the single cell `to`.
proof fn lemma_seed_hops_has_start(m: Map<(u64, u64), CellPos>, route: Seq<CellPos>, to: CellPos)
    requires
        route.len() >= 2,
    ensures
        seed_hops(m, route, to).contains_key(route_key(route[0], to)),
    decreases route.len(),
{
    if route.len() > 2 {
        lemma_seed_hops_has_start(m, route.drop_last(), to);
    }
}

} // verus!
