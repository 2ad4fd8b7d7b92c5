use vstd::prelude::*;
use crate::entities::defs::{Definitions, RelationId, id_range};
use crate::entities::id::{EntityId, Ids, CAPACITY};

verus! {

/// An `f32` weight, held by its bit pattern, that compares equal to zero
/// (either sign): "no relation".
pub open spec fn is_zero_bits(v: u32) -> bool {
    v & 0x7fff_ffffu32 == 0
}

/// An `f32` bit pattern that is a NaN: every exponent bit set and a
/// nonzero mantissa.
pub open spec fn is_nan_bits(v: u32) -> bool {
    v & 0x7f80_0000u32 == 0x7f80_0000u32 && v & 0x007f_ffffu32 != 0
}

/// Whether a weight compares equal to zero.
pub fn weight_is_zero(v: u32) -> (b: bool)
    ensures
        b == is_zero_bits(v),
{
    v & 0x7fff_ffffu32 == 0
}

/// Whether a weight is a NaN.
pub fn weight_is_nan(v: u32) -> (b: bool)
    ensures
        b == is_nan_bits(v),
{
    v & 0x7f80_0000u32 == 0x7f80_0000u32 && v & 0x007f_ffffu32 != 0
}

/// One weighted edge, as callers hand changes to [`Relations::rebuild`]
/// and as queries yield rows. The weight is an `f32` held by its bit
/// pattern (`f32::to_bits`). ZII: a zero weight means "no relation" — as a
/// change it is a deletion, suppressing whatever the base carried.
#[derive(Clone, Copy, PartialEq, Eq, Structural, Debug)]
pub struct RelationEntry {
    pub source: EntityId,
    pub relation: RelationId,
    pub target: EntityId,
    pub value: u32,
}

/// One stored edge; `other` is the far endpoint (the target in a forward
/// row, the source in a transposed one).
#[derive(Clone, Copy, PartialEq, Eq, Structural, Debug)]
pub struct Edge {
    pub relation: RelationId,
    pub other: EntityId,
    pub value: u32,
}

/// What an edge is keyed by within a row.
pub type EdgeKey = (u16, EntityId);

pub open spec fn edge_key(e: Edge) -> EdgeKey {
    (e.relation.0, e.other)
}

/// Row order: by relation, then by the far endpoint's slot.
pub open spec fn edge_before(a: Edge, b: Edge) -> bool {
    a.relation.0 < b.relation.0 || (a.relation.0 == b.relation.0 && a.other.idx() < b.other.idx())
}

/// A row strictly ordered by [`edge_before`]: within one relation kind no
/// two edges share a far slot.
pub open spec fn row_sorted(row: Seq<Edge>) -> bool {
    forall|i: int, j: int| 0 <= i < j < row.len() ==> edge_before(#[trigger] row[i], #[trigger] row[j])
}

/// Some edge of `row` has key `k`.
pub open spec fn row_has(row: Seq<Edge>, k: EdgeKey) -> bool {
    exists|i: int| 0 <= i < row.len() && #[trigger] edge_key(row[i]) == k
}

/// A row read as a map from key to weight.
pub open spec fn row_map(row: Seq<Edge>) -> Map<EdgeKey, u32> {
    Map::new(
        |k: EdgeKey| row_has(row, k),
        |k: EdgeKey| row[choose|i: int| 0 <= i < row.len() && #[trigger] edge_key(row[i]) == k].value,
    )
}

/// In a sorted row each key occurs once, so the map reads each edge's own
/// weight.
pub proof fn lemma_row_map(row: Seq<Edge>, i: int)
    requires
        row_sorted(row),
        0 <= i < row.len(),
    ensures
        row_map(row).contains_key(edge_key(row[i])),
        row_map(row)[edge_key(row[i])] == row[i].value,
{
    let k = edge_key(row[i]);
    assert(row_has(row, k));
    let j = choose|j: int| 0 <= j < row.len() && #[trigger] edge_key(row[j]) == k;
    if j < i {
        assert(edge_before(row[j], row[i]));
    } else if i < j {
        assert(edge_before(row[i], row[j]));
    }
}

/// A stored edge: a real weight and a far endpoint inside the slot range.
pub open spec fn edge_ok(e: Edge) -> bool {
    &&& !is_zero_bits(e.value)
    &&& (e.other.idx() as int) < CAPACITY
}

/// The edge as seen from its far end: same kind and weight, pointing back
/// at `source`.
pub open spec fn flip(e: Edge, source: EntityId) -> Edge {
    Edge { relation: e.relation, other: source, value: e.value }
}

/// `source`'s outgoing entries read from its row, in row order, skipping
/// edges whose target is no longer alive.
pub open spec fn live_outgoing(ids: &Ids, source: EntityId, row: Seq<Edge>) -> Seq<RelationEntry>
    decreases row.len(),
{
    if row.len() == 0 {
        Seq::empty()
    } else {
        let rest = live_outgoing(ids, source, row.drop_last());
        let e = row.last();
        if ids.alive(e.other) {
            rest.push(RelationEntry { source, relation: e.relation, target: e.other, value: e.value })
        } else {
            rest
        }
    }
}

/// `target`'s incoming entries read from its transposed row, in row order,
/// skipping edges whose source is no longer alive.
pub open spec fn live_incoming(ids: &Ids, target: EntityId, row: Seq<Edge>) -> Seq<RelationEntry>
    decreases row.len(),
{
    if row.len() == 0 {
        Seq::empty()
    } else {
        let rest = live_incoming(ids, target, row.drop_last());
        let e = row.last();
        if ids.alive(e.other) {
            rest.push(RelationEntry { source: e.other, relation: e.relation, target, value: e.value })
        } else {
            rest
        }
    }
}

/// The far endpoints and weights of one kind's edges in `row`, in row
/// order, skipping endpoints no longer alive.
pub open spec fn live_via(ids: &Ids, row: Seq<Edge>, relation: u16) -> Seq<(EntityId, u32)>
    decreases row.len(),
{
    if row.len() == 0 {
        Seq::empty()
    } else {
        let rest = live_via(ids, row.drop_last(), relation);
        let e = row.last();
        if e.relation.0 == relation && ids.alive(e.other) {
            rest.push((e.other, e.value))
        } else {
            rest
        }
    }
}

/// Two edges of a sorted row with the same key are the same edge.
pub proof fn lemma_sorted_key_unique(row: Seq<Edge>, i: int, j: int)
    requires
        row_sorted(row),
        0 <= i < row.len(),
        0 <= j < row.len(),
        edge_key(row[i]) == edge_key(row[j]),
    ensures
        i == j,
{
    if i < j {
        assert(edge_before(row[i], row[j]));
    } else if j < i {
        assert(edge_before(row[j], row[i]));
    }
}

/// A sorted row whose edges are exactly the entries of `m` reads as `m`.
pub proof fn lemma_row_map_eq(row: Seq<Edge>, m: Map<EdgeKey, u32>)
    requires
        row_sorted(row),
        forall|i: int|
            0 <= i < row.len() ==> m.contains_key(#[trigger] edge_key(row[i])) && m[edge_key(row[i])]
                == row[i].value,
        forall|k: EdgeKey| #[trigger] m.contains_key(k) ==> row_has(row, k),
    ensures
        row_map(row) == m,
{
    assert forall|k: EdgeKey| #[trigger] row_map(row).contains_key(k) <==> m.contains_key(k) by {
        if row_has(row, k) {
            let i = choose|i: int| 0 <= i < row.len() && #[trigger] edge_key(row[i]) == k;
            assert(m.contains_key(edge_key(row[i])));
        }
    }
    assert forall|k: EdgeKey| #[trigger] m.contains_key(k) implies row_map(row)[k] == m[k] by {
        let i = choose|i: int| 0 <= i < row.len() && #[trigger] edge_key(row[i]) == k;
        lemma_row_map(row, i);
    }
    assert(row_map(row) =~= m);
}

/// A change the rebuild accepts: a real (non-NaN) weight, a defined kind,
/// a source slot in range, and — unless it is a deletion — live endpoints.
pub open spec fn change_ok(ids: &Ids, kinds: u16, c: RelationEntry) -> bool {
    &&& !is_nan_bits(c.value)
    &&& c.relation.0 < kinds
    &&& (c.source.idx() as int) < CAPACITY
    &&& !is_zero_bits(c.value) ==> ids.alive(c.source) && ids.alive(c.target)
}

/// A carry policy the rebuild can consult: callable on every kind, and
/// answering the same way each time.
pub open spec fn policy_ok<F: Fn(RelationId) -> bool>(carries: F) -> bool {
    &&& forall|r: RelationId| call_requires(carries, (r,))
    &&& forall|r: RelationId, a: bool, b: bool|
        #![trigger call_ensures(carries, (r,), a), call_ensures(carries, (r,), b)]
        call_ensures(carries, (r,), a) && call_ensures(carries, (r,), b) ==> a == b
}

/// The policy keeps kind `r` in the carry.
pub open spec fn carried<F: Fn(RelationId) -> bool>(carries: F, r: u16) -> bool {
    call_ensures(carries, (RelationId(r),), true)
}

/// What a change is ordered by: its source, its kind, its target, each id
/// by slot and then generation.
pub type ChangeKey = (u16, u16, u16, u16, u16);

pub open spec fn change_key_spec(c: RelationEntry) -> ChangeKey {
    (c.source.idx(), c.source.gen(), c.relation.0, c.target.idx(), c.target.gen())
}

/// `a` orders no later than `b`, field by field.
pub open spec fn key_le(a: ChangeKey, b: ChangeKey) -> bool {
    a.0 < b.0 || (a.0 == b.0 && (a.1 < b.1 || (a.1 == b.1 && (a.2 < b.2 || (a.2 == b.2 && (a.3 < b.3 || (a.3 == b.3
        && a.4 <= b.4)))))))
}

/// The changes carrying key `k`, in their order.
pub open spec fn keyed(cs: Seq<RelationEntry>, k: ChangeKey) -> Seq<RelationEntry> {
    cs.filter(|c: RelationEntry| change_key_spec(c) == k)
}

/// The changes are in key order.
pub open spec fn changes_sorted(cs: Seq<RelationEntry>) -> bool {
    forall|i: int, j: int| 0 <= i < j < cs.len() ==> key_le(change_key_spec(#[trigger] cs[i]), change_key_spec(#[trigger] cs[j]))
}

/// A change's ordering key.
pub fn change_key(c: &RelationEntry) -> (k: ChangeKey)
    ensures
        k == change_key_spec(*c),
{
    (c.source.index() as u16, c.source.generation(), c.relation.0, c.target.index() as u16, c.target.generation())
}

/// Sorts the changes by their key, keeping changes with equal keys in the
/// order they came (std's `slice::sort_by_key`, a stable sort). Claimed of
/// it, as its documentation gives: the result is in key order, and for
/// every key the changes carrying it are the same ones in the same order.
#[verifier::external_body]
fn sort_changes(changes: &mut Vec<RelationEntry>)
    ensures
        changes_sorted(final(changes)@),
        forall|k: ChangeKey| #[trigger] keyed(final(changes)@, k) == keyed(old(changes)@, k),
{
    changes.sort_by_key(|c| change_key(c));
}

/// The changes naming slot `s` as their source's slot, in recording order.
pub open spec fn slot_changes(changes: Seq<RelationEntry>, s: int) -> Seq<RelationEntry>
    decreases changes.len(),
{
    if changes.len() == 0 {
        Seq::empty()
    } else {
        let rest = slot_changes(changes.drop_last(), s);
        if changes.last().source.idx() == s {
            rest.push(changes.last())
        } else {
            rest
        }
    }
}

/// Every change naming a slot is one of the changes.
pub proof fn lemma_slot_changes_ok(ids: &Ids, kinds: u16, changes: Seq<RelationEntry>, s: int)
    requires
        forall|i: int| 0 <= i < changes.len() ==> change_ok(ids, kinds, #[trigger] changes[i]),
    ensures
        forall|j: int|
            0 <= j < slot_changes(changes, s).len() ==> change_ok(ids, kinds, #[trigger] slot_changes(changes, s)[j]),
    decreases changes.len(),
{
    if changes.len() > 0 {
        let rest = changes.drop_last();
        assert forall|i: int| 0 <= i < rest.len() implies change_ok(ids, kinds, #[trigger] rest[i]) by {
            assert(rest[i] == changes[i]);
        }
        lemma_slot_changes_ok(ids, kinds, rest, s);
        assert(change_ok(ids, kinds, changes[changes.len() - 1]));
        let sc = slot_changes(changes, s);
        let prev = slot_changes(rest, s);
        assert forall|j: int| 0 <= j < sc.len() implies change_ok(ids, kinds, #[trigger] sc[j]) by {
            if j < prev.len() {
                assert(sc[j] == prev[j]);
            }
        }
    }
}

/// Lands `changes` on `m` in order: each one from `owner` sets its key, a
/// zero weight removing it, so the last write to a key wins; changes from
/// anyone else (a source that has since died) drop.
pub open spec fn apply_changes(m: Map<EdgeKey, u32>, changes: Seq<RelationEntry>, owner: EntityId) -> Map<EdgeKey, u32>
    decreases changes.len(),
{
    if changes.len() == 0 {
        m
    } else {
        let prev = apply_changes(m, changes.drop_last(), owner);
        let c = changes.last();
        if c.source != owner {
            prev
        } else if is_zero_bits(c.value) {
            prev.remove((c.relation.0, c.target))
        } else {
            prev.insert((c.relation.0, c.target), c.value)
        }
    }
}

/// Sparse weighted edges between entities: per slot, the forward row (the
/// slot's outgoing edges) and the transposed row (its incoming edges), each
/// sorted by (relation, far endpoint). Never mutated in place — the one
/// write path is [`Relations::rebuild`], which reconstructs every row as
/// `merge(carry(old), changes)`. Between rebuilds the data can go stale (an
/// endpoint dies); queries stay truthful by filtering dead endpoints and by
/// stamping each slot with the id its rows were built for, so a reused slot
/// reads empty rather than its predecessor's edges.
#[derive(Clone)]
pub struct Relations {
    rows: Vec<Vec<Edge>>,
    rev_rows: Vec<Vec<Edge>>,
    /// The id each slot's rows were built for.
    owners: Vec<EntityId>,
    /// Number of defined relation kinds, which changes must stay below.
    count: u16,
}

impl Relations {
    /// The id slot `s`'s rows were built for.
    pub closed spec fn owner(&self, s: int) -> EntityId {
        self.owners@[s]
    }

    /// Slot `s`'s outgoing edges, far endpoint = target.
    pub closed spec fn row(&self, s: int) -> Seq<Edge> {
        self.rows@[s]@
    }

    /// Slot `t`'s incoming edges, far endpoint = source.
    pub closed spec fn rev_row(&self, t: int) -> Seq<Edge> {
        self.rev_rows@[t]@
    }

    /// How many relation kinds changes may name.
    pub closed spec fn kinds(&self) -> u16 {
        self.count
    }

    /// Rows are sorted, hold real weights, belong to a live-at-build owner,
    /// and the transposed rows mirror the forward ones exactly.
    /// Every row is strictly ordered by (kind, far slot), so no key occurs
    /// twice in it and the row map counts its edges.
    pub proof fn lemma_rows_sorted(&self)
        requires
            self.wf(),
        ensures
            forall|s: int| 0 <= s < CAPACITY ==> row_sorted(#[trigger] self.row(s)),
    {
    }

    pub closed spec fn wf(&self) -> bool {
        &&& self.rows@.len() == CAPACITY
        &&& self.rev_rows@.len() == CAPACITY
        &&& self.owners@.len() == CAPACITY
        &&& forall|s: int| 0 <= s < CAPACITY ==> row_sorted(#[trigger] self.rows@[s]@)
        &&& forall|t: int| 0 <= t < CAPACITY ==> row_sorted(#[trigger] self.rev_rows@[t]@)
        &&& forall|s: int, k: int|
            0 <= s < CAPACITY && 0 <= k < self.rows@[s]@.len() ==> edge_ok(#[trigger] self.rows@[s]@[k])
        &&& forall|s: int|
            0 <= s < CAPACITY && #[trigger] self.rows@[s]@.len() > 0 ==> self.owners@[s].valid()
                && self.owners@[s].idx() == s
        &&& forall|t: int, x: Edge|
            0 <= t < CAPACITY && #[trigger] self.rev_rows@[t]@.contains(x) ==> exists|s: int, k: int|
                0 <= s < CAPACITY && 0 <= k < self.rows@[s]@.len() && #[trigger] self.rows@[s]@[k].other.idx()
                    == t && x == flip(self.rows@[s]@[k], self.owners@[s])
        &&& forall|s: int, k: int|
            0 <= s < CAPACITY && 0 <= k < self.rows@[s]@.len() ==> self.rev_rows@[(#[trigger] self.rows@[s]@[k]).other.idx() as int]@.contains(
                flip(self.rows@[s]@[k], self.owners@[s]),
            )
    }

    /// `id` is alive and is the id its slot's rows were built for.
    pub open spec fn readable(&self, ids: &Ids, id: EntityId) -> bool {
        ids.alive(id) && self.owner(id.idx() as int) == id
    }

    /// Empty rows for every slot, sized to the schema's relation kinds.
    pub fn new(defs: &Definitions) -> (r: Relations)
        ensures
            r.wf(),
            r.kinds() as int == id_range(defs.relation_names().len()).len(),
            forall|s: int| 0 <= s < CAPACITY ==> (#[trigger] r.row(s)).len() == 0 && r.rev_row(s).len() == 0,
    {
        let mut rows: Vec<Vec<Edge>> = Vec::new();
        let mut rev_rows: Vec<Vec<Edge>> = Vec::new();
        let mut owners: Vec<EntityId> = Vec::new();
        let mut i: usize = 0;
        while i < CAPACITY
            invariant
                i <= CAPACITY,
                rows@.len() == i,
                rev_rows@.len() == i,
                owners@.len() == i,
                forall|s: int| 0 <= s < i ==> (#[trigger] rows@[s])@.len() == 0,
                forall|s: int| 0 <= s < i ==> (#[trigger] rev_rows@[s])@.len() == 0,
            decreases CAPACITY - i,
        {
            rows.push(Vec::new());
            rev_rows.push(Vec::new());
            owners.push(EntityId::null());
            i = i + 1;
        }
        let count = defs.relation_count() as u16;
        let r = Relations { rows, rev_rows, owners, count };
        assert forall|t: int, x: Edge| 0 <= t < CAPACITY && #[trigger] r.rev_rows@[t]@.contains(x) implies false by {
            assert(r.rev_rows@[t]@.len() == 0);
        }
        r
    }

    /// Whether `id`'s rows may be read: alive, and the id they were built
    /// for (a reused slot never reads its predecessor's edges).
    fn is_readable(&self, ids: &Ids, id: EntityId) -> (b: bool)
        requires
            self.wf(),
            ids.wf(),
        ensures
            b == self.readable(ids, id),
    {
        ids.is_alive(id) && self.owners[id.index()] == id
    }

    /// The weight of `source`'s edge of one kind to `target`; 0 (the bits
    /// of 0.0) means "no relation" — absent edges and zero are the same
    /// thing, and so are edges with a dead endpoint.
    pub fn get(&self, ids: &Ids, source: EntityId, relation: RelationId, target: EntityId) -> (r: u32)
        requires
            self.wf(),
            ids.wf(),
        ensures
            r == (if self.readable(ids, source) && ids.alive(target) && row_map(
                self.row(source.idx() as int),
            ).contains_key((relation.0, target)) {
                row_map(self.row(source.idx() as int))[(relation.0, target)]
            } else {
                0u32
            }),
    {
        if !self.is_readable(ids, source) || !ids.is_alive(target) {
            return 0;
        }
        let row = &self.rows[source.index()];
        let ghost k0 = (relation.0, target);
        let mut k: usize = 0;
        while k < row.len()
            invariant
                self.wf(),
                self.readable(ids, source),
                ids.alive(target),
                k0 == (relation.0, target),
                row@ == self.row(source.idx() as int),
                row_sorted(row@),
                k <= row@.len(),
                forall|i: int| 0 <= i < k ==> #[trigger] edge_key(row@[i]) != k0,
            decreases row@.len() - k,
        {
            let e = row[k];
            if e.relation.0 == relation.0 && e.other == target {
                proof {
                    lemma_row_map(row@, k as int);
                }
                return e.value;
            }
            k = k + 1;
        }
        assert(!row_has(row@, k0));
        0
    }

    /// All relations with this source, in (relation, target) order; edges
    /// whose target has died since the rebuild are filtered out.
    pub fn get_related(&self, ids: &Ids, source: EntityId) -> (r: Vec<RelationEntry>)
        requires
            self.wf(),
            ids.wf(),
        ensures
            r@ == (if self.readable(ids, source) {
                live_outgoing(ids, source, self.row(source.idx() as int))
            } else {
                Seq::empty()
            }),
    {
        let mut out: Vec<RelationEntry> = Vec::new();
        if !self.is_readable(ids, source) {
            return out;
        }
        let row = &self.rows[source.index()];
        let mut k: usize = 0;
        while k < row.len()
            invariant
                ids.wf(),
                k <= row@.len(),
                out@ == live_outgoing(ids, source, row@.subrange(0, k as int)),
            decreases row@.len() - k,
        {
            let e = row[k];
            if ids.is_alive(e.other) {
                out.push(RelationEntry { source, relation: e.relation, target: e.other, value: e.value });
            }
            assert(row@.subrange(0, k + 1).drop_last() =~= row@.subrange(0, k as int));
            k = k + 1;
        }
        assert(row@.subrange(0, row@.len() as int) =~= row@);
        out
    }

    /// Targets of this source's relations of one kind, with their weights,
    /// in target order.
    pub fn get_related_via(&self, ids: &Ids, source: EntityId, relation: RelationId) -> (r: Vec<(EntityId, u32)>)
        requires
            self.wf(),
            ids.wf(),
        ensures
            r@ == (if self.readable(ids, source) {
                live_via(ids, self.row(source.idx() as int), relation.0)
            } else {
                Seq::empty()
            }),
    {
        let mut out: Vec<(EntityId, u32)> = Vec::new();
        if !self.is_readable(ids, source) {
            return out;
        }
        let row = &self.rows[source.index()];
        Self::collect_via(ids, row, relation, &mut out);
        out
    }

    /// All relations pointing at this target, in (relation, source) order;
    /// edges whose source has died since the rebuild are filtered out.
    pub fn get_related_to(&self, ids: &Ids, target: EntityId) -> (r: Vec<RelationEntry>)
        requires
            self.wf(),
            ids.wf(),
        ensures
            r@ == (if self.readable(ids, target) {
                live_incoming(ids, target, self.rev_row(target.idx() as int))
            } else {
                Seq::empty()
            }),
    {
        let mut out: Vec<RelationEntry> = Vec::new();
        if !self.is_readable(ids, target) {
            return out;
        }
        let row = &self.rev_rows[target.index()];
        let mut k: usize = 0;
        while k < row.len()
            invariant
                ids.wf(),
                k <= row@.len(),
                out@ == live_incoming(ids, target, row@.subrange(0, k as int)),
            decreases row@.len() - k,
        {
            let e = row[k];
            if ids.is_alive(e.other) {
                out.push(RelationEntry { source: e.other, relation: e.relation, target, value: e.value });
            }
            assert(row@.subrange(0, k + 1).drop_last() =~= row@.subrange(0, k as int));
            k = k + 1;
        }
        assert(row@.subrange(0, row@.len() as int) =~= row@);
        out
    }

    /// Sources with a relation of one kind pointing at this target, with
    /// their weights, in source order.
    pub fn get_related_to_via(&self, ids: &Ids, target: EntityId, relation: RelationId) -> (r: Vec<(EntityId, u32)>)
        requires
            self.wf(),
            ids.wf(),
        ensures
            r@ == (if self.readable(ids, target) {
                live_via(ids, self.rev_row(target.idx() as int), relation.0)
            } else {
                Seq::empty()
            }),
    {
        let mut out: Vec<(EntityId, u32)> = Vec::new();
        if !self.is_readable(ids, target) {
            return out;
        }
        let row = &self.rev_rows[target.index()];
        Self::collect_via(ids, row, relation, &mut out);
        out
    }

    /// Appends one kind's live far endpoints of `row` to the empty `out`.
    fn collect_via(ids: &Ids, row: &Vec<Edge>, relation: RelationId, out: &mut Vec<(EntityId, u32)>)
        requires
            ids.wf(),
            old(out)@.len() == 0,
        ensures
            final(out)@ == live_via(ids, row@, relation.0),
    {
        let mut k: usize = 0;
        while k < row.len()
            invariant
                ids.wf(),
                k <= row@.len(),
                out@ == live_via(ids, row@.subrange(0, k as int), relation.0),
            decreases row@.len() - k,
        {
            let e = row[k];
            if e.relation.0 == relation.0 && ids.is_alive(e.other) {
                out.push((e.other, e.value));
            }
            assert(row@.subrange(0, k + 1).drop_last() =~= row@.subrange(0, k as int));
            k = k + 1;
        }
        assert(row@.subrange(0, row@.len() as int) =~= row@);
    }

    /// Slot `slot`'s carried base row: the previous row when it was built
    /// for `owner`, filtered to kinds the policy carries and live far ends.
    fn carried_row<F: Fn(RelationId) -> bool>(&self, ids: &Ids, carries: &F, slot: usize, owner: EntityId) -> (row: Vec<Edge>)
        requires
            self.wf(),
            ids.wf(),
            policy_ok(*carries),
            slot < CAPACITY,
            owner == ids.slot(slot as int),
        ensures
            row_live(ids, row@),
            row_map(row@) == carried_base(self, ids, *carries, slot as int),
            row@.len() > 0 ==> owner.valid(),
    {
        let mut row: Vec<Edge> = Vec::new();
        if !(owner.is_valid() && self.owners[slot] == owner) {
            proof {
                lemma_row_map_eq(row@, Map::empty());
            }
            return row;
        }
        let src = &self.rows[slot];
        let mut k: usize = 0;
        while k < src.len()
            invariant
                ids.wf(),
                policy_ok(*carries),
                row_sorted(src@),
                k <= src@.len(),
                forall|i: int| 0 <= i < src@.len() ==> edge_ok(#[trigger] src@[i]),
                row_live(ids, row@),
                forall|i: int|
                    0 <= i < row@.len() ==> exists|k2: int| 0 <= k2 < k && #[trigger] src@[k2] == #[trigger] row@[i],
                forall|i: int|
                    0 <= i < row@.len() ==> carried(*carries, (#[trigger] row@[i]).relation.0),
                forall|k2: int|
                    0 <= k2 < k && carried(*carries, (#[trigger] src@[k2]).relation.0) && ids.alive(src@[k2].other)
                        ==> row@.contains(src@[k2]),
            decreases src@.len() - k,
        {
            let e = src[k];
            let keep = carries(e.relation);
            proof {
                if !keep {
                    assert(!call_ensures(*carries, (e.relation,), true));
                }
                assert(RelationId(e.relation.0) == e.relation);
            }
            if keep && ids.is_alive(e.other) {
                let ghost before = row@;
                row.push(e);
                proof {
                    assert forall|i: int| 0 <= i < before.len() implies edge_before(#[trigger] row@[i], e) by {
                        let k2 = choose|k2: int| 0 <= k2 < k && #[trigger] src@[k2] == #[trigger] before[i];
                        assert(edge_before(src@[k2], src@[k as int]));
                    }
                    assert forall|a: int, b: int| 0 <= a < b < row@.len() implies edge_before(#[trigger] row@[a], #[trigger] row@[b]) by {
                        if b < before.len() {
                            assert(edge_before(before[a], before[b]));
                        }
                    }
                    assert forall|i: int| 0 <= i < row@.len() implies exists|k2: int| 0 <= k2 < k + 1 && #[trigger] src@[k2] == #[trigger] row@[i] by {
                        if i < before.len() {
                            let k2 = choose|k2: int| 0 <= k2 < k && #[trigger] src@[k2] == #[trigger] before[i];
                            assert(src@[k2] == row@[i]);
                        } else {
                            assert(src@[k as int] == row@[i]);
                        }
                    }
                    assert forall|k2: int|
                        0 <= k2 < k + 1 && carried(*carries, (#[trigger] src@[k2]).relation.0) && ids.alive(src@[k2].other)
                            implies row@.contains(src@[k2]) by {
                        if k2 < k {
                            let i = choose|i: int| 0 <= i < before.len() && before[i] == src@[k2];
                            assert(row@[i] == src@[k2]);
                        } else {
                            assert(row@[before.len() as int] == src@[k2]);
                        }
                    }
                }
            }
            k = k + 1;
        }
        proof {
            let m = carried_base(self, ids, *carries, slot as int);
            let old_map = row_map(src@);
            assert forall|i: int| 0 <= i < row@.len() implies m.contains_key(#[trigger] edge_key(row@[i]))
                && m[edge_key(row@[i])] == row@[i].value by {
                let k2 = choose|k2: int| 0 <= k2 < k && #[trigger] src@[k2] == #[trigger] row@[i];
                lemma_row_map(src@, k2);
            }
            assert forall|key: EdgeKey| #[trigger] m.contains_key(key) implies row_has(row@, key) by {
                let k2 = choose|k2: int| 0 <= k2 < src@.len() && #[trigger] edge_key(src@[k2]) == key;
                assert(row@.contains(src@[k2]));
                let i = choose|i: int| 0 <= i < row@.len() && row@[i] == src@[k2];
                assert(edge_key(row@[i]) == key);
            }
            lemma_row_map_eq(row@, m);
        }
        row
    }

    /// Rebuilds every row as `merge(carry(previous), changes)` — the only
    /// write path. The base of each row is the previous row where the slot
    /// still belongs to the same entity, minus kinds `carries` rejects and
    /// edges whose far endpoint died; `changes` then land on top in
    /// recording order: a change beats the base on an equal key, the last
    /// change to a key beats earlier ones, and a zero weight is a deletion.
    /// A change whose source has since died drops. An empty `previous` (or
    /// one built for other occupants) contributes nothing, so building from
    /// scratch is the same call. Nonzero changes need a defined kind and
    /// live endpoints; zero ones skip the liveness checks (cleanup never has
    /// to establish liveness first). `changes` is scratch: it ends stably sorted
    /// by (source, relation, target), ready to be cleared and reused.
    pub fn rebuild<F: Fn(RelationId) -> bool>(
        &mut self,
        previous: &Relations,
        ids: &Ids,
        changes: &mut Vec<RelationEntry>,
        carries: F,
    )
        requires
            old(self).wf(),
            previous.wf(),
            ids.wf(),
            policy_ok(carries),
            forall|i: int|
                0 <= i < old(changes)@.len() ==> change_ok(ids, old(self).kinds(), #[trigger] old(changes)@[i]),
        ensures
            final(self).wf(),
            final(self).kinds() == old(self).kinds(),
            changes_sorted(final(changes)@),
            forall|k: ChangeKey| #[trigger] keyed(final(changes)@, k) == keyed(old(changes)@, k),
            forall|s: int| 0 <= s < CAPACITY ==> #[trigger] final(self).owner(s) == ids.slot(s),
            forall|s: int|
                0 <= s < CAPACITY ==> row_map(#[trigger] final(self).row(s)) == rebuilt_row(
                    previous,
                    ids,
                    carries,
                    old(changes)@,
                    s,
                ),
    {
        let ghost kinds = self.count;
        let buckets = bucket_changes(changes);
        let mut rows: Vec<Vec<Edge>> = Vec::new();
        let mut owners: Vec<EntityId> = Vec::new();
        let mut slot: usize = 0;
        while slot < CAPACITY
            invariant
                slot <= CAPACITY,
                previous.wf(),
                ids.wf(),
                policy_ok(carries),
                forall|i: int| 0 <= i < changes@.len() ==> change_ok(ids, kinds, #[trigger] changes@[i]),
                buckets@.len() == CAPACITY,
                forall|s: int| 0 <= s < CAPACITY ==> (#[trigger] buckets@[s])@ == slot_changes(changes@, s),
                rows@.len() == slot,
                owners@.len() == slot,
                forall|s: int| 0 <= s < slot ==> #[trigger] owners@[s] == ids.slot(s),
                forall|s: int| 0 <= s < slot ==> row_sorted(#[trigger] rows@[s]@),
                forall|s: int, k: int| 0 <= s < slot && 0 <= k < rows@[s]@.len() ==> edge_ok(#[trigger] rows@[s]@[k]),
                forall|s: int|
                    0 <= s < slot && #[trigger] rows@[s]@.len() > 0 ==> owners@[s].valid() && owners@[s].idx() == s,
                forall|s: int|
                    0 <= s < slot ==> row_map(#[trigger] rows@[s]@) == rebuilt_row(previous, ids, carries, changes@, s),
            decreases CAPACITY - slot,
        {
            let owner = ids.id_at(slot);
            let mut row = previous.carried_row(ids, &carries, slot, owner);
            let ghost base = carried_base(previous, ids, carries, slot as int);
            let bucket = &buckets[slot];
            proof {
                lemma_slot_changes_ok(ids, kinds, changes@, slot as int);
                assert(apply_changes(base, bucket@.subrange(0, 0), owner) == base);
            }
            let mut i: usize = 0;
            while i < bucket.len()
                invariant
                    ids.wf(),
                    i <= bucket@.len(),
                    bucket@ == slot_changes(changes@, slot as int),
                    forall|j: int| 0 <= j < bucket@.len() ==> change_ok(ids, kinds, #[trigger] bucket@[j]),
                    owner == ids.slot(slot as int),
                    row_live(ids, row@),
                    row@.len() > 0 ==> owner.valid(),
                    row_map(row@) == apply_changes(base, bucket@.subrange(0, i as int), owner),
                decreases bucket@.len() - i,
            {
                let c = bucket[i];
                proof {
                    assert(change_ok(ids, kinds, bucket@[i as int]));
                }
                if c.source == owner {
                    apply_change(&mut row, c, ids);
                }
                proof {
                    assert(bucket@.subrange(0, i + 1).drop_last() =~= bucket@.subrange(0, i as int));
                }
                i = i + 1;
            }
            proof {
                assert(bucket@.subrange(0, bucket@.len() as int) =~= bucket@);
                assert(owner.idx() == slot);
            }
            rows.push(row);
            owners.push(owner);
            slot = slot + 1;
        }
        let rev_rows = transpose(&rows, &owners);
        self.rows = rows;
        self.rev_rows = rev_rows;
        self.owners = owners;
        sort_changes(changes);
    }

    /// How many relation kinds changes may name.
    pub fn kind_count(&self) -> (n: u16)
        ensures
            n == self.kinds(),
    {
        self.count
    }
}

/// The base of slot `s`'s rebuilt row: the previous row, when it was built
/// for the slot's current occupant and that occupant is still alive, keeping
/// only kinds the policy carries whose far endpoint is still alive. A reused
/// slot carries nothing.
pub open spec fn carried_base<F: Fn(RelationId) -> bool>(previous: &Relations, ids: &Ids, carries: F, s: int) -> Map<EdgeKey, u32> {
    let owner = ids.slot(s);
    let m = row_map(previous.row(s));
    if owner.valid() && previous.owner(s) == owner {
        Map::new(|k: EdgeKey| m.contains_key(k) && carried(carries, k.0) && ids.alive(k.1), |k: EdgeKey| m[k])
    } else {
        Map::empty()
    }
}

/// Slot `s`'s row after a rebuild: `merge(carry(previous), changes)`.
pub open spec fn rebuilt_row<F: Fn(RelationId) -> bool>(
    previous: &Relations,
    ids: &Ids,
    carries: F,
    changes: Seq<RelationEntry>,
    s: int,
) -> Map<EdgeKey, u32> {
    apply_changes(carried_base(previous, ids, carries, s), slot_changes(changes, s), ids.slot(s))
}

/// A working row during a rebuild: sorted, real weights, live far ends.
pub open spec fn row_live(ids: &Ids, row: Seq<Edge>) -> bool {
    &&& row_sorted(row)
    &&& forall|k: int| 0 <= k < row.len() ==> edge_ok(#[trigger] row[k]) && ids.alive(row[k].other)
}

/// Lands one change on a working row: sets its key's weight, or removes the
/// key when the weight is zero.
fn apply_change(row: &mut Vec<Edge>, c: RelationEntry, ids: &Ids)
    requires
        ids.wf(),
        row_live(ids, old(row)@),
        !is_zero_bits(c.value) ==> ids.alive(c.target),
    ensures
        row_live(ids, final(row)@),
        row_map(final(row)@) == (if is_zero_bits(c.value) {
            row_map(old(row)@).remove((c.relation.0, c.target))
        } else {
            row_map(old(row)@).insert((c.relation.0, c.target), c.value)
        }),
        final(row)@.len() > 0 ==> old(row)@.len() > 0 || !is_zero_bits(c.value),
{
    let ghost before = row@;
    let ghost key = (c.relation.0, c.target);
    let zero = weight_is_zero(c.value);
    let r = c.relation.0;
    let t = c.target.index();
    let mut j: usize = 0;
    while j < row.len() && (row[j].relation.0 < r || (row[j].relation.0 == r && row[j].other.index() < t))
        invariant
            row@ == before,
            j <= row@.len(),
            forall|i: int| 0 <= i < j ==> (#[trigger] row@[i]).relation.0 < r || (row@[i].relation.0 == r
                && row@[i].other.idx() < t),
        decreases row@.len() - j,
    {
        j = j + 1;
    }
    let e = Edge { relation: c.relation, other: c.target, value: c.value };
    if j < row.len() && row[j].relation.0 == r && row[j].other == c.target {
        if zero {
            row.remove(j);
            proof {
                let m = row_map(before).remove(key);
                assert forall|i: int| 0 <= i < row@.len() implies m.contains_key(#[trigger] edge_key(row@[i]))
                    && m[edge_key(row@[i])] == row@[i].value by {
                    let i0 = if i < j { i } else { i + 1 };
                    assert(row@[i] == before[i0]);
                    lemma_row_map(before, i0);
                    if edge_key(before[i0]) == key {
                        lemma_sorted_key_unique(before, i0, j as int);
                    }
                }
                assert forall|k: EdgeKey| #[trigger] m.contains_key(k) implies row_has(row@, k) by {
                    let i0 = choose|i0: int| 0 <= i0 < before.len() && #[trigger] edge_key(before[i0]) == k;
                    if i0 < j {
                        assert(edge_key(row@[i0]) == k);
                    } else {
                        assert(i0 != j);
                        assert(edge_key(row@[i0 - 1]) == k);
                    }
                }
                lemma_row_map_eq(row@, m);
            }
        } else {
            row.set(j, e);
            proof {
                let m = row_map(before).insert(key, c.value);
                assert forall|i: int| 0 <= i < row@.len() implies m.contains_key(#[trigger] edge_key(row@[i]))
                    && m[edge_key(row@[i])] == row@[i].value by {
                    if i != j {
                        lemma_row_map(before, i);
                        if edge_key(before[i]) == key {
                            lemma_sorted_key_unique(before, i, j as int);
                        }
                    }
                }
                assert forall|k: EdgeKey| #[trigger] m.contains_key(k) implies row_has(row@, k) by {
                    if k == key {
                        assert(edge_key(row@[j as int]) == k);
                    } else {
                        let i0 = choose|i0: int| 0 <= i0 < before.len() && #[trigger] edge_key(before[i0]) == k;
                        assert(edge_key(row@[i0]) == k);
                    }
                }
                lemma_row_map_eq(row@, m);
            }
        }
    } else {
        proof {
            // No edge of the row has the change's key.
            assert forall|i: int| 0 <= i < before.len() implies #[trigger] edge_key(before[i]) != key by {
                if i >= j {
                    if i > j {
                        assert(edge_before(before[j as int], before[i]));
                    }
                    if edge_key(before[i]) == key {
                        assert(before[j as int].relation.0 == r);
                        assert(before[j as int].other.idx() == t);
                        assert(ids.alive(before[j as int].other));
                    }
                }
            }
            assert(!row_has(before, key));
        }
        if !zero {
            row.insert(j, e);
            proof {
                assert(ids.alive(c.target));
                if j < before.len() {
                    let n = before[j as int];
                    if n.relation.0 == r && n.other.idx() == t {
                        assert(ids.alive(n.other));
                        assert(n.other == c.target);
                    }
                    assert(edge_before(e, n));
                }
                assert forall|a: int, b: int| 0 <= a < b < row@.len() implies edge_before(#[trigger] row@[a], #[trigger] row@[b]) by {
                    if b < j {
                        assert(edge_before(before[a], before[b]));
                    } else if b == j {
                        assert(row@[a] == before[a]);
                    } else if a == j {
                        assert(row@[b] == before[b - 1]);
                        if b - 1 > j {
                            assert(edge_before(before[j as int], before[b - 1]));
                        }
                    } else if a < j {
                        assert(row@[b] == before[b - 1]);
                        assert(edge_before(before[a], before[b - 1]));
                    } else {
                        assert(edge_before(before[a - 1], before[b - 1]));
                    }
                }
                let m = row_map(before).insert(key, c.value);
                assert forall|i: int| 0 <= i < row@.len() implies m.contains_key(#[trigger] edge_key(row@[i]))
                    && m[edge_key(row@[i])] == row@[i].value by {
                    if i < j {
                        lemma_row_map(before, i);
                    } else if i > j {
                        assert(row@[i] == before[i - 1]);
                        lemma_row_map(before, i - 1);
                    }
                }
                assert forall|k: EdgeKey| #[trigger] m.contains_key(k) implies row_has(row@, k) by {
                    if k == key {
                        assert(edge_key(row@[j as int]) == k);
                    } else {
                        let i0 = choose|i0: int| 0 <= i0 < before.len() && #[trigger] edge_key(before[i0]) == k;
                        if i0 < j {
                            assert(edge_key(row@[i0]) == k);
                        } else {
                            assert(edge_key(row@[i0 + 1]) == k);
                        }
                    }
                }
                lemma_row_map_eq(row@, m);
            }
        } else {
            proof {
                assert(row_map(before).remove(key) =~= row_map(before));
            }
        }
    }
}

/// The changes sorted into one bucket per source slot, each in recording
/// order.
fn bucket_changes(changes: &Vec<RelationEntry>) -> (buckets: Vec<Vec<RelationEntry>>)
    requires
        forall|i: int| 0 <= i < changes@.len() ==> ((#[trigger] changes@[i]).source.idx() as int) < CAPACITY,
    ensures
        buckets@.len() == CAPACITY,
        forall|s: int| 0 <= s < CAPACITY ==> (#[trigger] buckets@[s])@ == slot_changes(changes@, s),
{
    let mut buckets: Vec<Vec<RelationEntry>> = Vec::new();
    let mut s: usize = 0;
    while s < CAPACITY
        invariant
            s <= CAPACITY,
            buckets@.len() == s,
            forall|q: int| 0 <= q < s ==> (#[trigger] buckets@[q])@.len() == 0,
        decreases CAPACITY - s,
    {
        buckets.push(Vec::new());
        s = s + 1;
    }
    assert forall|q: int| 0 <= q < CAPACITY implies (#[trigger] buckets@[q])@ == slot_changes(changes@.subrange(0, 0), q) by {
        assert(buckets@[q]@ =~= Seq::<RelationEntry>::empty());
    }
    let mut i: usize = 0;
    while i < changes.len()
        invariant
            i <= changes@.len(),
            buckets@.len() == CAPACITY,
            forall|j: int| 0 <= j < changes@.len() ==> ((#[trigger] changes@[j]).source.idx() as int) < CAPACITY,
            forall|q: int| 0 <= q < CAPACITY ==> (#[trigger] buckets@[q])@ == slot_changes(changes@.subrange(0, i as int), q),
        decreases changes@.len() - i,
    {
        let c = changes[i];
        let slot = c.source.index();
        buckets[slot].push(c);
        proof {
            let next = changes@.subrange(0, i + 1);
            assert(next.drop_last() =~= changes@.subrange(0, i as int));
            assert forall|q: int| 0 <= q < CAPACITY implies (#[trigger] buckets@[q])@ == slot_changes(next, q) by {
                assert(slot_changes(next, q) == (if c.source.idx() == q {
                    slot_changes(changes@.subrange(0, i as int), q).push(c)
                } else {
                    slot_changes(changes@.subrange(0, i as int), q)
                }));
            }
        }
        i = i + 1;
    }
    assert(changes@.subrange(0, changes@.len() as int) =~= changes@);
    buckets
}

/// Files `y` into a transposed row, after every edge of a kind up to its
/// own: edges of its kind already there come from lower slots.
fn insert_incoming(rev: &mut Vec<Vec<Edge>>, t: usize, y: Edge)
    requires
        t < old(rev)@.len(),
        row_sorted(old(rev)@[t as int]@),
        forall|i: int|
            0 <= i < old(rev)@[t as int]@.len() && (#[trigger] old(rev)@[t as int]@[i]).relation.0 == y.relation.0
                ==> old(rev)@[t as int]@[i].other.idx() < y.other.idx(),
    ensures
        final(rev)@.len() == old(rev)@.len(),
        row_sorted(final(rev)@[t as int]@),
        forall|x: Edge| #[trigger] final(rev)@[t as int]@.contains(x) <==> old(rev)@[t as int]@.contains(x) || x == y,
        forall|u: int| 0 <= u < old(rev)@.len() && u != t ==> #[trigger] final(rev)@[u] == old(rev)@[u],
{
    let ghost before = rev@[t as int]@;
    let mut j: usize = 0;
    while j < rev[t].len() && rev[t][j].relation.0 <= y.relation.0
        invariant
            t < rev@.len(),
            rev@[t as int]@ == before,
            j <= before.len(),
            forall|i: int| 0 <= i < j ==> (#[trigger] before[i]).relation.0 <= y.relation.0,
        decreases before.len() - j,
    {
        j = j + 1;
    }
    rev[t].insert(j, y);
    proof {
        let after = rev@[t as int]@;
        assert(after == before.insert(j as int, y));
        assert forall|i: int| j <= i < before.len() implies (#[trigger] before[i]).relation.0 > y.relation.0 by {
            if i > j {
                assert(edge_before(before[j as int], before[i]));
            }
        }
        assert forall|a: int, b: int| 0 <= a < b < after.len() implies edge_before(#[trigger] after[a], #[trigger] after[b]) by {
            if b < j {
                assert(edge_before(before[a], before[b]));
            } else if b == j {
                assert(after[a] == before[a]);
            } else if a == j {
                assert(after[b] == before[b - 1]);
            } else if a < j {
                assert(after[b] == before[b - 1]);
                assert(edge_before(before[a], before[b - 1]));
            } else {
                assert(edge_before(before[a - 1], before[b - 1]));
            }
        }
        assert forall|x: Edge| #[trigger] after.contains(x) <==> before.contains(x) || x == y by {
            if after.contains(x) {
                let i = choose|i: int| 0 <= i < after.len() && after[i] == x;
                if i < j {
                    assert(before[i] == x);
                } else if i > j {
                    assert(before[i - 1] == x);
                }
            }
            if before.contains(x) {
                let i = choose|i: int| 0 <= i < before.len() && before[i] == x;
                if i < j {
                    assert(after[i] == x);
                } else {
                    assert(after[i + 1] == x);
                }
            }
            if x == y {
                assert(after[j as int] == x);
            }
        }
    }
}

/// The transposed rows of `rows`: per target slot, every edge pointing
/// there, flipped to point back at its source's owner, sorted by (relation,
/// source). Filled in source-slot order, so each edge lands after every
/// earlier source of its kind.
fn transpose(rows: &Vec<Vec<Edge>>, owners: &Vec<EntityId>) -> (rev: Vec<Vec<Edge>>)
    requires
        rows@.len() == CAPACITY,
        owners@.len() == CAPACITY,
        forall|s: int| 0 <= s < CAPACITY ==> row_sorted(#[trigger] rows@[s]@),
        forall|s: int, k: int| 0 <= s < CAPACITY && 0 <= k < rows@[s]@.len() ==> edge_ok(#[trigger] rows@[s]@[k]),
        forall|s: int|
            0 <= s < CAPACITY && #[trigger] rows@[s]@.len() > 0 ==> owners@[s].valid() && owners@[s].idx() == s,
    ensures
        rev@.len() == CAPACITY,
        forall|t: int| 0 <= t < CAPACITY ==> row_sorted(#[trigger] rev@[t]@),
        forall|t: int, x: Edge|
            0 <= t < CAPACITY && #[trigger] rev@[t]@.contains(x) ==> exists|s: int, k: int|
                0 <= s < CAPACITY && 0 <= k < rows@[s]@.len() && #[trigger] rows@[s]@[k].other.idx() == t && x
                    == flip(rows@[s]@[k], owners@[s]),
        forall|s: int, k: int|
            0 <= s < CAPACITY && 0 <= k < rows@[s]@.len() ==> rev@[(#[trigger] rows@[s]@[k]).other.idx() as int]@.contains(
                flip(rows@[s]@[k], owners@[s]),
            ),
{
    let mut rev: Vec<Vec<Edge>> = Vec::new();
    let mut t: usize = 0;
    while t < CAPACITY
        invariant
            t <= CAPACITY,
            rev@.len() == t,
            forall|q: int| 0 <= q < t ==> (#[trigger] rev@[q])@.len() == 0,
        decreases CAPACITY - t,
    {
        rev.push(Vec::new());
        t = t + 1;
    }
    let mut s: usize = 0;
    while s < CAPACITY
        invariant
            s <= CAPACITY,
            rows@.len() == CAPACITY,
            owners@.len() == CAPACITY,
            forall|s: int| 0 <= s < CAPACITY ==> row_sorted(#[trigger] rows@[s]@),
            forall|s: int, k: int| 0 <= s < CAPACITY && 0 <= k < rows@[s]@.len() ==> edge_ok(#[trigger] rows@[s]@[k]),
            forall|s: int|
                0 <= s < CAPACITY && #[trigger] rows@[s]@.len() > 0 ==> owners@[s].valid() && owners@[s].idx() == s,
            rev@.len() == CAPACITY,
            forall|t: int| 0 <= t < CAPACITY ==> row_sorted(#[trigger] rev@[t]@),
            forall|t: int, x: Edge|
                0 <= t < CAPACITY && #[trigger] rev@[t]@.contains(x) ==> exists|s2: int, k2: int|
                    0 <= s2 < s && 0 <= k2 < rows@[s2]@.len() && #[trigger] rows@[s2]@[k2].other.idx() == t && x
                        == flip(rows@[s2]@[k2], owners@[s2]),
            forall|s2: int, k2: int|
                0 <= s2 < s && 0 <= k2 < rows@[s2]@.len() ==> rev@[(#[trigger] rows@[s2]@[k2]).other.idx() as int]@.contains(
                    flip(rows@[s2]@[k2], owners@[s2]),
                ),
        decreases CAPACITY - s,
    {
        let row = &rows[s];
        let mut k: usize = 0;
        while k < row.len()
            invariant
                s < CAPACITY,
                k <= row@.len(),
                row@ == rows@[s as int]@,
                rows@.len() == CAPACITY,
                owners@.len() == CAPACITY,
                forall|s: int| 0 <= s < CAPACITY ==> row_sorted(#[trigger] rows@[s]@),
                forall|s: int, k: int| 0 <= s < CAPACITY && 0 <= k < rows@[s]@.len() ==> edge_ok(#[trigger] rows@[s]@[k]),
                forall|s: int|
                    0 <= s < CAPACITY && #[trigger] rows@[s]@.len() > 0 ==> owners@[s].valid() && owners@[s].idx() == s,
                rev@.len() == CAPACITY,
                forall|t: int| 0 <= t < CAPACITY ==> row_sorted(#[trigger] rev@[t]@),
                forall|t: int, x: Edge|
                    0 <= t < CAPACITY && #[trigger] rev@[t]@.contains(x) ==> exists|s2: int, k2: int|
                        0 <= s2 <= s && 0 <= k2 < rows@[s2]@.len() && (s2 < s || k2 < k)
                            && #[trigger] rows@[s2]@[k2].other.idx() == t && x == flip(rows@[s2]@[k2], owners@[s2]),
                forall|s2: int, k2: int|
                    0 <= s2 <= s && 0 <= k2 < rows@[s2]@.len() && (s2 < s || k2 < k) ==> rev@[(#[trigger] rows@[s2]@[k2]).other.idx() as int]@.contains(
                        flip(rows@[s2]@[k2], owners@[s2]),
                    ),
            decreases row@.len() - k,
        {
            let e = row[k];
            let t = e.other.index();
            let y = Edge { relation: e.relation, other: owners[s], value: e.value };
            proof {
                assert(edge_ok(rows@[s as int]@[k as int]));
                assert(owners@[s as int].idx() == s);
                assert(y == flip(rows@[s as int]@[k as int], owners@[s as int]));
                assert forall|i: int|
                    0 <= i < rev@[t as int]@.len() && (#[trigger] rev@[t as int]@[i]).relation.0 == y.relation.0
                        implies rev@[t as int]@[i].other.idx() < y.other.idx() by {
                    let x = rev@[t as int]@[i];
                    assert(rev@[t as int]@.contains(x));
                    let (s2, k2) = choose|s2: int, k2: int|
                        0 <= s2 <= s && 0 <= k2 < rows@[s2]@.len() && (s2 < s || k2 < k)
                            && #[trigger] rows@[s2]@[k2].other.idx() == t && x == flip(rows@[s2]@[k2], owners@[s2]);
                    assert(owners@[s2].idx() == s2);
                    if s2 == s {
                        assert(edge_before(rows@[s2]@[k2], rows@[s2]@[k as int]));
                    }
                }
            }
            let ghost old_rev = rev@;
            insert_incoming(&mut rev, t, y);
            proof {
                assert forall|t2: int, x: Edge|
                    0 <= t2 < CAPACITY && #[trigger] rev@[t2]@.contains(x) implies exists|s2: int, k2: int|
                        0 <= s2 <= s && 0 <= k2 < rows@[s2]@.len() && (s2 < s || k2 < k + 1)
                            && #[trigger] rows@[s2]@[k2].other.idx() == t2 && x == flip(rows@[s2]@[k2], owners@[s2]) by {
                    if t2 != t || x != y {
                        assert(old_rev[t2]@.contains(x));
                    } else {
                        assert(rows@[s as int]@[k as int].other.idx() == t2);
                    }
                }
                assert forall|s2: int, k2: int|
                    0 <= s2 <= s && 0 <= k2 < rows@[s2]@.len() && (s2 < s || k2 < k + 1) implies rev@[(#[trigger] rows@[s2]@[k2]).other.idx() as int]@.contains(
                        flip(rows@[s2]@[k2], owners@[s2]),
                    ) by {
                    let t2 = rows@[s2]@[k2].other.idx() as int;
                    assert(edge_ok(rows@[s2]@[k2]));
                    if s2 < s || k2 < k {
                        assert(old_rev[t2]@.contains(flip(rows@[s2]@[k2], owners@[s2])));
                    }
                }
            }
            k = k + 1;
        }
        s = s + 1;
    }
    rev
}

/// The last write to a key wins: after landing `changes`, a key holds the
/// weight of the last change from `owner` to it — or nothing at all, when
/// that last change was a deletion.
pub proof fn lemma_last_write_wins(m: Map<EdgeKey, u32>, changes: Seq<RelationEntry>, owner: EntityId, i: int)
    requires
        0 <= i < changes.len(),
        changes[i].source == owner,
        forall|j: int|
            i < j < changes.len() && (#[trigger] changes[j]).source == owner ==> (changes[j].relation.0, changes[j].target)
                != (changes[i].relation.0, changes[i].target),
    ensures
        ({
            let k = (changes[i].relation.0, changes[i].target);
            let r = apply_changes(m, changes, owner);
            if is_zero_bits(changes[i].value) {
                !r.contains_key(k)
            } else {
                r.contains_key(k) && r[k] == changes[i].value
            }
        }),
    decreases changes.len(),
{
    if i < changes.len() - 1 {
        let rest = changes.drop_last();
        assert forall|j: int| i < j < rest.len() && (#[trigger] rest[j]).source == owner implies (rest[j].relation.0, rest[j].target)
            != (rest[i].relation.0, rest[i].target) by {
            assert(rest[j] == changes[j]);
        }
        lemma_last_write_wins(m, rest, owner, i);
        assert(changes[changes.len() - 1].source == owner ==> (changes[changes.len() - 1].relation.0, changes[changes.len() - 1].target)
            != (changes[i].relation.0, changes[i].target));
    }
}

/// Keys no change from `owner` touches keep whatever the base held.
pub proof fn lemma_untouched_keys_carry(m: Map<EdgeKey, u32>, changes: Seq<RelationEntry>, owner: EntityId, k: EdgeKey)
    requires
        forall|j: int|
            0 <= j < changes.len() && (#[trigger] changes[j]).source == owner ==> (changes[j].relation.0, changes[j].target) != k,
    ensures
        apply_changes(m, changes, owner).contains_key(k) == m.contains_key(k),
        m.contains_key(k) ==> apply_changes(m, changes, owner)[k] == m[k],
    decreases changes.len(),
{
    if changes.len() > 0 {
        let rest = changes.drop_last();
        assert forall|j: int| 0 <= j < rest.len() && (#[trigger] rest[j]).source == owner implies (rest[j].relation.0, rest[j].target) != k by {
            assert(rest[j] == changes[j]);
        }
        lemma_untouched_keys_carry(m, rest, owner, k);
        assert(changes[changes.len() - 1].source == owner ==> (changes[changes.len() - 1].relation.0, changes[changes.len() - 1].target) != k);
    }
}

/// With no changes, a rebuild is the carry alone: carried kinds persist
/// untouched, everything else is gone.
pub proof fn lemma_no_changes_is_carry<F: Fn(RelationId) -> bool>(previous: &Relations, ids: &Ids, carries: F, s: int)
    ensures
        rebuilt_row(previous, ids, carries, Seq::empty(), s) == carried_base(previous, ids, carries, s),
{
    assert(slot_changes(Seq::<RelationEntry>::empty(), s) =~= Seq::empty());
}

/// Building from scratch is the same call: a previous value with empty rows
/// carries nothing, so the rebuilt rows are the changes alone.
pub proof fn lemma_scratch_carries_nothing<F: Fn(RelationId) -> bool>(previous: &Relations, ids: &Ids, carries: F, s: int)
    requires
        previous.row(s).len() == 0,
    ensures
        carried_base(previous, ids, carries, s) == Map::<EdgeKey, u32>::empty(),
{
    let m = row_map(previous.row(s));
    assert(m =~= Map::empty());
    assert(carried_base(previous, ids, carries, s) =~= Map::empty());
}

impl Relations {
    /// Every edge reads the same from both ends: an edge in slot `s`'s row
    /// appears, pointing back at `s`'s owner with the same kind and weight,
    /// in its target slot's incoming row; and every incoming edge is such a
    /// mirror.
    pub proof fn lemma_incoming_mirrors_outgoing(&self, t: int)
        requires
            self.wf(),
            0 <= t < CAPACITY,
        ensures
            forall|s: int, k: int|
                0 <= s < CAPACITY && 0 <= k < self.row(s).len() && (#[trigger] self.row(s)[k]).other.idx() == t
                    ==> self.rev_row(t).contains(flip(self.row(s)[k], self.owner(s))),
            forall|x: Edge|
                #[trigger] self.rev_row(t).contains(x) ==> exists|s: int, k: int|
                    0 <= s < CAPACITY && 0 <= k < self.row(s).len() && self.row(s)[k].other.idx() == t && x
                        == flip(#[trigger] self.row(s)[k], self.owner(s)),
            forall|s: int| 0 <= s < CAPACITY && #[trigger] self.row(s).len() > 0 ==> self.owner(s).idx() == s,
    {
        assert forall|x: Edge| #[trigger] self.rev_row(t).contains(x) implies exists|s: int, k: int|
            0 <= s < CAPACITY && 0 <= k < self.row(s).len() && self.row(s)[k].other.idx() == t && x == flip(
                #[trigger] self.row(s)[k],
                self.owner(s),
            ) by {
            assert(self.rev_rows@[t]@.contains(x));
            let (s, k) = choose|s: int, k: int|
                0 <= s < CAPACITY && 0 <= k < self.rows@[s]@.len() && #[trigger] self.rows@[s]@[k].other.idx() == t && x
                    == flip(self.rows@[s]@[k], self.owners@[s]);
            assert(self.row(s)[k] == self.rows@[s]@[k]);
        }
    }
}

} // verus!
