use vstd::prelude::*;
use crate::util::bitset::BitSet;
use crate::entities::defs::{SetId, MAX_SETS};
use crate::util::decimal::{decimal, parse_u64, parse_u64_spec, chars_of, format_u64, lemma_decimal_round_trip};

verus! {

/// Fixed slot count shared by every dense per-slot store: a cast of a few
/// thousand, plus generous headroom.
pub const CAPACITY: usize = 16_384;

/// Largest generation a slot can reach before it is retired.
pub const MAX_GENERATION: u16 = 0xffff;

/// A generational entity handle: the slot it names and the generation the
/// slot had when this entity was spawned. Alive generations are odd.
#[derive(Clone, Copy, PartialEq, Eq, Structural, PartialOrd, Ord, Debug, Hash)]
pub struct EntityId {
    index: u16,
    generation: u16,
}

impl Default for EntityId {
    /// The zero id: refers to nothing, fails `is_valid`, reads as absent.
    fn default() -> (id: EntityId)
        ensures
            id == EntityId::null_spec(),
    {
        EntityId { index: 0, generation: 0 }
    }
}

impl EntityId {
    /// The slot this id names.
    pub closed spec fn idx(self) -> u16 {
        self.index
    }

    /// The generation this id was issued at.
    pub closed spec fn gen(self) -> u16 {
        self.generation
    }

    /// The id of `index` at `generation`.
    pub closed spec fn make(index: u16, generation: u16) -> EntityId {
        EntityId { index, generation }
    }

    pub open spec fn null_spec() -> EntityId {
        EntityId::make(0, 0)
    }

    /// Ids are their slot and generation, nothing more.
    pub proof fn lemma_id_parts(a: EntityId, b: EntityId)
        ensures
            (a == b) <==> (a.idx() == b.idx() && a.gen() == b.gen()),
            EntityId::make(a.idx(), a.gen()) == a,
    {
    }

    pub proof fn lemma_make(index: u16, generation: u16)
        ensures
            EntityId::make(index, generation).idx() == index,
            EntityId::make(index, generation).gen() == generation,
    {
    }

    /// A real slot at an odd (living) generation.
    pub open spec fn valid(self) -> bool {
        self.idx() != 0 && self.gen() % 2 == 1
    }

    /// The packed form: generation in bits 16..32, slot in bits 0..16.
    pub open spec fn bits(self) -> u64 {
        (self.gen() as int * 0x1_0000 + self.idx() as int) as u64
    }

    /// What `from_bits` decodes: out-of-range bits are the null id.
    pub open spec fn decode(bits: u64) -> EntityId {
        if bits > 0xffff_ffff {
            EntityId::null_spec()
        } else {
            EntityId::make((bits % 0x1_0000) as u16, (bits / 0x1_0000) as u16)
        }
    }

    /// The slot, as stored.
    pub(crate) fn idx_u16(self) -> (i: u16)
        ensures
            i == self.idx(),
    {
        self.index
    }

    /// The generation, as stored.
    pub(crate) fn gen_u16(self) -> (g: u16)
        ensures
            g == self.gen(),
    {
        self.generation
    }

    /// The id made of a slot and a generation.
    pub(crate) fn from_parts(index: u16, generation: u16) -> (id: EntityId)
        ensures
            id == EntityId::make(index, generation),
    {
        EntityId { index, generation }
    }

    /// The zero id.
    pub fn null() -> (id: EntityId)
        ensures
            id == EntityId::null_spec(),
    {
        EntityId { index: 0, generation: 0 }
    }

    pub fn is_valid(&self) -> (b: bool)
        ensures
            b == self.valid(),
    {
        self.index != 0 && self.generation % 2 == 1
    }

    /// The slot this id names, for the dense per-slot stores.
    pub fn index(self) -> (i: usize)
        ensures
            i == self.idx(),
    {
        self.index as usize
    }

    /// The generation this id was issued at.
    pub fn generation(self) -> (g: u16)
        ensures
            g == self.gen(),
    {
        self.generation
    }

    /// Packs the id into one integer, for round-tripping through flat
    /// channels like UI action strings. The null id packs to 0.
    pub fn to_bits(self) -> (b: u64)
        ensures
            b == self.bits(),
    {
        let g = self.generation as u64;
        let i = self.index as u64;
        assert((g << 16u64) | i == g * 0x1_0000 + i) by (bit_vector)
            requires g < 0x1_0000u64, i < 0x1_0000u64;
        (g << 16u64) | i
    }

    /// Inverse of [`EntityId::to_bits`]. Out-of-range bits yield the null
    /// id, which fails every liveness check: garbage can't alias a live
    /// entity.
    pub fn from_bits(bits: u64) -> (id: EntityId)
        ensures
            id == EntityId::decode(bits),
    {
        if bits > 0xffff_ffffu64 {
            return EntityId::null();
        }
        assert(bits as u16 == bits % 0x1_0000) by (bit_vector);
        assert((bits >> 16u64) as u16 == bits / 0x1_0000) by (bit_vector)
            requires bits <= 0xffff_ffffu64;
        EntityId { index: bits as u16, generation: (bits >> 16u64) as u16 }
    }

    /// Decoding the packed form gives the id back.
    pub proof fn lemma_bits_round_trip(self)
        ensures
            EntityId::decode(self.bits()) == self,
            self.bits() <= 0xffff_ffff,
            (self.bits() == 0) <==> (self == EntityId::null_spec()),
    {
    }
}

/// Text that does not spell an id: not a decimal number.
#[derive(Clone, Copy, PartialEq, Eq, Debug)]
pub struct ParseIdError;

/// What parsing `text` as an id gives: the decoded packed bits, or an
/// error when the text is not a decimal `u64`.
pub open spec fn parse_id_spec(text: Seq<char>) -> Result<EntityId, ParseIdError> {
    match parse_u64_spec(text) {
        Some(bits) => Ok(EntityId::decode(bits)),
        None => Err(ParseIdError),
    }
}

impl EntityId {
    /// The packed bits in decimal, so ids embed directly in UI strings;
    /// [`EntityId::parse`] reverses the trip.
    pub fn to_string(&self) -> (r: String)
        ensures
            r@ == decimal(self.bits() as nat),
    {
        format_u64(self.to_bits())
    }

    /// Reads an id back from its decimal packed bits. Out-of-range numbers
    /// read as the null id; anything else that is not a number is an
    /// error.
    pub fn parse(text: &str) -> (r: Result<EntityId, ParseIdError>)
        ensures
            r == parse_id_spec(text@),
    {
        let chars = chars_of(text);
        match parse_u64(chars.as_slice()) {
            Some(bits) => Ok(EntityId::from_bits(bits)),
            None => Err(ParseIdError),
        }
    }

    /// Writing an id out and reading it back gives the same id.
    pub proof fn lemma_text_round_trip(self)
        ensures
            parse_id_spec(decimal(self.bits() as nat)) == Ok::<EntityId, ParseIdError>(self),
    {
        self.lemma_bits_round_trip();
        lemma_decimal_round_trip(self.bits());
    }
}

impl core::str::FromStr for EntityId {
    type Err = ParseIdError;

    fn from_str(s: &str) -> (r: Result<EntityId, ParseIdError>)
        ensures
            r == parse_id_spec(s@),
    {
        EntityId::parse(s)
    }
}

/// The id allocator's per-slot record: the slot's current id, plus the
/// inline set-membership bits that want to sit right next to it.
#[derive(Clone, Copy)]
struct EntityData {
    id: EntityId,
    sets: BitSet<1>,
}

/// The id allocator: owns liveness, plus each slot's inline membership
/// bits. Slot 0 is reserved as the null slot; a slot's id is alive iff its
/// generation is odd, and a held `EntityId` is alive iff the slot still
/// holds that exact id.
#[derive(Clone)]
pub struct Ids {
    entries: Vec<EntityData>,
    free_list: Vec<u16>,
    /// Entities marked by `mark_despawn`, still fully alive until the next
    /// `sweep` despawns them.
    marked: Vec<EntityId>,
}


/// The dead ids a sweep of `marks` reports, in mark order: every marked id
/// that is alive at the start of the sweep, each once.
pub open spec fn swept_ids(marks: Seq<EntityId>, start: Ids) -> Seq<EntityId>
    decreases marks.len(),
{
    if marks.len() == 0 {
        Seq::empty()
    } else {
        let prev = swept_ids(marks.drop_last(), start);
        let x = marks.last();
        if start.alive(x) && !prev.contains(x) {
            prev.push(x)
        } else {
            prev
        }
    }
}

/// The generation a slot moves to when its entity dies: the next even
/// one, or 0 (retired) when the generations are exhausted.
pub open spec fn next_dead_generation(generation: u16) -> u16 {
    if generation == MAX_GENERATION {
        0
    } else {
        (generation + 1) as u16
    }
}

/// The slots the dead release for reuse, in order: all but the retired.
pub open spec fn released_slots(dead: Seq<EntityId>) -> Seq<u16>
    decreases dead.len(),
{
    if dead.len() == 0 {
        Seq::empty()
    } else {
        let prev = released_slots(dead.drop_last());
        if dead.last().gen() == MAX_GENERATION {
            prev
        } else {
            prev.push(dead.last().idx())
        }
    }
}

impl Ids {
    /// The id slot `i` currently holds.
    pub closed spec fn slot(&self, i: int) -> EntityId {
        self.entries@[i].id
    }

    /// Slot `i`'s inline membership bits.
    pub closed spec fn bits(&self, i: int) -> Seq<bool> {
        self.entries@[i].sets@
    }

    /// The free slots; the last one is reused first.
    pub closed spec fn free(&self) -> Seq<u16> {
        self.free_list@
    }

    /// Ids marked for the next sweep, in mark order.
    pub closed spec fn marks(&self) -> Seq<EntityId> {
        self.marked@
    }

    /// The allocator's invariant.
    pub closed spec fn wf(&self) -> bool {
        &&& self.entries@.len() == CAPACITY
        &&& forall|i: int| 0 <= i < CAPACITY ==> (#[trigger] self.entries@[i]).id.index == i
        &&& self.entries@[0].id.generation == 0
        &&& forall|i: int| 0 <= i < CAPACITY ==> (#[trigger] self.entries@[i]).sets@.len() == 64
        &&& forall|k: int|
            0 <= k < self.free_list@.len() ==> {
                let f = #[trigger] self.free_list@[k];
                &&& 1 <= f < CAPACITY
                &&& self.entries@[f as int].id.generation % 2 == 0
            }
        &&& self.free_list@.no_duplicates()
        &&& forall|i: int|
            1 <= i < CAPACITY && (#[trigger] self.entries@[i]).id.generation % 2 == 0
                && self.entries@[i].id.generation != 0 ==> self.free_list@.contains(i as u16)
        &&& forall|i: int, b: int|
            #![trigger self.entries@[i].sets@[b]]
            0 <= i < CAPACITY && self.entries@[i].id.generation % 2 == 0 && 0 <= b < 64
                ==> !self.entries@[i].sets@[b]
    }

    /// `id` names a live entity: its slot still holds exactly this id.
    pub open spec fn alive(&self, id: EntityId) -> bool {
        &&& id.valid()
        &&& (id.idx() as int) < CAPACITY
        &&& self.slot(id.idx() as int) == id
    }

    /// `id` once named an entity that has since died: its slot has moved on
    /// to a later generation or been retired. A stale id never comes back.
    pub open spec fn stale(&self, id: EntityId) -> bool {
        &&& id.valid()
        &&& (id.idx() as int) < CAPACITY
        &&& (self.slot(id.idx() as int).gen() > id.gen() || (self.slot(id.idx() as int).gen() == 0
            && !self.free().contains(id.idx())))
    }

    /// `id` is alive and in set `set`.
    pub open spec fn member(&self, id: EntityId, set: int) -> bool {
        self.alive(id) && self.bits(id.idx() as int)[set]
    }

    /// Facts the invariant gives every client.
    pub proof fn lemma_wf(&self)
        requires
            self.wf(),
        ensures
            forall|i: int| 0 <= i < CAPACITY ==> (#[trigger] self.slot(i)).idx() == i,
            self.slot(0).gen() == 0,
            forall|i: int| 0 <= i < CAPACITY ==> (#[trigger] self.bits(i)).len() == 64,
            forall|id: EntityId| #[trigger] self.stale(id) ==> !self.alive(id),
            forall|id: EntityId| #[trigger] self.alive(id) ==> !self.stale(id),
    {
        assert forall|id: EntityId| #[trigger] self.stale(id) implies !self.alive(id) by {
            if self.slot(id.idx() as int).gen() == 0 {
                assert(self.slot(id.idx() as int) != id);
            }
        }
    }

    /// The id slot `slot` currently holds, alive or not: the owner that
    /// per-slot stores are rebuilt for.
    pub fn id_at(&self, slot: usize) -> (id: EntityId)
        requires
            self.wf(),
            slot < CAPACITY,
        ensures
            id == self.slot(slot as int),
            id.idx() == slot,
    {
        self.entries[slot].id
    }

    /// A fresh allocator: every slot but the null one is free, the lowest
    /// slot to be handed out first.
    pub fn new() -> (ids: Ids)
        ensures
            ids.wf(),
            ids.marks().len() == 0,
            forall|i: int| 0 <= i < CAPACITY ==> (#[trigger] ids.slot(i)).gen() == 0,
            ids.free().len() == CAPACITY - 1,
            forall|k: int| 0 <= k < CAPACITY - 1 ==> #[trigger] ids.free()[k] == CAPACITY - 1 - k,
            forall|id: EntityId| !(#[trigger] ids.alive(id)),
    {
        let mut free_list: Vec<u16> = Vec::new();
        let mut n: usize = CAPACITY - 1;
        while n > 0
            invariant
                0 <= n < CAPACITY,
                free_list@.len() == CAPACITY - 1 - n,
                forall|k: int| 0 <= k < free_list@.len() ==> #[trigger] free_list@[k] == CAPACITY - 1 - k,
            decreases n,
        {
            free_list.push(n as u16);
            n = n - 1;
        }
        let mut entries: Vec<EntityData> = Vec::new();
        let mut i: usize = 0;
        while i < CAPACITY
            invariant
                i <= CAPACITY,
                entries@.len() == i,
                forall|j: int| 0 <= j < i ==> (#[trigger] entries@[j]).id.index == j,
                forall|j: int| 0 <= j < i ==> (#[trigger] entries@[j]).id.generation == 0,
                forall|j: int, b: int| 0 <= j < i && 0 <= b < 64 ==> !#[trigger] entries@[j].sets@[b],
                forall|j: int| 0 <= j < i ==> (#[trigger] entries@[j]).sets@.len() == 64,
            decreases CAPACITY - i,
        {
            let sets = BitSet::<1>::default();
            proof {
                sets.lemma_view_len();
            }
            entries.push(EntityData { id: EntityId { index: i as u16, generation: 0 }, sets });
            i = i + 1;
        }
        let ids = Ids { entries, free_list, marked: Vec::new() };
        proof {
            assert forall|k1: int, k2: int|
                0 <= k1 < ids.free_list@.len() && 0 <= k2 < ids.free_list@.len() && k1 != k2 implies
                ids.free_list@[k1] != ids.free_list@[k2] by {}
            assert forall|i: int|
                1 <= i < CAPACITY && (#[trigger] ids.entries@[i]).id.generation % 2 == 0
                    && ids.entries@[i].id.generation != 0 implies ids.free_list@.contains(i as u16) by {}
        }
        ids
    }

    /// Whether a slot is free for `spawn`.
    pub open spec fn can_spawn(&self) -> bool {
        self.free().len() > 0
    }

    /// Whether another entity can be spawned.
    pub fn has_free_slot(&self) -> (b: bool)
        ensures
            b == self.can_spawn(),
    {
        self.free_list.len() > 0
    }

    /// How many slots are free to spawn into.
    pub fn free_len(&self) -> (n: usize)
        ensures
            n == self.free().len(),
    {
        self.free_list.len()
    }

    /// Allocate the most recently freed slot at its next generation.
    #[verifier::rlimit(50)]
    pub fn spawn(&mut self) -> (id: EntityId)
        requires
            old(self).wf(),
            old(self).can_spawn(),
        ensures
            final(self).wf(),
            ({
                let f = old(self).free().last();
                &&& id == EntityId::make(f, (old(self).slot(f as int).gen() + 1) as u16)
                &&& final(self).slot(f as int) == id
                &&& forall|i: int| 0 <= i < CAPACITY && i != f ==> #[trigger] final(self).slot(i)
                    == old(self).slot(i)
            }),
            final(self).free() == old(self).free().drop_last(),
            final(self).marks() == old(self).marks(),
            forall|i: int| 0 <= i < CAPACITY ==> #[trigger] final(self).bits(i) == old(self).bits(i),
            id.valid(),
            final(self).alive(id),
            forall|b: int| 0 <= b < 64 ==> !#[trigger] final(self).member(id, b),
            !old(self).alive(id),
            !old(self).stale(id),
            forall|x: EntityId| #[trigger] old(self).alive(x) ==> final(self).alive(x),
            forall|x: EntityId| #[trigger] old(self).stale(x) ==> final(self).stale(x),
    {
        let index = self.free_list.pop().unwrap();
        let ghost f = index;
        proof {
            assert(old(self).free_list@[old(self).free_list@.len() - 1] == index);
        }
        let mut entry = self.entries[index as usize];
        entry.id.generation = entry.id.generation + 1;
        self.entries.set(index as usize, entry);
        let id = entry.id;
        proof {
            let old_free = old(self).free_list@;
            assert(old_free =~= self.free_list@.push(index));
            assert forall|k: int| 0 <= k < self.free_list@.len() implies self.free_list@[k] != index by {
                assert(old_free[k] == self.free_list@[k]);
                assert(old_free[old_free.len() - 1] == index);
            }
            assert forall|k: int| 0 <= k < self.free_list@.len() implies {
                let g = #[trigger] self.free_list@[k];
                &&& 1 <= g < CAPACITY
                &&& self.entries@[g as int].id.generation % 2 == 0
            } by {
                assert(old_free[k] == self.free_list@[k]);
            }
            assert forall|i: int|
                1 <= i < CAPACITY && (#[trigger] self.entries@[i]).id.generation % 2 == 0
                    && self.entries@[i].id.generation != 0 implies self.free_list@.contains(i as u16) by {
                assert(old(self).entries@[i].id.generation % 2 == 0);
                assert(old_free.contains(i as u16));
                let k = choose|k: int| 0 <= k < old_free.len() && old_free[k] == i as u16;
                assert(k != old_free.len() - 1);
                assert(self.free_list@[k] == i as u16);
            }
            assert forall|x: EntityId| #[trigger] old(self).stale(x) implies self.stale(x) by {
                if x.idx() == index {
                    assert(old_free.contains(index));
                } else {
                    if !old(self).free().contains(x.idx()) {
                        assert(!self.free().contains(x.idx())) by {
                            if self.free().contains(x.idx()) {
                                let k = choose|k: int| 0 <= k < self.free_list@.len() && self.free_list@[k] == x.idx();
                                assert(old_free[k] == x.idx());
                            }
                        }
                    }
                }
            }
        }
        id
    }

    /// Record that this entity should die at the next `sweep`. Until then
    /// it stays fully alive. Marking twice, or marking an id that dies
    /// before the sweep, is harmless.
    pub fn mark_despawn(&mut self, id: EntityId)
        requires
            old(self).wf(),
            id.valid(),
        ensures
            final(self).wf(),
            final(self).marks() == old(self).marks().push(id),
            forall|i: int| 0 <= i < CAPACITY ==> #[trigger] final(self).slot(i) == old(self).slot(i),
            forall|i: int| 0 <= i < CAPACITY ==> #[trigger] final(self).bits(i) == old(self).bits(i),
            final(self).free() == old(self).free(),
    {
        self.marked.push(id);
    }

    /// Re-issues a live entity's slot at another living (odd) generation and
    /// returns the id it now holds — how a slot near exhaustion is reached
    /// without spawning through every generation.
    pub fn force_generation(&mut self, id: EntityId, generation: u16) -> (r: EntityId)
        requires
            old(self).wf(),
            old(self).alive(id),
            generation % 2 == 1,
        ensures
            final(self).wf(),
            r == EntityId::make(id.idx(), generation),
            final(self).slot(id.idx() as int) == r,
            forall|i: int| 0 <= i < CAPACITY && i != id.idx() ==> #[trigger] final(self).slot(i) == old(self).slot(i),
            forall|i: int| 0 <= i < CAPACITY ==> #[trigger] final(self).bits(i) == old(self).bits(i),
            final(self).free() == old(self).free(),
            final(self).marks() == old(self).marks(),
            final(self).alive(r),
    {
        let index = id.index as usize;
        let mut entry = self.entries[index];
        entry.id.generation = generation;
        self.entries.set(index, entry);
        proof {
            assert forall|k: int| 0 <= k < self.free_list@.len() implies {
                let f = #[trigger] self.free_list@[k];
                &&& 1 <= f < CAPACITY
                &&& self.entries@[f as int].id.generation % 2 == 0
            } by {
                let f = self.free_list@[k];
                if f == index {
                    assert(old(self).entries@[f as int].id.generation % 2 == 0);
                }
            }
        }
        entry.id
    }

    /// An id is alive iff its slot still holds the same generation.
    pub fn is_alive(&self, id: EntityId) -> (b: bool)
        requires
            self.wf(),
        ensures
            b == self.alive(id),
    {
        id.is_valid() && (id.index as usize) < self.entries.len()
            && self.entries[id.index as usize].id == id
    }

    /// Fast membership check against the inline bits: the entity's slot and
    /// one bit. Dead and stale ids are in no set.
    pub fn in_set(&self, id: EntityId, set: SetId) -> (b: bool)
        requires
            self.wf(),
            self.alive(id) ==> (set.0 as int) < MAX_SETS,
        ensures
            b == self.member(id, set.0 as int),
    {
        self.is_alive(id) && self.entries[id.index as usize].sets.get(set.0 as usize)
    }

    /// Flip a live entity's inline membership bit; the set store calls
    /// this in lockstep with its ordered keys.
    pub fn set_membership(&mut self, id: EntityId, set: SetId, member: bool)
        requires
            old(self).wf(),
            old(self).alive(id),
            (set.0 as int) < MAX_SETS,
        ensures
            final(self).wf(),
            forall|i: int| 0 <= i < CAPACITY ==> #[trigger] final(self).slot(i) == old(self).slot(i),
            final(self).bits(id.idx() as int) == old(self).bits(id.idx() as int).update(
                set.0 as int,
                member,
            ),
            forall|i: int|
                0 <= i < CAPACITY && i != id.idx() ==> #[trigger] final(self).bits(i) == old(
                    self,
                ).bits(i),
            final(self).free() == old(self).free(),
            final(self).marks() == old(self).marks(),
    {
        let i = id.index as usize;
        let mut entry = self.entries[i];
        entry.sets.set(set.0 as usize, member);
        self.entries.set(i, entry);
    }

    /// The live ids among slots `0..n`, in slot order.
    pub open spec fn alive_prefix(&self, n: int) -> Seq<EntityId> {
        Seq::new(n as nat, |i: int| self.slot(i)).filter(|id: EntityId| id.valid())
    }

    /// All live entities, in slot order: a full scan of every slot, by
    /// design. Marked-but-unswept entities are still alive and included.
    pub fn iter_alive(&self) -> (r: Vec<EntityId>)
        requires
            self.wf(),
        ensures
            r@ == self.alive_prefix(CAPACITY as int),
            forall|id: EntityId| #[trigger] r@.contains(id) <==> self.alive(id),
    {
        let mut r: Vec<EntityId> = Vec::new();
        let mut i: usize = 0;
        while i < CAPACITY
            invariant
                self.wf(),
                i <= CAPACITY,
                r@ == self.alive_prefix(i as int),
            decreases CAPACITY - i,
        {
            let id = self.entries[i].id;
            proof {
                let s = Seq::new((i + 1) as nat, |k: int| self.slot(k));
                assert(s.drop_last() =~= Seq::new(i as nat, |k: int| self.slot(k)));
                reveal_with_fuel(Seq::<_>::filter, 1);
            }
            if id.is_valid() {
                r.push(id);
            }
            i = i + 1;
        }
        proof {
            let s = Seq::new(CAPACITY as nat, |k: int| self.slot(k));
            let pred = |id: EntityId| id.valid();
            assert forall|id: EntityId| #[trigger] r@.contains(id) <==> self.alive(id) by {
                if r@.contains(id) {
                    let k = choose|k: int| 0 <= k < r@.len() && r@[k] == id;
                    s.lemma_filter_pred(pred, k);
                    s.lemma_filter_contains_rev(pred, id);
                    assert(s.contains(id));
                    let j = choose|j: int| 0 <= j < s.len() && s[j] == id;
                    assert(self.entries@[j].id.index == j);
                }
                if self.alive(id) {
                    s.filter_lemma(pred);
                    assert(s[id.idx() as int] == id);
                    assert(pred(s[id.idx() as int]));
                }
            }
        }
        r
    }

    /// Despawn every entity marked since the last sweep, returning the
    /// deduplicated dead in mark order so the caller can purge its other
    /// stores in the same breath. A slot whose generations are exhausted
    /// is retired rather than reused; the dead's membership bits clear.
    #[verifier::rlimit(100)]
    pub fn sweep(&mut self) -> (dead: Vec<EntityId>)
        requires
            old(self).wf(),
        ensures
            final(self).wf(),
            dead@ == swept_ids(old(self).marks(), *old(self)),
            final(self).marks().len() == 0,
            final(self).free() == old(self).free() + released_slots(dead@),
            slots_after_kills(*final(self), *old(self), dead@),
            swept_to(*old(self), *final(self), dead@),
            forall|x: EntityId| #[trigger] dead@.contains(x) ==> old(self).alive(x) && final(self).stale(x),
            forall|x: EntityId|
                #[trigger] old(self).alive(x) && !dead@.contains(x) ==> final(self).alive(x),
            forall|x: EntityId| #[trigger] old(self).stale(x) ==> final(self).stale(x),
            forall|x: EntityId| !(#[trigger] old(self).alive(x)) ==> !final(self).alive(x),
    {
        let mut marked: Vec<EntityId> = Vec::new();
        std::mem::swap(&mut marked, &mut self.marked);
        let ghost start = *old(self);
        let mut dead: Vec<EntityId> = Vec::new();
        let mut j: usize = 0;
        while j < marked.len()
            invariant
                self.wf(),
                start.wf(),
                j <= marked@.len(),
                marked@ == start.marks(),
                self.marked@.len() == 0,
                dead@ == swept_ids(marked@.take(j as int), start),
                self.free() == start.free() + released_slots(dead@),
                slots_after_kills(*self, start, dead@),
                forall|x: EntityId| #[trigger] dead@.contains(x) ==> start.alive(x) && self.stale(x),
                forall|k1: int, k2: int|
                    0 <= k1 < dead@.len() && 0 <= k2 < dead@.len() && k1 != k2 ==> dead@[k1].idx()
                        != dead@[k2].idx(),
                forall|x: EntityId| #[trigger] start.alive(x) && !dead@.contains(x) ==> self.alive(x),
                forall|x: EntityId| #[trigger] start.stale(x) ==> self.stale(x),
                forall|x: EntityId| !(#[trigger] start.alive(x)) ==> !self.alive(x),
            decreases marked@.len() - j,
        {
            let id = marked[j];
            proof {
                assert(marked@.take(j + 1).drop_last() =~= marked@.take(j as int));
                assert(marked@.take(j + 1).last() == id);
            }
            proof {
                self.lemma_wf();
            }
            if self.is_alive(id) {
                let ghost before = *self;
                let ghost dead_before = dead@;
                let i = id.index as usize;
                proof {
                    assert(start.alive(id));
                    assert(!dead@.contains(id));
                    // No earlier kill touched this slot.
                    assert(!killed_in(dead@, i as int)) by {
                        if killed_in(dead@, i as int) {
                            let k = choose|k: int| 0 <= k < dead@.len() && dead@[k].idx() == i;
                            assert(dead@.contains(dead@[k]));
                            assert(start.alive(dead@[k]));
                            EntityId::lemma_id_parts(dead@[k], id);
                        }
                    }
                    assert(!self.free_list@.contains(id.index)) by {
                        if self.free_list@.contains(id.index) {
                            let k = choose|k: int| 0 <= k < self.free_list@.len() && self.free_list@[k] == id.index;
                            assert(self.free_list@[k] == id.index);
                        }
                    }
                }
                let mut entry = self.entries[i];
                let ghost g0 = entry.id.generation;
                assert(g0 == id.gen());
                entry.sets = BitSet::<1>::default();
                proof {
                    entry.sets.lemma_view_len();
                }
                if entry.id.generation == MAX_GENERATION {
                    entry.id.generation = 0;
                    self.entries.set(i, entry);
                } else {
                    entry.id.generation = entry.id.generation + 1;
                    self.entries.set(i, entry);
                    self.free_list.push(id.index);
                }
                dead.push(id);
                proof {
                    let d = dead@;
                    assert(d == dead_before.push(id));
                    assert(d.drop_last() =~= dead_before);
                    assert(start.alive(id));
                    assert(!dead_before.contains(id));
                    assert(swept_ids(marked@.take(j + 1), start) == dead_before.push(id));
                    assert(id.gen() == g0);
                    assert(d.drop_last() =~= before_dead(d));
                    lemma_released_push(d);
                    assert(self.free() =~= start.free() + released_slots(dead@));
                    assert forall|k1: int, k2: int|
                        0 <= k1 < d.len() && 0 <= k2 < d.len() && k1 != k2 implies d[k1].idx() != d[k2].idx() by {}
                    assert forall|k: int|
                        0 <= k < self.free_list@.len() implies {
                            let g = #[trigger] self.free_list@[k];
                            &&& 1 <= g < CAPACITY
                            &&& self.entries@[g as int].id.generation % 2 == 0
                        } by {
                        if k < before.free_list@.len() {
                            assert(self.free_list@[k] == before.free_list@[k]);
                        }
                    }
                    assert(self.free_list@.no_duplicates()) by {
                        assert forall|k1: int, k2: int|
                            0 <= k1 < self.free_list@.len() && 0 <= k2 < self.free_list@.len() && k1 != k2
                            implies self.free_list@[k1] != self.free_list@[k2] by {
                            if k1 < before.free_list@.len() && k2 < before.free_list@.len() {
                                assert(before.free_list@[k1] == self.free_list@[k1]);
                                assert(before.free_list@[k2] == self.free_list@[k2]);
                            } else if k1 < before.free_list@.len() {
                                assert(before.free_list@.contains(self.free_list@[k1]));
                            } else if k2 < before.free_list@.len() {
                                assert(before.free_list@.contains(self.free_list@[k2]));
                            }
                        }
                    }
                    assert forall|s: int|
                        1 <= s < CAPACITY && (#[trigger] self.entries@[s]).id.generation % 2 == 0
                            && self.entries@[s].id.generation != 0 implies self.free_list@.contains(s as u16) by {
                        if s != i {
                            assert(before.entries@[s] == self.entries@[s]);
                            let k = choose|k: int| 0 <= k < before.free_list@.len() && before.free_list@[k] == s as u16;
                            assert(self.free_list@[k] == s as u16);
                        } else {
                            assert(self.free_list@[self.free_list@.len() - 1] == s as u16);
                        }
                    }
                    assert forall|s: int| 0 <= s < CAPACITY implies #[trigger] slot_after_kills(
                        *self,
                        start,
                        dead@,
                        s,
                    ) by {
                        assert(slot_after_kills(before, start, dead_before, s));
                        if s == i {
                            assert(dead@[dead@.len() - 1].idx() == s);
                            assert(killed_in(dead@, s));
                            assert(before.slot(s) == start.slot(s));
                            assert(start.slot(s) == id);
                            EntityId::lemma_id_parts(self.slot(s), EntityId::make(s as u16, next_dead_generation(g0)));
                            assert(self.slot(s) == EntityId::make(s as u16, next_dead_generation(start.slot(s).gen())));
                            assert(self.bits(s) == entry.sets@);
                            assert(forall|b: int| 0 <= b < 64 ==> !self.bits(s)[b]);
                        } else {
                            assert(self.entries@[s] == before.entries@[s]);
                            assert(self.slot(s) == before.slot(s));
                            assert(self.bits(s) == before.bits(s));
                            if killed_in(dead@, s) {
                                let k = choose|k: int| 0 <= k < dead@.len() && dead@[k].idx() == s;
                                assert(k < dead@.len() - 1);
                                assert(dead_before[k].idx() == s);
                                assert(killed_in(dead_before, s));
                                assert(before.slot(s) == EntityId::make(
                                    s as u16,
                                    next_dead_generation(start.slot(s).gen()),
                                ));
                            } else {
                                assert(!killed_in(dead_before, s)) by {
                                    if killed_in(dead_before, s) {
                                        let k = choose|k: int| 0 <= k < dead_before.len() && dead_before[k].idx() == s;
                                        assert(dead@[k].idx() == s);
                                    }
                                }
                                assert(before.slot(s) == start.slot(s));
                            }
                        }
                    }
                    assert forall|x: EntityId| #[trigger] dead@.contains(x) implies start.alive(x) && self.stale(x) by {
                        if x == id {
                        } else {
                            let k = choose|k: int| 0 <= k < dead@.len() && dead@[k] == x;
                            assert(before_dead(dead@).contains(x)) by {
                                assert(k < dead@.len() - 1);
                                assert(before_dead(dead@)[k] == x);
                            }
                            assert(x.idx() != id.idx()) by {
                                assert(dead@[dead@.len() - 1] == id);
                            }
                            if before.slot(x.idx() as int).gen() == 0 {
                                assert(!self.free().contains(x.idx())) by {
                                    if self.free().contains(x.idx()) {
                                        let k2 = choose|k2: int| 0 <= k2 < self.free_list@.len() && self.free_list@[k2] == x.idx();
                                        if k2 < before.free_list@.len() {
                                            assert(before.free_list@[k2] == x.idx());
                                        }
                                    }
                                }
                            }
                        }
                    }
                    assert forall|x: EntityId| #[trigger] start.alive(x) && !dead@.contains(x) implies self.alive(x) by {
                        assert(!before_dead(dead@).contains(x)) by {
                            if before_dead(dead@).contains(x) {
                                let k = choose|k: int| 0 <= k < before_dead(dead@).len() && before_dead(dead@)[k] == x;
                                assert(dead@[k] == x);
                            }
                        }
                        assert(before.alive(x));
                        if x.idx() == id.idx() {
                            EntityId::lemma_id_parts(x, id);
                            assert(dead@[dead@.len() - 1] == id);
                        }
                    }
                    assert forall|x: EntityId| #[trigger] start.stale(x) implies self.stale(x) by {
                        assert(before.stale(x));
                        if x.idx() != id.idx() && before.slot(x.idx() as int).gen() == 0 && !before.free().contains(x.idx()) {
                            assert(!self.free().contains(x.idx())) by {
                                if self.free().contains(x.idx()) {
                                    let k2 = choose|k2: int| 0 <= k2 < self.free_list@.len() && self.free_list@[k2] == x.idx();
                                    if k2 < before.free_list@.len() {
                                        assert(before.free_list@[k2] == x.idx());
                                    }
                                }
                            }
                        }
                    }
                    assert forall|x: EntityId| !(#[trigger] start.alive(x)) implies !self.alive(x) by {
                        assert(!before.alive(x));
                        if x.idx() == id.idx() && x.valid() {
                            EntityId::lemma_id_parts(x, id);
                        }
                    }
                }
            }
            else {
                proof {
                    if start.alive(id) {
                        assert(dead@.contains(id));
                    }
                    assert(swept_ids(marked@.take(j + 1), start) == dead@);
                }
            }
            j = j + 1;
        }
        proof {
            assert(marked@.take(marked@.len() as int) =~= marked@);
        }
        dead
    }
}

/// Whether one of `dead` lived in slot `i`.
pub open spec fn killed_in(dead: Seq<EntityId>, i: int) -> bool {
    exists|k: int| 0 <= k < dead.len() && dead[k].idx() == i
}

/// Slot `i` after killing `dead` in `start`: bumped to its next dead
/// generation with its bits cleared, or untouched.
pub open spec fn slot_after_kills(now: Ids, start: Ids, dead: Seq<EntityId>, i: int) -> bool {
    if killed_in(dead, i) {
        &&& now.slot(i) == EntityId::make(i as u16, next_dead_generation(start.slot(i).gen()))
        &&& forall|b: int| 0 <= b < 64 ==> !now.bits(i)[b]
    } else {
        &&& now.slot(i) == start.slot(i)
        &&& now.bits(i) == start.bits(i)
    }
}

/// Every slot of `now` is `start`'s after killing `dead`.
pub open spec fn slots_after_kills(now: Ids, start: Ids, dead: Seq<EntityId>) -> bool {
    forall|i: int| 0 <= i < CAPACITY ==> #[trigger] slot_after_kills(now, start, dead, i)
}

/// `now` is `start` after a sweep that killed `dead`: each dead id was
/// alive and is now stale, its slot moved on with cleared bits, every other
/// slot untouched, and liveness changed for the dead alone.
pub open spec fn swept_to(start: Ids, now: Ids, dead: Seq<EntityId>) -> bool {
    &&& slots_after_kills(now, start, dead)
    &&& forall|x: EntityId| #[trigger] dead.contains(x) ==> start.alive(x) && now.stale(x)
    &&& forall|x: EntityId| #[trigger] start.alive(x) && !dead.contains(x) ==> now.alive(x)
    &&& forall|x: EntityId| !(#[trigger] start.alive(x)) ==> !now.alive(x)
}

/// Slot `i` is retired: its generations ran out, it holds generation 0,
/// and it is not on the free list.
pub open spec fn retired(ids: Ids, i: int) -> bool {
    &&& 1 <= i < CAPACITY
    &&& ids.slot(i).gen() == 0
    &&& !ids.free().contains(i as u16)
}

/// Released slots are slots of the dead.
proof fn lemma_released_from_dead(dead: Seq<EntityId>, i: u16)
    requires
        released_slots(dead).contains(i),
    ensures
        killed_in(dead, i as int),
    decreases dead.len(),
{
    if dead.len() > 0 {
        let prev = released_slots(dead.drop_last());
        if prev.contains(i) {
            lemma_released_from_dead(dead.drop_last(), i);
            let k = choose|k: int| 0 <= k < dead.drop_last().len() && dead.drop_last()[k].idx() == i;
            assert(dead[k] == dead.drop_last()[k]);
        } else {
            assert(dead[dead.len() - 1] == dead.last());
        }
    }
}

/// A retired slot is never handed out again. A spawn (which takes the last
/// free slot, `before.free().last()`, and touches no other) returns an id
/// in another slot and leaves the slot retired; so does a sweep that
/// kills `dead` (releasing `released_slots(dead)`).
pub proof fn lemma_retired_stays(before: Ids, after_spawn: Ids, id: EntityId, after_sweep: Ids, dead: Seq<EntityId>, i: int)
    requires
        retired(before, i),
        before.free().len() > 0,
        id.idx() == before.free().last(),
        forall|j: int| 0 <= j < CAPACITY && j != id.idx() ==> #[trigger] after_spawn.slot(j) == before.slot(j),
        after_spawn.free() == before.free().drop_last(),
        swept_to(before, after_sweep, dead),
        after_sweep.free() == before.free() + released_slots(dead),
    ensures
        id.idx() != i,
        retired(after_spawn, i),
        retired(after_sweep, i),
{
    assert(before.free()[before.free().len() - 1] == before.free().last());
    if after_spawn.free().contains(i as u16) {
        let k = choose|k: int| 0 <= k < after_spawn.free().len() && after_spawn.free()[k] == i as u16;
        assert(before.free()[k] == i as u16);
    }
    assert(slot_after_kills(after_sweep, before, dead, i));
    if killed_in(dead, i) {
        let k = choose|k: int| 0 <= k < dead.len() && dead[k].idx() == i;
        assert(dead.contains(dead[k]));
        assert(before.alive(dead[k]));
        assert(false);
    }
    if after_sweep.free().contains(i as u16) {
        let k = choose|k: int| 0 <= k < after_sweep.free().len() && after_sweep.free()[k] == i as u16;
        if k < before.free().len() {
            assert(before.free()[k] == i as u16);
        } else {
            assert(released_slots(dead)[k - before.free().len()] == i as u16);
            lemma_released_from_dead(dead, i as u16);
        }
    }
}

/// Every dead id but the last.
spec fn before_dead(d: Seq<EntityId>) -> Seq<EntityId> {
    d.drop_last()
}

proof fn lemma_released_push(d: Seq<EntityId>)
    requires
        d.len() > 0,
    ensures
        released_slots(d) == if d.last().gen() == MAX_GENERATION {
            released_slots(d.drop_last())
        } else {
            released_slots(d.drop_last()).push(d.last().idx())
        },
{
}

} // verus!
