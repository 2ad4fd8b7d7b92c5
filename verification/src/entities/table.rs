use vstd::prelude::*;
use crate::entities::id::{EntityId, CAPACITY};

verus! {

/// `d` is a value `T::default()` returns.
pub open spec fn is_default<T: Default>(d: T) -> bool {
    call_ensures(T::default, (), d)
}

/// A dense per-entity column of typed POD rows, indexed by entity slot.
/// Each row carries its owner's id, so stale access is caught right here
/// with no look into `Ids`. Rows hold `T::default()` until set; slot
/// hygiene comes from the spawner calling [`Table::reset`], which claims
/// the slot for the fresh id with a zero row.
#[derive(Clone)]
pub struct Table<T> {
    rows: Vec<(EntityId, T)>,
}

impl<T: Copy + Default> Table<T> {
    /// The row of slot `i`: its owner and its value.
    pub closed spec fn row(&self, i: int) -> (EntityId, T) {
        self.rows@[i]
    }

    pub closed spec fn wf(&self) -> bool {
        self.rows@.len() == CAPACITY
    }

    /// Every row owned by the null id, holding the default value.
    pub fn new() -> (t: Table<T>)
        ensures
            t.wf(),
            forall|i: int| 0 <= i < CAPACITY ==> (#[trigger] t.row(i)).0 == EntityId::null_spec() && is_default(t.row(i).1),
    {
        let mut rows: Vec<(EntityId, T)> = Vec::new();
        let mut i: usize = 0;
        while i < CAPACITY
            invariant
                i <= CAPACITY,
                rows@.len() == i,
                forall|j: int| 0 <= j < i ==> (#[trigger] rows@[j]).0 == EntityId::null_spec() && is_default(rows@[j].1),
            decreases CAPACITY - i,
        {
            rows.push((EntityId::null(), T::default()));
            i = i + 1;
        }
        Table { rows }
    }

    /// `id`'s row; the slot must still belong to `id`.
    pub fn get(&self, id: EntityId) -> (r: &T)
        requires
            self.wf(),
            (id.idx() as int) < CAPACITY,
            self.row(id.idx() as int).0 == id,
        ensures
            *r == self.row(id.idx() as int).1,
    {
        &self.rows[id.index()].1
    }

    /// `id`'s row, writable in place; the slot must still belong to `id`.
    pub fn get_mut(&mut self, id: EntityId) -> (r: &mut T)
        requires
            old(self).wf(),
            (id.idx() as int) < CAPACITY,
            old(self).row(id.idx() as int).0 == id,
        ensures
            *r == old(self).row(id.idx() as int).1,
            final(self).wf(),
            final(self).row(id.idx() as int) == (id, *final(r)),
            forall|i: int| 0 <= i < CAPACITY && i != id.idx() ==> #[trigger] final(self).row(i) == old(self).row(i),
    {
        let entry = &mut self.rows[id.index()];
        &mut entry.1
    }

    /// Claim `id`'s slot with `row`.
    pub fn set(&mut self, id: EntityId, row: T)
        requires
            old(self).wf(),
            (id.idx() as int) < CAPACITY,
        ensures
            final(self).wf(),
            final(self).row(id.idx() as int) == (id, row),
            forall|i: int| 0 <= i < CAPACITY && i != id.idx() ==> #[trigger] final(self).row(i) == old(self).row(i),
    {
        self.rows.set(id.index(), (id, row));
    }

    /// Claim a slot for a fresh id with the default row. Called on spawn,
    /// so reused slots start clean and the old occupant's id stops
    /// matching.
    pub fn reset(&mut self, id: EntityId)
        requires
            old(self).wf(),
            (id.idx() as int) < CAPACITY,
        ensures
            final(self).wf(),
            final(self).row(id.idx() as int).0 == id,
            is_default(final(self).row(id.idx() as int).1),
            forall|i: int| 0 <= i < CAPACITY && i != id.idx() ==> #[trigger] final(self).row(i) == old(self).row(i),
    {
        self.rows.set(id.index(), (id, T::default()));
    }

    /// Copy the rows of `slots` wholesale from `src`, the day pass's
    /// carry-forward; every other row keeps its value.
    pub fn copy_chunk_from(&mut self, src: &Table<T>, slots: core::ops::Range<usize>)
        requires
            old(self).wf(),
            src.wf(),
            slots.start <= slots.end <= CAPACITY,
        ensures
            final(self).wf(),
            forall|i: int| 0 <= i < CAPACITY ==> #[trigger] final(self).row(i) == if slots.start <= i < slots.end {
                src.row(i)
            } else {
                old(self).row(i)
            },
    {
        let mut slot = slots.start;
        while slot < slots.end
            invariant
                self.wf(),
                src.wf(),
                slots.start <= slot <= slots.end <= CAPACITY,
                forall|i: int| 0 <= i < CAPACITY ==> #[trigger] self.row(i) == if slots.start <= i < slot {
                    src.row(i)
                } else {
                    old(self).row(i)
                },
            decreases slots.end - slot,
        {
            let ghost before = *self;
            let r = src.rows[slot];
            assert(r == src.row(slot as int));
            self.rows.set(slot, r);
            proof {
                assert forall|i: int| 0 <= i < CAPACITY implies #[trigger] self.row(i) == if slots.start <= i < slot + 1 {
                    src.row(i)
                } else {
                    old(self).row(i)
                } by {
                    if i != slot {
                        assert(self.row(i) == before.row(i));
                    }
                }
            }
            slot = slot + 1;
        }
    }

    /// Every slot's owner and row, in slot order: the raw column the
    /// spatial index is derived from.
    pub fn rows(&self) -> (r: &[(EntityId, T)])
        requires
            self.wf(),
        ensures
            r@.len() == CAPACITY,
            forall|i: int| 0 <= i < CAPACITY ==> #[trigger] r@[i] == self.row(i),
    {
        self.rows.as_slice()
    }
}

} // verus!
