use vstd::prelude::*;
use crate::entities::defs::{Definitions, VarId, id_range};
use crate::entities::id::{EntityId, CAPACITY};
use crate::entities::uvars::lemma_cell;

verus! {

/// Dense per-entity scalars: one f32 per (slot, defined var), held as
/// its IEEE-754 bit pattern (`f32::to_bits`). The zero pattern is 0.0, the
/// universal "absent/none" value.
#[derive(Clone)]
pub struct Vars {
    values: Vec<u32>,
    stride: usize,
}

impl Vars {
    /// How many vars each slot carries.
    pub closed spec fn stride(&self) -> nat {
        self.stride as nat
    }

    /// The raw bits of var `var` of slot `slot`.
    pub closed spec fn value(&self, slot: int, var: int) -> u32 {
        self.values@[slot * self.stride + var]
    }

    pub closed spec fn wf(&self) -> bool {
        &&& self.stride <= 0x1_0000
        &&& self.values@.len() == CAPACITY * self.stride
    }

    /// Every slot's every var reads zero.
    pub fn new(defs: &Definitions) -> (u: Vars)
        ensures
            u.wf(),
            u.stride() == id_range(defs.var_names().len()).len(),
            forall|s: int, v: int| 0 <= s < CAPACITY && 0 <= v < u.stride() ==> #[trigger] u.value(s, v) == 0,
    {
        let stride = defs.var_count();
        assert(CAPACITY * stride <= CAPACITY * 0x1_0000) by (nonlinear_arith)
            requires stride <= 0x1_0000;
        let n = CAPACITY * stride;
        let mut values: Vec<u32> = Vec::new();
        let mut i: usize = 0;
        while i < n
            invariant
                i <= n,
                values@.len() == i,
                forall|k: int| 0 <= k < i ==> values@[k] == 0,
            decreases n - i,
        {
            values.push(0);
            i = i + 1;
        }
        let u = Vars { values, stride };
        assert forall|s: int, v: int| 0 <= s < CAPACITY && 0 <= v < u.stride() implies #[trigger] u.value(s, v) == 0 by {
            lemma_cell(s, v, stride as int);
        }
        u
    }

    fn idx(&self, id: EntityId, var: VarId) -> (i: usize)
        requires
            self.wf(),
            (var.0 as int) < self.stride(),
            (id.idx() as int) < CAPACITY,
        ensures
            i == id.idx() * self.stride() + var.0,
            i < self.values@.len(),
    {
        proof {
            lemma_cell(id.idx() as int, var.0 as int, self.stride as int);
        }
        id.index() * self.stride + var.0 as usize
    }

    /// The bit pattern of var `var` of `id`'s slot.
    pub fn get(&self, id: EntityId, var: VarId) -> (r: u32)
        requires
            self.wf(),
            (var.0 as int) < self.stride(),
            (id.idx() as int) < CAPACITY,
        ensures
            r == self.value(id.idx() as int, var.0 as int),
    {
        self.values[self.idx(id, var)]
    }

    /// Store `value` in var `var` of `id`'s slot; every other cell keeps
    /// its value.
    pub fn set(&mut self, id: EntityId, var: VarId, value: u32)
        requires
            old(self).wf(),
            (var.0 as int) < old(self).stride(),
            (id.idx() as int) < CAPACITY,
        ensures
            final(self).wf(),
            final(self).stride() == old(self).stride(),
            final(self).value(id.idx() as int, var.0 as int) == value,
            forall|s: int, v: int|
                0 <= s < CAPACITY && 0 <= v < old(self).stride() && (s != id.idx() || v != var.0)
                    ==> #[trigger] final(self).value(s, v) == old(self).value(s, v),
    {
        let i = self.idx(id, var);
        self.values.set(i, value);
        proof {
            assert forall|s: int, v: int|
                0 <= s < CAPACITY && 0 <= v < old(self).stride() && (s != id.idx() || v != var.0)
                    implies #[trigger] self.value(s, v) == old(self).value(s, v) by {
                lemma_cell(s, v, self.stride as int);
                lemma_cell(id.idx() as int, var.0 as int, self.stride as int);
            }
        }
    }

    /// Zero one slot's row. Called on spawn, so reused slots start clean.
    pub fn reset(&mut self, id: EntityId)
        requires
            old(self).wf(),
            (id.idx() as int) < CAPACITY,
        ensures
            final(self).wf(),
            final(self).stride() == old(self).stride(),
            forall|s: int, v: int| 0 <= s < CAPACITY && 0 <= v < old(self).stride() ==> #[trigger] final(self).value(s, v)
                == if s == id.idx() { 0 } else { old(self).value(s, v) },
    {
        proof {
            let st = self.stride as int;
            assert(id.idx() * st <= CAPACITY * st && CAPACITY * st <= CAPACITY * 0x1_0000) by (nonlinear_arith)
                requires (id.idx() as int) < CAPACITY, 0 <= st <= 0x1_0000;
        }
        let begin = id.index() * self.stride;
        let mut v: usize = 0;
        while v < self.stride
            invariant
                self.wf(),
                self.stride == old(self).stride,
                begin == id.idx() * self.stride,
                (id.idx() as int) < CAPACITY,
                v <= self.stride,
                forall|s: int, w: int| 0 <= s < CAPACITY && 0 <= w < self.stride ==> #[trigger] self.value(s, w)
                    == if s == id.idx() && w < v { 0 } else { old(self).value(s, w) },
            decreases self.stride - v,
        {
            proof {
                lemma_cell(id.idx() as int, v as int, self.stride as int);
            }
            let ghost before = *self;
            self.values.set(begin + v, 0);
            proof {
                assert forall|s: int, w: int| 0 <= s < CAPACITY && 0 <= w < self.stride implies #[trigger] self.value(s, w)
                    == if s == id.idx() && w < v + 1 { 0 } else { old(self).value(s, w) } by {
                    lemma_cell(s, w, self.stride as int);
                    assert(before.value(s, w) == if s == id.idx() && w < v { 0 } else { old(self).value(s, w) });
                }
            }
            v = v + 1;
        }
    }


    /// Copy the rows of `slots` wholesale from `src`, the day pass's
    /// carry-forward; every other row keeps its values.
    pub fn copy_chunk_from(&mut self, src: &Vars, slots: core::ops::Range<usize>)
        requires
            old(self).wf(),
            src.wf(),
            src.stride() == old(self).stride(),
            slots.start <= slots.end <= CAPACITY,
        ensures
            final(self).wf(),
            final(self).stride() == old(self).stride(),
            forall|s: int, v: int| 0 <= s < CAPACITY && 0 <= v < old(self).stride() ==> #[trigger] final(self).value(s, v)
                == if slots.start <= s < slots.end { src.value(s, v) } else { old(self).value(s, v) },
    {
        let stride = self.stride;
        let mut slot = slots.start;
        while slot < slots.end
            invariant
                self.wf(),
                src.wf(),
                self.stride == stride,
                src.stride == stride,
                slots.start <= slot <= slots.end <= CAPACITY,
                forall|s: int, v: int| 0 <= s < CAPACITY && 0 <= v < stride ==> #[trigger] self.value(s, v)
                    == if slots.start <= s < slot { src.value(s, v) } else { old(self).value(s, v) },
            decreases slots.end - slot,
        {
            let mut v: usize = 0;
            while v < stride
                invariant
                    self.wf(),
                    src.wf(),
                    self.stride == stride,
                    src.stride == stride,
                    slots.start <= slot < slots.end <= CAPACITY,
                    v <= stride,
                    forall|s: int, w: int| 0 <= s < CAPACITY && 0 <= w < stride ==> #[trigger] self.value(s, w)
                        == if (slots.start <= s < slot) || (s == slot && w < v) { src.value(s, w) } else { old(self).value(s, w) },
                decreases stride - v,
            {
                proof {
                    lemma_cell(slot as int, v as int, stride as int);
                }
                let i = slot * stride + v;
                let ghost before = *self;
                self.values.set(i, src.values[i]);
                proof {
                    assert forall|s: int, w: int| 0 <= s < CAPACITY && 0 <= w < stride implies #[trigger] self.value(s, w)
                        == if (slots.start <= s < slot) || (s == slot && w < v + 1) { src.value(s, w) } else { old(self).value(s, w) } by {
                        lemma_cell(s, w, stride as int);
                        assert(before.value(s, w) == if (slots.start <= s < slot) || (s == slot && w < v) { src.value(s, w) } else { old(self).value(s, w) });
                    }
                }
                v = v + 1;
            }
            slot = slot + 1;
        }
    }

}

} // verus!
