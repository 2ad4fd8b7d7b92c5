use vstd::prelude::*;
use crate::entities::defs::{Definitions, UVarId, id_range};
use crate::entities::id::{EntityId, CAPACITY};

verus! {

/// A value that round-trips through a u64 slot losslessly:
/// `from_bits(to_bits(x)) == x`, and `from_bits(0)` is the type's
/// zero/none value, so a fresh slot reads as a valid "nothing".
pub trait Bits64: Copy + Sized {
    spec fn bits_of(self) -> u64;

    spec fn from_bits_spec(bits: u64) -> Self;

    fn to_bits(self) -> (r: u64)
        ensures
            r == self.bits_of(),
    ;

    fn from_bits(bits: u64) -> (r: Self)
        ensures
            r == Self::from_bits_spec(bits),
    ;

    /// Decoding what was encoded gives the value back.
    proof fn lemma_round_trip(x: Self)
        ensures
            Self::from_bits_spec(x.bits_of()) == x,
    ;
}

impl Bits64 for u64 {
    open spec fn bits_of(self) -> u64 {
        self
    }

    open spec fn from_bits_spec(bits: u64) -> u64 {
        bits
    }

    fn to_bits(self) -> (r: u64) {
        self
    }

    fn from_bits(bits: u64) -> (r: u64) {
        bits
    }

    proof fn lemma_round_trip(x: u64) {
    }
}

/// An entity id in a u64 slot is a weak, one-way reference: nothing purges
/// it on death, so read it back and check liveness at the point of use.
impl Bits64 for EntityId {
    open spec fn bits_of(self) -> u64 {
        self.bits()
    }

    open spec fn from_bits_spec(bits: u64) -> EntityId {
        EntityId::decode(bits)
    }

    fn to_bits(self) -> (r: u64) {
        EntityId::to_bits(self)
    }

    fn from_bits(bits: u64) -> (r: EntityId) {
        EntityId::from_bits(bits)
    }

    proof fn lemma_round_trip(x: EntityId) {
        x.lemma_bits_round_trip();
    }
}

/// Cell `(slot, var)` of a dense per-slot store with `stride` cells per slot
/// sits inside the store, and no other cell shares its index.
pub proof fn lemma_cell(slot: int, var: int, stride: int)
    requires
        0 <= slot < CAPACITY,
        0 <= var < stride,
    ensures
        0 <= slot * stride <= slot * stride + var < CAPACITY * stride,
        slot * stride + stride <= CAPACITY * stride,
        forall|s2: int, v2: int|
            0 <= s2 < CAPACITY && 0 <= v2 < stride && #[trigger] (s2 * stride + v2) == slot * stride
                + var ==> s2 == slot && v2 == var,
{
    assert(0 <= slot * stride) by (nonlinear_arith)
        requires 0 <= slot, 0 <= var < stride;
    assert(slot * stride + stride <= CAPACITY * stride) by (nonlinear_arith)
        requires slot + 1 <= CAPACITY, 0 <= var < stride;
    assert forall|s2: int, v2: int|
        0 <= s2 < CAPACITY && 0 <= v2 < stride && #[trigger] (s2 * stride + v2) == slot * stride + var
        implies s2 == slot && v2 == var by {
        assert(s2 == slot) by (nonlinear_arith)
            requires 0 <= v2 < stride, 0 <= var < stride, s2 * stride + v2 == slot * stride + var;
    }
}

/// Dense per-entity u64 slots: one per (slot, defined uvar). 0 is the
/// universal "absent/none" value.
#[derive(Clone)]
pub struct UVars {
    values: Vec<u64>,
    stride: usize,
}

impl UVars {
    /// How many uvars each slot carries.
    pub closed spec fn stride(&self) -> nat {
        self.stride as nat
    }

    /// The raw bits of uvar `var` of slot `slot`.
    pub closed spec fn value(&self, slot: int, var: int) -> u64 {
        self.values@[slot * self.stride + var]
    }

    pub closed spec fn wf(&self) -> bool {
        &&& self.stride <= 0x1_0000
        &&& self.values@.len() == CAPACITY * self.stride
    }

    /// Every slot's every uvar reads zero.
    pub fn new(defs: &Definitions) -> (u: UVars)
        ensures
            u.wf(),
            u.stride() == id_range(defs.uvar_names().len()).len(),
            forall|s: int, v: int| 0 <= s < CAPACITY && 0 <= v < u.stride() ==> #[trigger] u.value(s, v) == 0,
    {
        let stride = defs.uvar_count();
        assert(CAPACITY * stride <= CAPACITY * 0x1_0000) by (nonlinear_arith)
            requires stride <= 0x1_0000;
        let n = CAPACITY * stride;
        let mut values: Vec<u64> = Vec::new();
        let mut i: usize = 0;
        while i < n
            invariant
                i <= n,
                values@.len() == i,
                forall|k: int| 0 <= k < i ==> values@[k] == 0,
            decreases n - i,
        {
            values.push(0);
            i = i + 1;
        }
        let u = UVars { values, stride };
        assert forall|s: int, v: int| 0 <= s < CAPACITY && 0 <= v < u.stride() implies #[trigger] u.value(s, v) == 0 by {
            lemma_cell(s, v, stride as int);
        }
        u
    }

    fn idx(&self, id: EntityId, var: UVarId) -> (i: usize)
        requires
            self.wf(),
            (var.0 as int) < self.stride(),
            (id.idx() as int) < CAPACITY,
        ensures
            i == id.idx() * self.stride() + var.0,
            i < self.values@.len(),
    {
        proof {
            lemma_cell(id.idx() as int, var.0 as int, self.stride as int);
        }
        id.index() * self.stride + var.0 as usize
    }

    /// Uvar `var` of `id`'s slot, decoded.
    pub fn get<T: Bits64>(&self, id: EntityId, var: UVarId) -> (r: T)
        requires
            self.wf(),
            (var.0 as int) < self.stride(),
            (id.idx() as int) < CAPACITY,
        ensures
            r == T::from_bits_spec(self.value(id.idx() as int, var.0 as int)),
    {
        T::from_bits(self.values[self.idx(id, var)])
    }

    /// Store `value` in uvar `var` of `id`'s slot; every other cell keeps
    /// its value.
    pub fn set<T: Bits64>(&mut self, id: EntityId, var: UVarId, value: T)
        requires
            old(self).wf(),
            (var.0 as int) < old(self).stride(),
            (id.idx() as int) < CAPACITY,
        ensures
            final(self).wf(),
            final(self).stride() == old(self).stride(),
            final(self).value(id.idx() as int, var.0 as int) == value.bits_of(),
            forall|s: int, v: int|
                0 <= s < CAPACITY && 0 <= v < old(self).stride() && (s != id.idx() || v != var.0)
                    ==> #[trigger] final(self).value(s, v) == old(self).value(s, v),
    {
        let i = self.idx(id, var);
        self.values.set(i, value.to_bits());
        proof {
            assert forall|s: int, v: int|
                0 <= s < CAPACITY && 0 <= v < old(self).stride() && (s != id.idx() || v != var.0)
                    implies #[trigger] self.value(s, v) == old(self).value(s, v) by {
                lemma_cell(s, v, self.stride as int);
                lemma_cell(id.idx() as int, var.0 as int, self.stride as int);
            }
        }
    }

    /// Zero one slot's row. Called on spawn, so reused slots start clean.
    pub fn reset(&mut self, id: EntityId)
        requires
            old(self).wf(),
            (id.idx() as int) < CAPACITY,
        ensures
            final(self).wf(),
            final(self).stride() == old(self).stride(),
            forall|s: int, v: int| 0 <= s < CAPACITY && 0 <= v < old(self).stride() ==> #[trigger] final(self).value(s, v)
                == if s == id.idx() { 0 } else { old(self).value(s, v) },
    {
        proof {
            let st = self.stride as int;
            assert(id.idx() * st <= CAPACITY * st && CAPACITY * st <= CAPACITY * 0x1_0000) by (nonlinear_arith)
                requires (id.idx() as int) < CAPACITY, 0 <= st <= 0x1_0000;
        }
        let begin = id.index() * self.stride;
        let mut v: usize = 0;
        while v < self.stride
            invariant
                self.wf(),
                self.stride == old(self).stride,
                begin == id.idx() * self.stride,
                (id.idx() as int) < CAPACITY,
                v <= self.stride,
                forall|s: int, w: int| 0 <= s < CAPACITY && 0 <= w < self.stride ==> #[trigger] self.value(s, w)
                    == if s == id.idx() && w < v { 0 } else { old(self).value(s, w) },
            decreases self.stride - v,
        {
            proof {
                lemma_cell(id.idx() as int, v as int, self.stride as int);
            }
            let ghost before = *self;
            self.values.set(begin + v, 0);
            proof {
                assert forall|s: int, w: int| 0 <= s < CAPACITY && 0 <= w < self.stride implies #[trigger] self.value(s, w)
                    == if s == id.idx() && w < v + 1 { 0 } else { old(self).value(s, w) } by {
                    lemma_cell(s, w, self.stride as int);
                    assert(before.value(s, w) == if s == id.idx() && w < v { 0 } else { old(self).value(s, w) });
                }
            }
            v = v + 1;
        }
    }

    /// Copy the rows of `slots` wholesale from `src`, the day pass's
    /// carry-forward; every other row keeps its values.
    pub fn copy_chunk_from(&mut self, src: &UVars, slots: core::ops::Range<usize>)
        requires
            old(self).wf(),
            src.wf(),
            src.stride() == old(self).stride(),
            slots.start <= slots.end <= CAPACITY,
        ensures
            final(self).wf(),
            final(self).stride() == old(self).stride(),
            forall|s: int, v: int| 0 <= s < CAPACITY && 0 <= v < old(self).stride() ==> #[trigger] final(self).value(s, v)
                == if slots.start <= s < slots.end { src.value(s, v) } else { old(self).value(s, v) },
    {
        let stride = self.stride;
        let mut slot = slots.start;
        while slot < slots.end
            invariant
                self.wf(),
                src.wf(),
                self.stride == stride,
                src.stride == stride,
                slots.start <= slot <= slots.end <= CAPACITY,
                forall|s: int, v: int| 0 <= s < CAPACITY && 0 <= v < stride ==> #[trigger] self.value(s, v)
                    == if slots.start <= s < slot { src.value(s, v) } else { old(self).value(s, v) },
            decreases slots.end - slot,
        {
            let mut v: usize = 0;
            while v < stride
                invariant
                    self.wf(),
                    src.wf(),
                    self.stride == stride,
                    src.stride == stride,
                    slots.start <= slot < slots.end <= CAPACITY,
                    v <= stride,
                    forall|s: int, w: int| 0 <= s < CAPACITY && 0 <= w < stride ==> #[trigger] self.value(s, w)
                        == if (slots.start <= s < slot) || (s == slot && w < v) { src.value(s, w) } else { old(self).value(s, w) },
                decreases stride - v,
            {
                proof {
                    lemma_cell(slot as int, v as int, stride as int);
                }
                let i = slot * stride + v;
                let ghost before = *self;
                self.values.set(i, src.values[i]);
                proof {
                    assert forall|s: int, w: int| 0 <= s < CAPACITY && 0 <= w < stride implies #[trigger] self.value(s, w)
                        == if (slots.start <= s < slot) || (s == slot && w < v + 1) { src.value(s, w) } else { old(self).value(s, w) } by {
                        lemma_cell(s, w, stride as int);
                        assert(before.value(s, w) == if (slots.start <= s < slot) || (s == slot && w < v) { src.value(s, w) } else { old(self).value(s, w) });
                    }
                }
                v = v + 1;
            }
            slot = slot + 1;
        }
    }
}

} // verus!
