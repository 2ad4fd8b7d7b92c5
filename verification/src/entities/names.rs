use vstd::prelude::*;
use vstd::string::StringSliceAdditionalSpecFns;
use crate::entities::id::{EntityId, CAPACITY};
use crate::util::span::Span;
use crate::util::text::{readable_range, string_bytes, string_len};

verus! {

/// A name handle: a span into the name store's shared buffer. The buffer
/// is append-only and never moves, so a symbol is valid for the lifetime
/// of the store and any number of entities can share one. ZII: the zero
/// symbol is the empty name.
#[derive(Clone, Copy, PartialEq, Eq, Debug)]
pub struct Symbol(Span);

impl Default for Symbol {
    fn default() -> (s: Symbol)
        ensures
            s.start() == 0 && s.end() == 0,
            s == Symbol::default_spec(),
    {
        Symbol(Span::default())
    }
}

impl Symbol {
    pub closed spec fn start(self) -> int {
        self.0.start as int
    }

    pub closed spec fn end(self) -> int {
        self.0.end()
    }
}

/// Per-entity names: one symbol per slot, all spanning one shared buffer.
#[derive(Clone)]
pub struct Names {
    /// Per-slot name symbols; the zero symbol = unnamed.
    symbols: Vec<Symbol>,
    /// The name vocabulary: every name ever added, append-only.
    buf: String,
}

impl Names {
    /// The vocabulary's bytes.
    pub closed spec fn vocabulary(&self) -> Seq<u8> {
        string_bytes(&self.buf)
    }

    /// The symbol slot `i` is named by.
    pub closed spec fn symbol(&self, i: int) -> Symbol {
        self.symbols@[i]
    }

    /// `sym` reads a whole name out of this store's vocabulary.
    pub open spec fn holds(&self, sym: Symbol) -> bool {
        &&& readable_range(self.vocabulary(), sym.start(), sym.end())
        &&& sym.end() <= u32::MAX
    }

    /// The bytes `sym` names.
    pub open spec fn text(&self, sym: Symbol) -> Seq<u8> {
        self.vocabulary().subrange(sym.start(), sym.end())
    }

    /// The bytes of slot `i`'s name.
    pub open spec fn name(&self, i: int) -> Seq<u8> {
        self.text(self.symbol(i))
    }

    pub closed spec fn wf(&self) -> bool {
        &&& self.symbols@.len() == CAPACITY
        &&& forall|i: int| 0 <= i < CAPACITY ==> self.holds(#[trigger] self.symbols@[i])
    }

    /// Every slot unnamed, the vocabulary empty.
    pub fn new() -> (n: Names)
        ensures
            n.wf(),
            n.vocabulary().len() == 0,
            forall|i: int| 0 <= i < CAPACITY ==> (#[trigger] n.name(i)).len() == 0,
    {
        let mut symbols: Vec<Symbol> = Vec::new();
        let buf = String::new();
        proof {
            crate::util::text::lemma_encoded_valid(buf@);
        }
        let mut i: usize = 0;
        while i < CAPACITY
            invariant
                i <= CAPACITY,
                symbols@.len() == i,
                buf@.len() == 0,
                forall|j: int| 0 <= j < i ==> (#[trigger] symbols@[j]).start() == 0 && symbols@[j].end() == 0,
            decreases CAPACITY - i,
        {
            symbols.push(Symbol::default());
            i = i + 1;
        }
        let n = Names { symbols, buf };
        proof {
            assert(n.vocabulary() =~= Seq::<u8>::empty());
            crate::util::text::lemma_encoded_valid(n.buf@);
        }
        n
    }

    /// Adds a name to the vocabulary, returning the symbol that names
    /// entities with it. Adding the same text twice stores it twice.
    /// Every slot keeps its name, and every symbol keeps its text.
    pub fn add(&mut self, name: &str) -> (sym: Symbol)
        requires
            old(self).wf(),
            old(self).vocabulary().len() + name.spec_bytes().len() <= u32::MAX,
        ensures
            final(self).wf(),
            final(self).holds(sym),
            final(self).text(sym) == name.spec_bytes(),
            final(self).vocabulary() == old(self).vocabulary() + name.spec_bytes(),
            forall|s: Symbol| #[trigger] old(self).holds(s) ==> final(self).holds(s) && final(self).text(s) == old(self).text(s),
            forall|i: int| 0 <= i < CAPACITY ==> #[trigger] final(self).symbol(i) == old(self).symbol(i),
            forall|i: int| 0 <= i < CAPACITY ==> #[trigger] final(self).name(i) == old(self).name(i),
    {
        let span = Span::push_str(&mut self.buf, name);
        let sym = Symbol(span);
        proof {
            assert forall|s: Symbol| #[trigger] old(self).holds(s) implies self.holds(s) && self.text(s) == old(self).text(s) by {
                assert(readable_range(string_bytes(&old(self).buf), s.start(), s.end()));
            }
            assert forall|i: int| 0 <= i < CAPACITY implies self.holds(#[trigger] self.symbols@[i]) by {
                assert(old(self).holds(old(self).symbols@[i]));
            }
            assert forall|i: int| 0 <= i < CAPACITY implies #[trigger] self.name(i) == old(self).name(i) by {
                assert(old(self).holds(old(self).symbols@[i]));
            }
        }
        sym
    }

    /// Slot `id.index()`'s name.
    pub fn get(&self, id: EntityId) -> (r: &str)
        requires
            self.wf(),
            (id.idx() as int) < CAPACITY,
        ensures
            r.spec_bytes() == self.name(id.idx() as int),
    {
        let sym = self.symbols[id.index()];
        proof {
            assert(self.holds(self.symbols@[id.idx() as int]));
        }
        sym.0.str(self.buf.as_str())
    }

    /// Name slot `id.index()` with `name`.
    pub fn set(&mut self, id: EntityId, name: Symbol)
        requires
            old(self).wf(),
            (id.idx() as int) < CAPACITY,
            old(self).holds(name),
        ensures
            final(self).wf(),
            final(self).vocabulary() == old(self).vocabulary(),
            final(self).symbol(id.idx() as int) == name,
            final(self).name(id.idx() as int) == old(self).text(name),
            forall|i: int| 0 <= i < CAPACITY && i != id.idx() ==> #[trigger] final(self).symbol(i) == old(self).symbol(i),
    {
        self.symbols.set(id.index(), name);
    }

    /// Forget the dead's names; their vocabulary entries stay for reuse.
    pub fn purge(&mut self, dead: &[EntityId])
        requires
            old(self).wf(),
            forall|k: int| 0 <= k < dead@.len() ==> (#[trigger] dead@[k].idx() as int) < CAPACITY,
        ensures
            final(self).wf(),
            final(self).vocabulary() == old(self).vocabulary(),
            forall|i: int| 0 <= i < CAPACITY ==> #[trigger] final(self).symbol(i) == if exists|k: int| 0 <= k < dead@.len() && dead@[k].idx() == i {
                Symbol::default_spec()
            } else {
                old(self).symbol(i)
            },
    {
        let mut j: usize = 0;
        while j < dead.len()
            invariant
                self.wf(),
                self.vocabulary() == old(self).vocabulary(),
                j <= dead@.len(),
                forall|k: int| 0 <= k < dead@.len() ==> (#[trigger] dead@[k].idx() as int) < CAPACITY,
                forall|i: int| 0 <= i < CAPACITY ==> #[trigger] self.symbol(i) == if exists|k: int| 0 <= k < j && dead@[k].idx() == i {
                    Symbol::default_spec()
                } else {
                    old(self).symbol(i)
                },
            decreases dead@.len() - j,
        {
            let i = dead[j].index();
            proof {
                assert((dead@[j as int].idx() as int) < CAPACITY);
                crate::util::text::lemma_encoded_valid(self.buf@);
            }
            let ghost before = *self;
            self.symbols.set(i, Symbol::default());
            proof {
                assert forall|s: int| 0 <= s < CAPACITY implies #[trigger] self.symbol(s) == if exists|k: int| 0 <= k < j + 1 && dead@[k].idx() == s {
                    Symbol::default_spec()
                } else {
                    old(self).symbol(s)
                } by {
                    if s == i {
                        assert(dead@[j as int].idx() == s);
                        assert(exists|k: int| 0 <= k < j + 1 && dead@[k].idx() == s);
                    } else {
                        assert(self.symbol(s) == before.symbol(s));
                    }
                    if s == i {
                    } else if exists|k: int| 0 <= k < j + 1 && dead@[k].idx() == s {
                        let k = choose|k: int| 0 <= k < j + 1 && dead@[k].idx() == s;
                        assert(k < j);
                        assert(exists|k: int| 0 <= k < j && dead@[k].idx() == s);
                    } else {
                        assert(!exists|k: int| 0 <= k < j && dead@[k].idx() == s) by {
                            if exists|k: int| 0 <= k < j && dead@[k].idx() == s {
                                let k = choose|k: int| 0 <= k < j && dead@[k].idx() == s;
                                assert(0 <= k < j + 1 && dead@[k].idx() == s);
                            }
                        }
                    }
                }
            }
            j = j + 1;
        }
    }

    /// The vocabulary's size in bytes.
    pub fn vocabulary_len(&self) -> (n: usize)
        ensures
            n == self.vocabulary().len() as usize,
    {
        string_len(&self.buf)
    }
}

impl Symbol {
    pub closed spec fn default_spec() -> Symbol {
        Symbol(Span { start: 0, len: 0 })
    }
}

} // verus!
