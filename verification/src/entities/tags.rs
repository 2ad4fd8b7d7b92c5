use vstd::prelude::*;
use crate::entities::id::{EntityId, Ids};
use crate::util::text::same_text;

verus! {

/// Unique string handles onto single entities ("player", "capital").
/// A tag holds at most one id; binding over an existing tag replaces it.
#[derive(Clone)]
pub struct Tags {
    entries: Vec<(String, EntityId)>,
}

impl Default for Tags {
    fn default() -> (t: Tags)
        ensures
            t.wf(),
            t.map() == Map::<Seq<char>, EntityId>::empty(),
    {
        let t = Tags { entries: Vec::new() };
        assert(t.map() =~= Map::<Seq<char>, EntityId>::empty());
        t
    }
}

impl Tags {
    /// Where tag `k` is stored.
    spec fn position(&self, k: Seq<char>) -> int {
        choose|i: int| 0 <= i < self.entries@.len() && self.entries@[i].0@ == k
    }

    spec fn stored(&self, k: Seq<char>) -> bool {
        exists|i: int| 0 <= i < self.entries@.len() && self.entries@[i].0@ == k
    }

    /// The bindings, tag text to id.
    pub closed spec fn map(&self) -> Map<Seq<char>, EntityId> {
        Map::new(|k: Seq<char>| self.stored(k), |k: Seq<char>| self.entries@[self.position(k)].1)
    }

    /// Each tag is stored once.
    pub closed spec fn wf(&self) -> bool {
        forall|i: int, j: int|
            0 <= i < self.entries@.len() && 0 <= j < self.entries@.len() && i != j
                ==> #[trigger] self.entries@[i].0@ != #[trigger] self.entries@[j].0@
    }

    proof fn lemma_position(&self, i: int)
        requires
            self.wf(),
            0 <= i < self.entries@.len(),
        ensures
            self.position(self.entries@[i].0@) == i,
            self.map().contains_key(self.entries@[i].0@),
            self.map()[self.entries@[i].0@] == self.entries@[i].1,
    {
        let k = self.entries@[i].0@;
        assert(self.stored(k));
        let p = self.position(k);
        assert(self.entries@[p].0@ == k);
    }

    /// Where `tag` is stored, if anywhere.
    fn find(&self, tag: &str) -> (r: Option<usize>)
        requires
            self.wf(),
        ensures
            match r {
                Some(i) => i < self.entries@.len() && self.entries@[i as int].0@ == tag@,
                None => !self.map().contains_key(tag@),
            },
    {
        let mut i: usize = 0;
        while i < self.entries.len()
            invariant
                i <= self.entries@.len(),
                forall|k: int| 0 <= k < i ==> self.entries@[k].0@ != tag@,
            decreases self.entries@.len() - i,
        {
            if same_text(self.entries[i].0.as_str(), tag) {
                return Some(i);
            }
            i = i + 1;
        }
        None
    }

    /// The entity bound to `tag`, if any.
    pub fn lookup(&self, tag: &str) -> (r: Option<EntityId>)
        requires
            self.wf(),
        ensures
            r == if self.map().contains_key(tag@) { Some(self.map()[tag@]) } else { None },
    {
        match self.find(tag) {
            Some(i) => {
                proof {
                    self.lemma_position(i as int);
                }
                Some(self.entries[i].1)
            },
            None => None,
        }
    }

    /// Bind `tag` to the live entity `id`, returning what it was bound to.
    pub fn bind(&mut self, ids: &Ids, tag: &str, id: EntityId) -> (r: Option<EntityId>)
        requires
            old(self).wf(),
            ids.wf(),
            ids.alive(id),
        ensures
            final(self).wf(),
            final(self).map() == old(self).map().insert(tag@, id),
            r == if old(self).map().contains_key(tag@) { Some(old(self).map()[tag@]) } else { None },
    {
        match self.find(tag) {
            Some(i) => {
                proof {
                    self.lemma_position(i as int);
                }
                let previous = self.entries[i].1;
                let key = self.entries[i].0.clone();
                self.entries.set(i, (key, id));
                proof {
                    assert forall|k: Seq<char>| #[trigger] self.map().contains_key(k) == old(self).map().insert(tag@, id).contains_key(k) by {
                        if old(self).stored(k) {
                            let p = old(self).position(k);
                            assert(self.entries@[p].0@ == k);
                        }
                        if self.stored(k) {
                            let p = self.position(k);
                            assert(old(self).entries@[p].0@ == k);
                        }
                    }
                    assert forall|k: Seq<char>| #[trigger] self.map().contains_key(k) implies self.map()[k] == old(self).map().insert(tag@, id)[k] by {
                        let p = self.position(k);
                        assert(self.entries@[p].0@ == k);
                        self.lemma_position(p);
                        if k != tag@ {
                            old(self).lemma_position(p);
                        }
                    }
                    assert(self.map() =~= old(self).map().insert(tag@, id));
                }
                Some(previous)
            },
            None => {
                self.entries.push((tag.to_owned(), id));
                proof {
                    let n = old(self).entries@.len() as int;
                    assert forall|k: Seq<char>| #[trigger] self.map().contains_key(k) == old(self).map().insert(tag@, id).contains_key(k) by {
                        if old(self).stored(k) {
                            let p = old(self).position(k);
                            assert(self.entries@[p].0@ == k);
                        }
                        if k == tag@ {
                            assert(self.entries@[n].0@ == k);
                        }
                        if self.stored(k) && k != tag@ {
                            let p = self.position(k);
                            assert(p != n);
                            assert(old(self).entries@[p].0@ == k);
                        }
                    }
                    assert forall|k: Seq<char>| #[trigger] self.map().contains_key(k) implies self.map()[k] == old(self).map().insert(tag@, id)[k] by {
                        let p = self.position(k);
                        assert(self.entries@[p].0@ == k);
                        self.lemma_position(p);
                        if p != n {
                            old(self).lemma_position(p);
                        }
                    }
                    assert(self.map() =~= old(self).map().insert(tag@, id));
                }
                None
            },
        }
    }

    /// Remove `tag`, returning what it was bound to.
    pub fn unbind(&mut self, tag: &str) -> (r: Option<EntityId>)
        requires
            old(self).wf(),
        ensures
            final(self).wf(),
            final(self).map() == old(self).map().remove(tag@),
            r == if old(self).map().contains_key(tag@) { Some(old(self).map()[tag@]) } else { None },
    {
        match self.find(tag) {
            Some(i) => {
                proof {
                    self.lemma_position(i as int);
                }
                let (_, previous) = self.entries.remove(i);
                proof {
                    let o = old(self).entries@;
                    assert forall|p: int| 0 <= p < self.entries@.len() implies #[trigger] self.entries@[p] == if p < i { o[p] } else { o[p + 1] } by {}
                    assert forall|k: Seq<char>| #[trigger] self.map().contains_key(k) == old(self).map().remove(tag@).contains_key(k) by {
                        if old(self).stored(k) && k != tag@ {
                            let p = old(self).position(k);
                            assert(p != i);
                            if p < i {
                                assert(self.entries@[p].0@ == k);
                            } else {
                                assert(self.entries@[p - 1].0@ == k);
                            }
                        }
                        if self.stored(k) {
                            let p = self.position(k);
                            if p < i {
                                assert(o[p].0@ == k);
                            } else {
                                assert(o[p + 1].0@ == k);
                            }
                        }
                    }
                    assert forall|k: Seq<char>| #[trigger] self.map().contains_key(k) implies self.map()[k] == old(self).map().remove(tag@)[k] by {
                        let p = self.position(k);
                        assert(self.entries@[p].0@ == k);
                        self.lemma_position(p);
                        if p < i {
                            old(self).lemma_position(p);
                        } else {
                            old(self).lemma_position(p + 1);
                        }
                    }
                    assert(self.map() =~= old(self).map().remove(tag@));
                }
                Some(previous)
            },
            None => {
                proof {
                    assert(self.map() =~= old(self).map().remove(tag@));
                }
                None
            },
        }
    }

    /// Drop tags whose entity died: a full scan, tags are few.
    pub fn purge(&mut self, ids: &Ids)
        requires
            old(self).wf(),
            ids.wf(),
        ensures
            final(self).wf(),
            forall|k: Seq<char>| #[trigger] final(self).map().contains_key(k) <==> old(self).map().contains_key(k)
                && ids.alive(old(self).map()[k]),
            forall|k: Seq<char>| #[trigger] final(self).map().contains_key(k) ==> final(self).map()[k] == old(self).map()[k],
    {
        let mut kept: Vec<(String, EntityId)> = Vec::new();
        let mut i: usize = 0;
        while i < self.entries.len()
            invariant
                self.wf(),
                ids.wf(),
                *self == *old(self),
                i <= self.entries@.len(),
                forall|p: int, q: int| 0 <= p < kept@.len() && 0 <= q < kept@.len() && p != q
                    ==> #[trigger] kept@[p].0@ != #[trigger] kept@[q].0@,
                forall|p: int| 0 <= p < kept@.len() ==> exists|q: int| 0 <= q < i && #[trigger] kept@[p].0@ == self.entries@[q].0@
                    && kept@[p].1 == self.entries@[q].1,
                forall|p: int| 0 <= p < kept@.len() ==> ids.alive(#[trigger] kept@[p].1),
                forall|q: int| 0 <= q < i && ids.alive(self.entries@[q].1) ==> exists|p: int| 0 <= p < kept@.len() && #[trigger] kept@[p].0@ == self.entries@[q].0@,
            decreases self.entries@.len() - i,
        {
            let id = self.entries[i].1;
            if ids.is_alive(id) {
                let key = self.entries[i].0.clone();
                let ghost before = kept@;
                kept.push((key, id));
                proof {
                    assert forall|p: int| 0 <= p < before.len() implies #[trigger] before[p].0@ != self.entries@[i as int].0@ by {
                        let q = choose|q: int| 0 <= q < i && #[trigger] before[p].0@ == self.entries@[q].0@ && before[p].1 == self.entries@[q].1;
                        assert(self.entries@[q].0@ != self.entries@[i as int].0@);
                    }
                    assert(kept@[before.len() as int].0@ == self.entries@[i as int].0@);
                    assert forall|q: int| 0 <= q < i + 1 && ids.alive(self.entries@[q].1) implies exists|p: int| 0 <= p < kept@.len() && #[trigger] kept@[p].0@ == self.entries@[q].0@ by {
                        if q < i {
                            let p = choose|p: int| 0 <= p < before.len() && #[trigger] before[p].0@ == self.entries@[q].0@;
                            assert(kept@[p] == before[p]);
                        } else {
                            assert(kept@[before.len() as int].0@ == self.entries@[q].0@);
                        }
                    }
                    assert forall|p: int| 0 <= p < kept@.len() implies exists|q: int| 0 <= q < i + 1 && #[trigger] kept@[p].0@ == self.entries@[q].0@
                        && kept@[p].1 == self.entries@[q].1 by {
                        if p < before.len() {
                            assert(kept@[p] == before[p]);
                        } else {
                            assert(kept@[p].0@ == self.entries@[i as int].0@);
                        }
                    }
                }
            }
            i = i + 1;
        }
        let ghost o = *old(self);
        self.entries = kept;
        proof {
            assert forall|k: Seq<char>| #[trigger] self.map().contains_key(k) <==> o.map().contains_key(k) && ids.alive(o.map()[k]) by {
                if self.stored(k) {
                    let p = self.position(k);
                    let q = choose|q: int| 0 <= q < o.entries@.len() && #[trigger] self.entries@[p].0@ == o.entries@[q].0@
                        && self.entries@[p].1 == o.entries@[q].1;
                    o.lemma_position(q);
                }
                if o.stored(k) && ids.alive(o.map()[k]) {
                    let q = o.position(k);
                    o.lemma_position(q);
                    let p = choose|p: int| 0 <= p < self.entries@.len() && #[trigger] self.entries@[p].0@ == o.entries@[q].0@;
                    assert(self.entries@[p].0@ == k);
                }
            }
            assert forall|k: Seq<char>| #[trigger] self.map().contains_key(k) implies self.map()[k] == o.map()[k] by {
                let p = self.position(k);
                self.lemma_position(p);
                let q = choose|q: int| 0 <= q < o.entries@.len() && #[trigger] self.entries@[p].0@ == o.entries@[q].0@
                    && self.entries@[p].1 == o.entries@[q].1;
                o.lemma_position(q);
            }
        }
    }

    /// How many tags are bound.
    pub fn len(&self) -> (n: usize)
        requires
            self.wf(),
        ensures
            n == self.map().dom().len(),
    {
        proof {
            self.lemma_dom_len();
        }
        self.entries.len()
    }

    proof fn lemma_dom_len(&self)
        requires
            self.wf(),
        ensures
            self.map().dom().len() == self.entries@.len(),
            self.map().dom().finite(),
    {
        let keys = self.entries@.map_values(|e: (String, EntityId)| e.0@);
        assert(keys.no_duplicates()) by {
            assert forall|i: int, j: int| 0 <= i < keys.len() && 0 <= j < keys.len() && i != j implies keys[i] != keys[j] by {
                assert(self.entries@[i].0@ != self.entries@[j].0@);
            }
        }
        keys.unique_seq_to_set();
        assert(self.map().dom() =~= keys.to_set()) by {
            assert forall|k: Seq<char>| #[trigger] self.map().dom().contains(k) <==> keys.to_set().contains(k) by {
                if self.stored(k) {
                    let p = self.position(k);
                    assert(keys[p] == k);
                }
                if keys.to_set().contains(k) {
                    let p = choose|p: int| 0 <= p < keys.len() && keys[p] == k;
                    assert(self.entries@[p].0@ == k);
                }
            }
        }
    }
}

} // verus!
