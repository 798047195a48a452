//! Which connection a connection ID belongs to.

use vstd::prelude::*;

use crate::order;
use crate::order::{place_bytes, Place};

verus! {

struct Entry {
    id: Vec<u8>,
    slot: usize,
}

/// Slots by connection ID, in the order of the IDs.
pub struct IdTable {
    entries: Vec<Entry>,
}

impl View for IdTable {
    type V = Map<Seq<u8>, usize>;

    closed spec fn view(&self) -> Map<Seq<u8>, usize> {
        Map::new(
            |id: Seq<u8>| exists|i: int| self.holds(id, i),
            |id: Seq<u8>| self.entries@[choose|i: int| self.holds(id, i)].slot,
        )
    }
}

impl IdTable {
    spec fn holds(&self, id: Seq<u8>, i: int) -> bool {
        0 <= i < self.entries@.len() && self.entries@[i].id@ == id
    }

    /// Whether the IDs stand in order, each once.
    pub closed spec fn wf(&self) -> bool {
        forall|i: int, j: int|
            0 <= i < j < self.entries@.len() ==> order::precedes(
                order::values(#[trigger] self.entries@[i].id@),
                order::values(#[trigger] self.entries@[j].id@),
            )
    }

    proof fn lemma_at(&self, i: int)
        requires
            self.wf(),
            0 <= i < self.entries@.len(),
        ensures
            self@.contains_key(self.entries@[i].id@),
            self@[self.entries@[i].id@] == self.entries@[i].slot,
    {
        let id = self.entries@[i].id@;
        assert(self.holds(id, i));
        let j = choose|j: int| self.holds(id, j);
        order::precedes_is_irreflexive(order::values(id));
        assert(i == j);
    }

    pub fn new() -> (t: Self)
        ensures
            t.wf(),
            t@ == Map::<Seq<u8>, usize>::empty(),
    {
        let t = IdTable { entries: Vec::new() };
        assert(t@ =~= Map::<Seq<u8>, usize>::empty());
        t
    }

    /// Where an ID stands, or where it would.
    fn find(&self, id: &[u8]) -> (r: Result<usize, usize>)
        requires
            self.wf(),
        ensures
            match r {
                Ok(i) => self.holds(id@, i as int),
                Err(i) => {
                    &&& i <= self.entries@.len()
                    &&& !self@.contains_key(id@)
                    &&& forall|k: int|
                        0 <= k < i ==> order::precedes(
                            order::values(#[trigger] self.entries@[k].id@),
                            order::values(id@),
                        )
                    &&& forall|k: int|
                        i <= k < self.entries@.len() ==> order::precedes(
                            order::values(id@),
                            order::values(#[trigger] self.entries@[k].id@),
                        )
                },
            },
    {
        let mut low: usize = 0;
        let mut high: usize = self.entries.len();
        while low < high
            invariant
                self.wf(),
                low <= high <= self.entries@.len(),
                forall|k: int|
                    0 <= k < low ==> order::precedes(
                        order::values(#[trigger] self.entries@[k].id@),
                        order::values(id@),
                    ),
                forall|k: int|
                    high <= k < self.entries@.len() ==> order::precedes(
                        order::values(id@),
                        order::values(#[trigger] self.entries@[k].id@),
                    ),
            decreases high - low,
        {
            let mid: usize = low + (high - low) / 2;
            let ghost m = order::values(self.entries@[mid as int].id@);
            match place_bytes(self.entries[mid].id.as_slice(), id) {
                Place::Before => {
                    assert forall|k: int| 0 <= k < mid + 1 implies order::precedes(
                        order::values(#[trigger] self.entries@[k].id@),
                        order::values(id@),
                    ) by {
                        if k < mid {
                            order::precedes_is_transitive(
                                order::values(self.entries@[k].id@),
                                m,
                                order::values(id@),
                            );
                        }
                    }
                    low = mid + 1;
                },
                Place::Same => {
                    return Ok(mid);
                },
                Place::After => {
                    assert forall|k: int| mid <= k < self.entries@.len() implies order::precedes(
                        order::values(id@),
                        order::values(#[trigger] self.entries@[k].id@),
                    ) by {
                        if k > mid {
                            order::precedes_is_transitive(
                                order::values(id@),
                                m,
                                order::values(self.entries@[k].id@),
                            );
                        }
                    }
                    high = mid;
                },
            }
        }
        proof {
            if self@.contains_key(id@) {
                let k = choose|k: int| self.holds(id@, k);
                order::precedes_is_irreflexive(order::values(id@));
            }
        }
        Err(low)
    }

    /// The slot an ID belongs to.
    pub fn get(&self, id: &[u8]) -> (r: Option<usize>)
        requires
            self.wf(),
        ensures
            match r {
                Some(s) => self@.contains_key(id@) && self@[id@] == s,
                None => !self@.contains_key(id@),
            },
    {
        match self.find(id) {
            Ok(i) => {
                proof {
                    self.lemma_at(i as int);
                }
                Some(self.entries[i].slot)
            },
            Err(_) => None,
        }
    }

    /// Gives an ID to a slot.
    pub fn insert(&mut self, id: Vec<u8>, slot: usize)
        requires
            old(self).wf(),
        ensures
            final(self).wf(),
            final(self)@ == old(self)@.insert(id@, slot),
    {
        let ghost before = *self;
        let ghost key = id@;
        match self.find(id.as_slice()) {
            Ok(i) => {
                self.entries.set(i, Entry { id, slot });
                proof {
                    assert(self.wf()) by {
                        assert forall|a: int, b: int|
                            0 <= a < b < self.entries@.len() implies order::precedes(
                            order::values(#[trigger] self.entries@[a].id@),
                            order::values(#[trigger] self.entries@[b].id@),
                        ) by {
                            assert(order::precedes(
                                order::values(before.entries@[a].id@),
                                order::values(before.entries@[b].id@),
                            ));
                        }
                    }
                    assert forall|x: Seq<u8>| self@.contains_key(x) <==> before@.insert(
                        key,
                        slot,
                    ).contains_key(x) by {
                        assert(self.holds(key, i as int));
                        if before@.contains_key(x) {
                            let k = choose|k: int| before.holds(x, k);
                            assert(self.holds(x, k));
                        }
                        if self@.contains_key(x) {
                            let k = choose|k: int| self.holds(x, k);
                            assert(before.holds(x, k));
                        }
                    }
                    assert forall|x: Seq<u8>| self@.contains_key(x) implies self@[x]
                        == before@.insert(key, slot)[x] by {
                        let k = choose|k: int| self.holds(x, k);
                        self.lemma_at(k);
                        before.lemma_at(k);
                        if k == i {
                            assert(x == key);
                        } else if x == key {
                            self.lemma_at(i as int);
                            order::precedes_is_irreflexive(order::values(key));
                        }
                    }
                    assert(self@ =~= before@.insert(key, slot));
                }
            },
            Err(i) => {
                self.entries.insert(i, Entry { id, slot });
                proof {
                    assert(self.wf()) by {
                        assert forall|a: int, b: int|
                            0 <= a < b < self.entries@.len() implies order::precedes(
                            order::values(#[trigger] self.entries@[a].id@),
                            order::values(#[trigger] self.entries@[b].id@),
                        ) by {
                            let c = if a < i {
                                a
                            } else {
                                a - 1
                            };
                            let d = if b < i {
                                b
                            } else {
                                b - 1
                            };
                            if a == i {
                                assert(order::precedes(
                                    order::values(key),
                                    order::values(before.entries@[d].id@),
                                ));
                            } else if b == i {
                                assert(order::precedes(
                                    order::values(before.entries@[c].id@),
                                    order::values(key),
                                ));
                            } else {
                                assert(order::precedes(
                                    order::values(before.entries@[c].id@),
                                    order::values(before.entries@[d].id@),
                                ));
                            }
                        }
                    }
                    assert forall|x: Seq<u8>| self@.contains_key(x) <==> before@.insert(
                        key,
                        slot,
                    ).contains_key(x) by {
                        assert(self.holds(key, i as int));
                        if before@.contains_key(x) {
                            let k = choose|k: int| before.holds(x, k);
                            if k < i {
                                assert(self.holds(x, k));
                            } else {
                                assert(self.holds(x, k + 1));
                            }
                        }
                        if self@.contains_key(x) && x != key {
                            let k = choose|k: int| self.holds(x, k);
                            if k < i {
                                assert(before.holds(x, k));
                            } else {
                                assert(before.holds(x, k - 1));
                            }
                        }
                    }
                    assert forall|x: Seq<u8>| self@.contains_key(x) implies self@[x]
                        == before@.insert(key, slot)[x] by {
                        let k = choose|k: int| self.holds(x, k);
                        self.lemma_at(k);
                        self.lemma_at(i as int);
                        if k < i {
                            before.lemma_at(k);
                            assert(x != key);
                        } else if k > i {
                            before.lemma_at(k - 1);
                            assert(x != key);
                        }
                    }
                    assert(self@ =~= before@.insert(key, slot));
                }
            },
        }
    }

    /// Takes an ID from a slot, if it is the slot's.
    pub fn remove_from(&mut self, id: &[u8], slot: usize)
        requires
            old(self).wf(),
        ensures
            final(self).wf(),
            final(self)@ == (if old(self)@.contains_key(id@) && old(self)@[id@] == slot {
                old(self)@.remove(id@)
            } else {
                old(self)@
            }),
    {
        let ghost before = *self;
        match self.find(id) {
            Ok(i) => {
                proof {
                    self.lemma_at(i as int);
                }
                if self.entries[i].slot == slot {
                    let _ = self.entries.remove(i);
                    proof {
                        assert(self.wf()) by {
                            assert forall|a: int, b: int|
                                0 <= a < b < self.entries@.len() implies order::precedes(
                                order::values(#[trigger] self.entries@[a].id@),
                                order::values(#[trigger] self.entries@[b].id@),
                            ) by {
                                let c = if a < i {
                                    a
                                } else {
                                    a + 1
                                };
                                let d = if b < i {
                                    b
                                } else {
                                    b + 1
                                };
                                assert(order::precedes(
                                    order::values(before.entries@[c].id@),
                                    order::values(before.entries@[d].id@),
                                ));
                            }
                        }
                        assert forall|x: Seq<u8>| self@.contains_key(x) <==> before@.remove(
                            id@,
                        ).contains_key(x) by {
                            if before@.contains_key(x) && x != id@ {
                                let k = choose|k: int| before.holds(x, k);
                                if k < i {
                                    assert(self.holds(x, k));
                                } else {
                                    assert(self.holds(x, k - 1));
                                }
                            }
                            if self@.contains_key(x) {
                                let k = choose|k: int| self.holds(x, k);
                                let j = if k < i {
                                    k
                                } else {
                                    k + 1
                                };
                                assert(before.holds(x, j));
                                before.lemma_at(j);
                                before.lemma_at(i as int);
                                order::precedes_is_irreflexive(order::values(x));
                            }
                        }
                        assert forall|x: Seq<u8>| self@.contains_key(x) implies self@[x]
                            == before@.remove(id@)[x] by {
                            let k = choose|k: int| self.holds(x, k);
                            self.lemma_at(k);
                            if k < i {
                                before.lemma_at(k);
                            } else {
                                before.lemma_at(k + 1);
                            }
                        }
                        assert(self@ =~= before@.remove(id@));
                    }
                }
            },
            Err(_) => {},
        }
    }
}

} // verus!
