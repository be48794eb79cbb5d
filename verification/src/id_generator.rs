//! A generational id allocator: positions are reused, generations
//! never repeat for a live id.

use vstd::prelude::*;

verus! {

/// A generational id: a slot position and the generation it was
/// handed out under.
#[derive(Copy, Clone, Debug, PartialEq, Eq, Structural)]
pub struct GenData {
    pub pos: usize,
    pub gen: u64,
}

/// One slot's book-keeping: whether it is live, and its generation.
#[derive(Debug)]
pub struct EntityActive {
    active: bool,
    gen: u64,
}

impl EntityActive {
    /// Whether the slot is live.
    pub closed spec fn is_active(&self) -> bool {
        self.active
    }

    /// The slot's generation.
    pub closed spec fn generation(&self) -> u64 {
        self.gen
    }
}

/// Hands out generational ids and recycles dropped positions.
#[derive(Debug)]
pub struct GenManager {
    items: Vec<EntityActive>,
    drops: Vec<usize>,
}

impl GenManager {
    /// The slots.
    pub closed spec fn items_view(&self) -> Seq<EntityActive> {
        self.items@
    }

    /// The free list of dropped positions.
    pub closed spec fn drops_view(&self) -> Seq<usize> {
        self.drops@
    }

    /// Every free-list entry is a distinct, dead slot.
    pub open spec fn wf(&self) -> bool {
        &&& forall|i: int|
            0 <= i < self.drops_view().len() ==> {
                &&& (#[trigger] self.drops_view()[i]) < self.items_view().len()
                &&& !self.items_view()[self.drops_view()[i] as int].is_active()
            }
        &&& forall|i: int, j: int|
            0 <= i < j < self.drops_view().len() ==> self.drops_view()[i] != self.drops_view()[j]
    }

    /// An allocator with no slots yet.
    pub fn new() -> (r: GenManager)
        ensures
            r.wf(),
            r.items_view() == Seq::<EntityActive>::empty(),
            r.drops_view() == Seq::<usize>::empty(),
    {
        GenManager { items: Vec::new(), drops: Vec::new() }
    }

    /// Hands out the next id: a dropped position is revived under the
    /// next generation; with none available (or a generation counter
    /// exhausted), a fresh slot is appended under generation zero.
    pub fn next_gen(&mut self) -> (r: GenData)
        requires
            old(self).wf(),
        ensures
            final(self).wf(),
            r.pos < final(self).items_view().len(),
            final(self).items_view()[r.pos as int].is_active(),
            final(self).items_view()[r.pos as int].generation() == r.gen,
            ({
                let d = old(self).drops_view();
                let it = old(self).items_view();
                if d.len() > 0 && it[d.last() as int].generation() < u64::MAX {
                    &&& r.pos == d.last()
                    &&& r.gen == it[d.last() as int].generation() + 1
                    &&& final(self).items_view().len() == it.len()
                    &&& final(self).drops_view() == d.drop_last()
                } else {
                    &&& r.pos == it.len()
                    &&& r.gen == 0
                    &&& final(self).items_view().len() == it.len() + 1
                }
            }),
    {
        let loc = match self.drops.pop() {
            Some(loc) => loc,
            None => {
                let r = GenData { gen: 0, pos: self.items.len() };
                self.items.push(EntityActive { active: true, gen: 0 });
                return r;
            },
        };
        if self.items[loc].gen < u64::MAX {
            let gen = self.items[loc].gen + 1;
            self.items[loc] = EntityActive { active: true, gen };
            proof {
                assert forall|i: int|
                    0 <= i < self.drops_view().len() implies {
                    &&& (#[trigger] self.drops_view()[i]) < self.items_view().len()
                    &&& !self.items_view()[self.drops_view()[i] as int].is_active()
                } by {
                    assert(old(self).drops_view()[i] == self.drops_view()[i]);
                    assert(self.drops_view()[i] != loc);
                }
            }
            GenData { pos: loc, gen }
        } else {
            // This generation counter is spent: retire the slot and
            // hand out a fresh one instead.
            let r = GenData { gen: 0, pos: self.items.len() };
            self.items.push(EntityActive { active: true, gen: 0 });
            proof {
                assert forall|i: int|
                    0 <= i < self.drops_view().len() implies {
                    &&& (#[trigger] self.drops_view()[i]) < self.items_view().len()
                    &&& !self.items_view()[self.drops_view()[i] as int].is_active()
                } by {
                    assert(old(self).drops_view().drop_last()[i] == self.drops_view()[i]);
                }
            }
            r
        }
    }

    /// Retires an id: the slot dies and its position joins the free
    /// list, but only when the id is the slot's current, live one.
    pub fn drop(&mut self, g: GenData)
        requires
            old(self).wf(),
        ensures
            final(self).wf(),
            final(self).items_view().len() == old(self).items_view().len(),
            ({
                let it = old(self).items_view();
                if g.pos < it.len() && it[g.pos as int].is_active() && it[g.pos as int]
                    .generation() == g.gen {
                    &&& !final(self).items_view()[g.pos as int].is_active()
                    &&& final(self).drops_view() == old(self).drops_view().push(g.pos)
                } else {
                    *final(self) == *old(self)
                }
            }),
    {
        if g.pos < self.items.len() {
            if self.items[g.pos].active && self.items[g.pos].gen == g.gen {
                let gen = self.items[g.pos].gen;
                self.items[g.pos] = EntityActive { active: false, gen };
                self.drops.push(g.pos);
                proof {
                    assert forall|i: int|
                        0 <= i < self.drops_view().len() implies {
                        &&& (#[trigger] self.drops_view()[i]) < self.items_view().len()
                        &&& !self.items_view()[self.drops_view()[i] as int].is_active()
                    } by {
                        if i < old(self).drops_view().len() {
                            assert(old(self).drops_view()[i] == self.drops_view()[i]);
                        }
                    }
                    assert forall|i: int, j: int|
                        0 <= i < j < self.drops_view().len() implies self.drops_view()[i]
                        != self.drops_view()[j] by {
                        if j == self.drops_view().len() - 1 {
                            assert(!old(self).items_view()[old(self).drops_view()[i] as int]
                                .is_active());
                        }
                    }
                }
            }
        }
    }
}

} // verus!
