//! A small entity-component system: generational ids, a vector-backed
//! component store, and a movement system.

use vstd::prelude::*;

pub use crate::id_generator::{EntityActive, GenData, GenManager};

verus! {

/// A fighter's strength and health.
#[derive(Debug)]
pub struct Strength {
    pub s: i16,
    pub h: i16,
}

/// A position on the board.
#[derive(Debug, PartialEq, Eq, Structural)]
pub struct Pos {
    pub x: i32,
    pub y: i32,
}

/// A velocity.
#[derive(Debug)]
pub struct Dir {
    pub vx: i32,
    pub vy: i32,
}

/// A store of components addressed by generational id: a component is
/// only visible under the exact generation it was added with.
pub trait EcsStore<T>: Sized {
    /// The component (and its generation) at a slot position.
    spec fn entry(&self, pos: int) -> Option<(u64, T)>;

    /// How many slot positions the store covers.
    spec fn capacity(&self) -> int;

    /// Adds (or replaces) the component for `g`.
    fn add(&mut self, g: GenData, t: T)
        ensures
            final(self).entry(g.pos as int) == Some((g.gen, t)),
            forall|p: int| 0 <= p < final(self).capacity() && p != g.pos as int
                ==> #[trigger] final(self).entry(p) == old(self).entry(p),
            final(self).capacity() >= old(self).capacity(),
            final(self).capacity() > g.pos as int,
    ;

    /// The component for `g`, if its generation is still the live one.
    fn get(&self, g: GenData) -> (r: Option<&T>)
        ensures
            match r {
                Some(t) => self.entry(g.pos as int) == Some((g.gen, *t)),
                None => self.entry(g.pos as int) matches Some(e) ==> e.0 != g.gen,
            },
    ;

    /// Replaces the component for `g`; `false` when `g` is not live.
    fn set(&mut self, g: GenData, t: T) -> (r: bool)
        ensures
            forall|p: int| 0 <= p < final(self).capacity() && p != g.pos as int
                ==> #[trigger] final(self).entry(p) == old(self).entry(p),
            final(self).capacity() == old(self).capacity(),
            r ==> final(self).entry(g.pos as int) == Some((g.gen, t)),
            !r ==> *final(self) == *old(self),
    ;

    /// Drops the component for `g`, if its generation is the live one.
    fn drop(&mut self, g: GenData)
        ensures
            forall|p: int| 0 <= p < final(self).capacity() && p != g.pos as int
                ==> #[trigger] final(self).entry(p) == old(self).entry(p),
            final(self).capacity() == old(self).capacity(),
            final(self).entry(g.pos as int) matches Some(e) ==> e.0 != g.gen,
    ;

    /// The live ids, in slot order.
    fn ids(&self) -> (r: Vec<GenData>)
        ensures
            forall|i: int| 0 <= i < r@.len() ==> {
                let g = #[trigger] r@[i];
                self.entry(g.pos as int) matches Some(e) && e.0 == g.gen
            },
    ;
}

/// A component store backed by one vector slot per position.
#[derive(Debug)]
pub struct VecStore<T> {
    items: Vec<Option<(u64, T)>>,
}

impl<T> VecStore<T> {
    /// An empty store.
    pub fn new() -> (r: VecStore<T>)
        ensures
            r.capacity() == 0,
    {
        VecStore { items: Vec::new() }
    }
}

impl<T> EcsStore<T> for VecStore<T> {
    closed spec fn entry(&self, pos: int) -> Option<(u64, T)> {
        if 0 <= pos < self.items@.len() {
            self.items@[pos]
        } else {
            None
        }
    }

    closed spec fn capacity(&self) -> int {
        self.items@.len() as int
    }

    fn add(&mut self, g: GenData, t: T) {
        while g.pos >= self.items.len()
            invariant
                forall|p: int| 0 <= p < self.capacity() ==> #[trigger] self.entry(p) == old(
                    self,
                ).entry(p),
                self.capacity() >= old(self).capacity(),
            decreases g.pos - self.items@.len() + 1,
        {
            let ghost pre = *self;
            self.items.push(None);
            proof {
                assert forall|p: int| 0 <= p < self.capacity() implies #[trigger] self.entry(p)
                    == old(self).entry(p) by {
                    if p < pre.capacity() {
                        assert(self.entry(p) == pre.entry(p));
                    } else {
                        assert(self.entry(p) is None);
                        assert(old(self).entry(p) is None);
                    }
                }
            }
        }
        let ghost pre = *self;
        self.items[g.pos] = Some((g.gen, t));
        proof {
            assert forall|p: int|
                0 <= p < self.capacity() && p != g.pos as int implies #[trigger] self.entry(p)
                == old(self).entry(p) by {
                assert(self.entry(p) == pre.entry(p));
            }
        }
    }

    fn get(&self, g: GenData) -> (r: Option<&T>) {
        if g.pos < self.items.len() {
            match &self.items[g.pos] {
                Some(e) => {
                    if e.0 == g.gen {
                        Some(&e.1)
                    } else {
                        None
                    }
                },
                None => None,
            }
        } else {
            None
        }
    }

    fn set(&mut self, g: GenData, t: T) -> (r: bool) {
        if g.pos < self.items.len() {
            let live = match &self.items[g.pos] {
                Some(e) => e.0 == g.gen,
                None => false,
            };
            if live {
                self.items[g.pos] = Some((g.gen, t));
                return true;
            }
        }
        false
    }

    fn drop(&mut self, g: GenData) {
        if g.pos < self.items.len() {
            let live = match &self.items[g.pos] {
                Some(e) => e.0 == g.gen,
                None => false,
            };
            if live {
                self.items[g.pos] = None;
            }
        }
    }

    fn ids(&self) -> (r: Vec<GenData>) {
        let mut r: Vec<GenData> = Vec::new();
        let mut i: usize = 0;
        let n = self.items.len();
        while i < n
            invariant
                n == self.items@.len(),
                i <= n,
                forall|j: int| 0 <= j < r@.len() ==> {
                    let g = #[trigger] r@[j];
                    self.entry(g.pos as int) matches Some(e) && e.0 == g.gen
                },
            decreases n - i,
        {
            match &self.items[i] {
                Some(e) => {
                    r.push(GenData { pos: i, gen: e.0 });
                },
                None => {},
            }
            i = i + 1;
        }
        r
    }
}

/// Advances every position by its direction, component-wise and
/// wrapping on overflow, for the ids live in the position store.
pub fn move_sys<D: EcsStore<Dir>, P: EcsStore<Pos>>(dd: &D, pp: &mut P)
    ensures
        final(pp).capacity() == old(pp).capacity(),
{
    let ids = pp.ids();
    let n = ids.len();
    let mut i: usize = 0;
    while i < n
        invariant
            n == ids@.len(),
            i <= n,
            pp.capacity() == old(pp).capacity(),
        decreases n - i,
    {
        let g = ids[i];
        match dd.get(g) {
            Some(d) => {
                let (vx, vy) = (d.vx, d.vy);
                match pp.get(g) {
                    Some(p) => {
                        let np = Pos { x: p.x.wrapping_add(vx), y: p.y.wrapping_add(vy) };
                        pp.set(g, np);
                    },
                    None => {},
                }
            },
            None => {},
        }
        i = i + 1;
    }
}

} // verus!
