//! A hash map that grows incrementally: a main bucket list and a grow
//! list; once a main bucket gets crowded, buckets migrate to the grow
//! list one at a time, and the lists swap when the migration finishes.

use vstd::prelude::*;

use crate::bucket_list::{lookup_in, BucketList, HashKey};

verus! {

/// A main bucket may reach this size before the migration starts.
pub const BSIZE: usize = 8;

/// How many buckets the grow list adds beyond the stored pair count.
pub const BGROW: usize = 4;

/// An incrementally growing hash map.
#[derive(Debug)]
pub struct HMap<K, V> {
    n_moved: usize,
    main: BucketList<K, V>,
    grow: BucketList<K, V>,
}

impl<K: HashKey, V> HMap<K, V> {
    /// The stored pair count.
    pub open spec fn spec_len(&self) -> int {
        self.main_list().len_spec() + self.grow_list().len_spec()
    }

    /// The main bucket list.
    pub closed spec fn main_list(&self) -> BucketList<K, V> {
        self.main
    }

    /// The grow bucket list.
    pub closed spec fn grow_list(&self) -> BucketList<K, V> {
        self.grow
    }

    /// How many main buckets have migrated.
    pub closed spec fn moved(&self) -> int {
        self.n_moved as int
    }

    /// Both lists are sound, the counter fits, and the grow list is
    /// empty while no migration is underway.
    pub open spec fn wf(&self) -> bool {
        &&& self.main_list().wf()
        &&& self.grow_list().wf()
        &&& self.spec_len() <= usize::MAX
        &&& self.moved() <= self.main_list().nbuckets()
        &&& (self.moved() == 0 ==> self.grow_list().len_spec() == 0)
        &&& forall|b: int| 0 <= b < self.moved() ==> (#[trigger] self.main_list().bucket_view(
            b,
        )).len() == 0
    }

    /// Whether some stored key serializes to `kb`.
    pub open spec fn contains_bytes(&self, kb: Seq<u8>) -> bool {
        ||| lookup_in(self.main_list().bucket_view(self.main_list().route_of(kb)), kb) is Some
        ||| lookup_in(self.grow_list().bucket_view(self.grow_list().route_of(kb)), kb) is Some
    }

    /// An empty map. The two lists are seeded with fixed values, so a
    /// map's routing is reproducible from run to run.
    pub fn new() -> (r: HMap<K, V>)
        ensures
            r.wf(),
            r.spec_len() == 0,
    {
        HMap { n_moved: 0, main: BucketList::new(31), grow: BucketList::new(32) }
    }

    /// Inserts a pair: an existing pair for the same key is replaced
    /// in place, otherwise the pair is added and migration work is
    /// done when a bucket got crowded.
    pub fn insert(&mut self, k: K, v: V)
        requires
            old(self).wf(),
            old(self).spec_len() + 5 <= usize::MAX,
        ensures
            final(self).wf(),
            final(self).spec_len() == if old(self).contains_bytes(k.key_bytes_spec()) {
                old(self).spec_len()
            } else {
                old(self).spec_len() + 1
            },
    {
        let (k, v) = match self.main.replace(k, v) {
            None => {
                return ;
            },
            Some(kv) => kv,
        };
        let (k, v) = match self.grow.replace(k, v) {
            None => {
                return ;
            },
            Some(kv) => kv,
        };
        if self.n_moved > 0 {
            self.grow.push(k, v);
            self.move_bucket();
            return ;
        }
        if self.main.push(k, v) > BSIZE / 2 {
            self.move_bucket();
        }
    }

    /// Looks a key up, in the main list first, then the grow list.
    pub fn get(&self, k: &K) -> (r: Option<&V>)
        requires
            self.wf(),
        ensures
            r is Some <==> self.contains_bytes(k.key_bytes_spec()),
            r is Some ==> {
                let m = lookup_in(
                    self.main_list().bucket_view(self.main_list().route_of(k.key_bytes_spec())),
                    k.key_bytes_spec(),
                );
                let g = lookup_in(
                    self.grow_list().bucket_view(self.grow_list().route_of(k.key_bytes_spec())),
                    k.key_bytes_spec(),
                );
                *r->Some_0 == if m is Some {
                    m->Some_0
                } else {
                    g->Some_0
                }
            },
    {
        let m = self.main.get(k);
        match m {
            Some(v) => Some(v),
            None => self.grow.get(k),
        }
    }

    /// Whether nothing is stored.
    pub fn is_empty(&self) -> (r: bool)
        requires
            self.wf(),
        ensures
            r == (self.spec_len() == 0),
    {
        self.len() == 0
    }

    /// How many pairs are stored.
    pub fn len(&self) -> (r: usize)
        requires
            self.wf(),
        ensures
            r == self.spec_len(),
    {
        self.main.len() + self.grow.len()
    }

    /// How many buckets the main list has.
    pub fn main_bucket_count(&self) -> (r: usize)
        ensures
            r == self.main_list().nbuckets(),
    {
        self.main.bucket_count()
    }

    /// How many pairs main bucket `i` holds.
    pub fn main_bucket_len(&self, i: usize) -> (r: usize)
        requires
            i < self.main_list().nbuckets(),
        ensures
            r == self.main_list().bucket_view(i as int).len(),
    {
        self.main.bucket_len(i)
    }

    /// How many buckets the grow list has.
    pub fn grow_bucket_count(&self) -> (r: usize)
        ensures
            r == self.grow_list().nbuckets(),
    {
        self.grow.bucket_count()
    }

    /// How many pairs grow bucket `i` holds.
    pub fn grow_bucket_len(&self, i: usize) -> (r: usize)
        requires
            i < self.grow_list().nbuckets(),
        ensures
            r == self.grow_list().bucket_view(i as int).len(),
    {
        self.grow.bucket_len(i)
    }

    /// One step of migration: moves the next main bucket's pairs into
    /// the grow list; when the main list is drained, the lists swap.
    fn move_bucket(&mut self)
        requires
            old(self).wf(),
            old(self).spec_len() + 4 <= usize::MAX,
        ensures
            final(self).wf(),
            final(self).spec_len() == old(self).spec_len(),
    {
        if self.n_moved == 0 {
            let n = self.main.len();
            self.grow.set_buckets(n + BGROW);
        }
        let b = self.main.bucket(self.n_moved);
        match b {
            Some(mut bucket) => {
                let ghost total = self.main.len_spec() + self.grow.len_spec()
                    + bucket@.len() as int;
                while bucket.len() > 0
                    invariant
                        self.main_list().wf(),
                        self.grow_list().wf(),
                        self.moved() == old(self).moved(),
                        self.moved() < self.main_list().nbuckets(),
                        self.main_list().len_spec() + self.grow_list().len_spec()
                            + bucket@.len() as int == total,
                        total <= usize::MAX,
                        self.moved() > 0 || self.grow_list().len_spec() + bucket@.len() as int
                            >= 0,
                        forall|b2: int|
                            0 <= b2 <= self.moved() && b2 < self.main_list().nbuckets() ==> (
                            #[trigger] self.main_list().bucket_view(b2)).len() == 0,
                    decreases bucket@.len(),
                {
                    let kv = bucket.pop().unwrap();
                    self.grow.push(kv.0, kv.1);
                }
                self.n_moved = self.n_moved + 1;
            },
            None => {
                proof {
                    assert forall|b2: int|
                        0 <= b2 < self.main_list().nbuckets() implies (
                    #[trigger] self.main_list().bucket_view(b2)).len() == 0 by {
                        assert(b2 < self.moved());
                    }
                    self.main.lemma_all_empty();
                }
                core::mem::swap(&mut self.grow, &mut self.main);
                self.n_moved = 0;
            },
        }
    }
}

} // verus!
