//! A fixed set of hash buckets: the storage half of the growing map.

use vstd::prelude::*;

use crate::hasher::hash_spec;

verus! {

/// A key the buckets can route: it serializes itself to bytes, and
/// equal byte strings mean the same key.
pub trait HashKey: Sized {
    /// The bytes the key serializes to.
    spec fn key_bytes_spec(&self) -> Seq<u8>;

    /// Serializes the key.
    fn key_bytes(&self) -> (r: Vec<u8>)
        ensures
            r@ == self.key_bytes_spec(),
    ;
}

impl HashKey for String {
    open spec fn key_bytes_spec(&self) -> Seq<u8> {
        crate::codec::str_enc(self@)
    }

    fn key_bytes(&self) -> (r: Vec<u8>) {
        crate::codec::encode_str(self.as_str())
    }
}

impl HashKey for i32 {
    open spec fn key_bytes_spec(&self) -> Seq<u8> {
        crate::codec::i32_le_bytes(*self)
    }

    fn key_bytes(&self) -> (r: Vec<u8>) {
        crate::codec::encode_i32(*self)
    }
}

/// The value of the first pair whose key serializes to `kb`.
pub open spec fn lookup_in<K: HashKey, V>(s: Seq<(K, V)>, kb: Seq<u8>) -> Option<V>
    decreases s.len(),
{
    if s.len() == 0 {
        None
    } else if s[0].0.key_bytes_spec() == kb {
        Some(s[0].1)
    } else {
        lookup_in(s.skip(1), kb)
    }
}

/// A list of hash buckets with a seeded router: a pair lives in the
/// bucket its key's bytes hash to.
#[derive(Debug)]
pub struct BucketList<K, V> {
    seed: u64,
    len: usize,
    buckets: Vec<Vec<(K, V)>>,
}

impl<K: HashKey, V> BucketList<K, V> {
    /// The number of buckets.
    pub closed spec fn nbuckets(&self) -> int {
        self.buckets@.len() as int
    }

    /// The pairs of bucket `b`.
    pub closed spec fn bucket_view(&self, b: int) -> Seq<(K, V)> {
        self.buckets@[b]@
    }

    /// The router's seed.
    pub closed spec fn seed_spec(&self) -> u64 {
        self.seed
    }

    /// The stored pair count.
    pub closed spec fn len_spec(&self) -> int {
        self.len as int
    }

    /// The bucket the byte string `kb` routes to.
    pub open spec fn route_of(&self, kb: Seq<u8>) -> int {
        hash_spec(self.seed_spec(), kb) as int % self.nbuckets()
    }

    /// The pair count of buckets `0 .. b`.
    pub closed spec fn total_upto(&self, b: int) -> int
        decreases b,
    {
        if b <= 0 {
            0
        } else {
            self.total_upto(b - 1) + self.bucket_view(b - 1).len()
        }
    }

    /// At least one bucket; the count field is the real total; every
    /// pair sits in the bucket its key routes to.
    pub open spec fn wf(&self) -> bool {
        &&& self.nbuckets() >= 1
        &&& self.nbuckets() <= usize::MAX
        &&& self.len_spec() >= 0
        &&& self.len_spec() == self.total_upto(self.nbuckets())
        &&& forall|b: int, i: int|
            0 <= b < self.nbuckets() && 0 <= i < self.bucket_view(b).len() ==> self.route_of(
                (#[trigger] self.bucket_view(b)[i]).0.key_bytes_spec(),
            ) == b
    }

    /// A single empty bucket under a caller-chosen seed.
    pub fn new(seed: u64) -> (r: BucketList<K, V>)
        ensures
            r.wf(),
            r.len_spec() == 0,
            r.nbuckets() == 1,
            r.bucket_view(0) == Seq::<(K, V)>::empty(),
            r.seed_spec() == seed,
    {
        let mut buckets: Vec<Vec<(K, V)>> = Vec::new();
        buckets.push(Vec::new());
        let r = BucketList { seed, len: 0, buckets };
        proof {
            assert(r.total_upto(1) == r.total_upto(0) + r.bucket_view(0).len());
        }
        r
    }

    /// Pushes the new pair into its bucket and returns that bucket's
    /// new size. The key must not already be stored.
    pub fn push(&mut self, k: K, v: V) -> (r: usize)
        requires
            old(self).wf(),
            old(self).len_spec() < usize::MAX,
        ensures
            final(self).wf(),
            final(self).nbuckets() == old(self).nbuckets(),
            final(self).seed_spec() == old(self).seed_spec(),
            final(self).len_spec() == old(self).len_spec() + 1,
            ({
                let b = old(self).route_of(k.key_bytes_spec());
                &&& final(self).bucket_view(b) == old(self).bucket_view(b).push((k, v))
                &&& r == final(self).bucket_view(b).len()
                &&& forall|j: int|
                    0 <= j < final(self).nbuckets() && j != b ==> final(self).bucket_view(j)
                        == old(self).bucket_view(j)
            }),
    {
        let kb = k.key_bytes();
        let h = (crate::hasher::hash(self.seed, kb.as_slice()) % (self.buckets.len() as u64))
            as usize;
        let ghost b = h as int;
        proof {
            assert(b == old(self).route_of(k.key_bytes_spec()));
        }
        self.buckets[h].push((k, v));
        self.len = self.len + 1;
        proof {
            lemma_total_update(old(self), self, b);
            assert forall|b2: int, i: int|
                0 <= b2 < self.nbuckets() && 0 <= i < self.bucket_view(b2).len() implies self
                .route_of((#[trigger] self.bucket_view(b2)[i]).0.key_bytes_spec()) == b2 by {
                if b2 != b || i < old(self).bucket_view(b).len() {
                    assert(old(self).bucket_view(b2)[i] == self.bucket_view(b2)[i]);
                }
            }
        }
        self.buckets[h].len()
    }

    /// Whether nothing is stored.
    pub fn is_empty(&self) -> (r: bool)
        ensures
            r == (self.len_spec() == 0),
    {
        self.len == 0
    }

    /// How many pairs are stored.
    pub fn len(&self) -> (r: usize)
        ensures
            r == self.len_spec(),
    {
        self.len
    }

    /// Looks a key up: scans the bucket the key routes to and returns
    /// the first pair whose key bytes match.
    pub fn get(&self, k: &K) -> (r: Option<&V>)
        requires
            self.wf(),
        ensures
            ({
                let found = lookup_in(self.bucket_view(self.route_of(k.key_bytes_spec())),
                    k.key_bytes_spec());
                &&& (r is Some <==> found is Some)
                &&& (r is Some ==> *r->Some_0 == found->Some_0)
            }),
    {
        let kb = k.key_bytes();
        let h = (crate::hasher::hash(self.seed, kb.as_slice()) % (self.buckets.len() as u64))
            as usize;
        proof {
            assert(h as int == self.route_of(k.key_bytes_spec()));
        }
        let bucket = &self.buckets[h];
        let ghost s = bucket@;
        proof {
            assert(s == self.bucket_view(h as int));
            assert(s.skip(0) =~= s);
        }
        let n = bucket.len();
        let mut i: usize = 0;
        while i < n
            invariant
                s == bucket@,
                s == self.bucket_view(self.route_of(k.key_bytes_spec())),
                n == s.len(),
                i <= n,
                kb@ == k.key_bytes_spec(),
                lookup_in(s, kb@) == lookup_in(s.skip(i as int), kb@),
            decreases n - i,
        {
            let ikb = bucket[i].0.key_bytes();
            if ikb == kb {
                proof {
                    assert(s.skip(i as int)[0] == s[i as int]);
                    assert(s[i as int].0.key_bytes_spec() == kb@);
                    assert(lookup_in(s.skip(i as int), kb@) == Some(s[i as int].1));
                }
                return Some(&bucket[i].1);
            }
            proof {
                assert(s.skip(i as int)[0] == s[i as int]);
                assert(s.skip(i as int).skip(1) =~= s.skip(i as int + 1));
            }
            i = i + 1;
        }
        proof {
            assert(s.skip(n as int).len() == 0);
        }
        None
    }

    /// How many buckets there are.
    pub fn bucket_count(&self) -> (r: usize)
        ensures
            r == self.nbuckets(),
    {
        self.buckets.len()
    }

    /// How many pairs bucket `b` holds.
    pub fn bucket_len(&self, b: usize) -> (r: usize)
        requires
            b < self.nbuckets(),
        ensures
            r == self.bucket_view(b as int).len(),
    {
        self.buckets[b].len()
    }

    /// Takes a whole bucket out, leaving it empty; `None` when `n` is
    /// no bucket index.
    pub fn bucket(&mut self, n: usize) -> (r: Option<Vec<(K, V)>>)
        requires
            old(self).wf(),
        ensures
            final(self).wf(),
            final(self).seed_spec() == old(self).seed_spec(),
            old(self).nbuckets() <= usize::MAX,
            n >= old(self).nbuckets() ==> r is None && *final(self) == *old(self),
            n < old(self).nbuckets() ==> {
                &&& r is Some
                &&& r->Some_0@ == old(self).bucket_view(n as int)
                &&& final(self).nbuckets() == old(self).nbuckets()
                &&& final(self).bucket_view(n as int) == Seq::<(K, V)>::empty()
                &&& forall|j: int|
                    0 <= j < final(self).nbuckets() && j != n ==> final(self).bucket_view(j)
                        == old(self).bucket_view(j)
                &&& final(self).len_spec() == old(self).len_spec() - old(self).bucket_view(
                    n as int,
                ).len()
            },
    {
        if n >= self.buckets.len() {
            return None;
        }
        proof {
            lemma_total_bound(old(self), n as int);
        }
        let mut bucket: Vec<(K, V)> = Vec::new();
        core::mem::swap(&mut bucket, &mut self.buckets[n]);
        self.len = self.len - bucket.len();
        proof {
            lemma_total_update(old(self), self, n as int);
            assert forall|b2: int, i: int|
                0 <= b2 < self.nbuckets() && 0 <= i < self.bucket_view(b2).len() implies self
                .route_of((#[trigger] self.bucket_view(b2)[i]).0.key_bytes_spec()) == b2 by {
                assert(old(self).bucket_view(b2)[i] == self.bucket_view(b2)[i]);
            }
        }
        Some(bucket)
    }

    /// Grows the bucket set to `n` buckets. Only an empty list may be
    /// re-bucketed, since stored pairs would no longer route home.
    pub fn set_buckets(&mut self, n: usize)
        requires
            old(self).wf(),
            old(self).len_spec() == 0,
        ensures
            final(self).wf(),
            final(self).seed_spec() == old(self).seed_spec(),
            final(self).len_spec() == 0,
            final(self).nbuckets() == if n > old(self).nbuckets() {
                n as int
            } else {
                old(self).nbuckets()
            },
            forall|j: int| 0 <= j < final(self).nbuckets() ==> final(self).bucket_view(j)
                == Seq::<(K, V)>::empty(),
    {
        proof {
            lemma_total_zero(old(self), old(self).nbuckets());
            assert forall|j: int| 0 <= j < self.nbuckets() implies (#[trigger] self.buckets@[
                j
            ])@.len() == 0 by {
                assert(self.bucket_view(j).len() == 0);
            }
        }
        let mut i = self.buckets.len();
        while i < n
            invariant
                i == self.nbuckets(),
                i >= old(self).nbuckets(),
                self.seed == old(self).seed,
                self.len == old(self).len,
                self.len_spec() == 0,
                i <= n || i == old(self).nbuckets(),
                forall|j: int| 0 <= j < i ==> (#[trigger] self.buckets@[j])@.len() == 0,
            decreases n - i,
        {
            self.buckets.push(Vec::new());
            i = i + 1;
        }
        proof {
            lemma_total_of_empties(self, self.nbuckets());
            assert forall|j: int| 0 <= j < self.nbuckets() implies #[trigger] self.bucket_view(j)
                == Seq::<(K, V)>::empty() by {
                assert(self.bucket_view(j) =~= Seq::<(K, V)>::empty());
            }
        }
    }

    /// Replaces the value of the first pair whose key bytes match
    /// `k`'s, in place; hands the pair back untouched when no stored
    /// key matches.
    pub(crate) fn replace(&mut self, k: K, v: V) -> (r: Option<(K, V)>)
        requires
            old(self).wf(),
        ensures
            final(self).wf(),
            final(self).nbuckets() == old(self).nbuckets(),
            final(self).seed_spec() == old(self).seed_spec(),
            final(self).len_spec() == old(self).len_spec(),
            r is Some ==> r == Some((k, v)) && *final(self) == *old(self) && lookup_in(
                old(self).bucket_view(old(self).route_of(k.key_bytes_spec())),
                k.key_bytes_spec(),
            ) is None,
            r is None ==> ({
                let b = old(self).route_of(k.key_bytes_spec());
                &&& lookup_in(old(self).bucket_view(b), k.key_bytes_spec()) is Some
                &&& exists|i: int|
                    0 <= i < old(self).bucket_view(b).len() && (#[trigger] old(self).bucket_view(
                        b,
                    )[i]).0.key_bytes_spec() == k.key_bytes_spec() && final(self).bucket_view(b)
                        == old(self).bucket_view(b).update(i, (k, v))
                &&& forall|j: int|
                    0 <= j < final(self).nbuckets() && j != b ==> final(self).bucket_view(j)
                        == old(self).bucket_view(j)
            }),
    {
        let kb = k.key_bytes();
        let h = (crate::hasher::hash(self.seed, kb.as_slice()) % (self.buckets.len() as u64))
            as usize;
        let ghost s = self.buckets@[h as int]@;
        proof {
            assert(h as int == self.route_of(k.key_bytes_spec()));
            assert(s.skip(0) =~= s);
        }
        let n = self.buckets[h].len();
        let mut i: usize = 0;
        let mut found = false;
        while i < n && !found
            invariant
                self == old(self),
                s == self.buckets@[h as int]@,
                h < self.nbuckets(),
                n == s.len(),
                i <= n,
                kb@ == k.key_bytes_spec(),
                found ==> i < n && s[i as int].0.key_bytes_spec() == kb@,
                lookup_in(s, kb@) == lookup_in(s.skip(i as int), kb@),
            decreases n - i, if found { 0int } else { 1int },
        {
            let ikb = self.buckets[h][i].0.key_bytes();
            if ikb == kb {
                found = true;
                proof {
                    assert(s.skip(i as int)[0] == s[i as int]);
                }
            } else {
                proof {
                    assert(s.skip(i as int)[0] == s[i as int]);
                    assert(s.skip(i as int).skip(1) =~= s.skip(i as int + 1));
                }
                i = i + 1;
            }
        }
        if !found {
            proof {
                assert(s.skip(n as int).len() == 0);
            }
            return Some((k, v));
        }
        proof {
            assert(s.skip(i as int)[0] == s[i as int]);
            assert(lookup_in(s, kb@) == lookup_in(s.skip(i as int), kb@));
            assert(lookup_in(s.skip(i as int), kb@) is Some);
        }
        self.buckets[h][i] = (k, v);
        proof {
            lemma_total_update(old(self), self, h as int);
            assert(final(self).bucket_view(h as int) == old(self).bucket_view(h as int).update(
                i as int,
                (k, v),
            )) by {
                assert(self.bucket_view(h as int) =~= old(self).bucket_view(h as int).update(
                    i as int,
                    (k, v),
                ));
            }
            assert forall|b2: int, j: int|
                0 <= b2 < self.nbuckets() && 0 <= j < self.bucket_view(b2).len() implies self
                .route_of((#[trigger] self.bucket_view(b2)[j]).0.key_bytes_spec()) == b2 by {
                if b2 != h as int || j != i as int {
                    assert(old(self).bucket_view(b2)[j] == self.bucket_view(b2)[j]);
                }
            }
        }
        None
    }

    /// An all-empty list stores nothing.
    pub proof fn lemma_all_empty(&self)
        requires
            self.wf(),
            forall|b: int| 0 <= b < self.nbuckets() ==> (#[trigger] self.bucket_view(b)).len()
                == 0,
        ensures
            self.len_spec() == 0,
    {
        lemma_total_of_empties(self, self.nbuckets());
    }
}

/// If all pairs are zero, every prefix total is zero, and each bucket
/// is empty.
proof fn lemma_total_zero<K: HashKey, V>(s: &BucketList<K, V>, b: int)
    requires
        s.wf(),
        s.len_spec() == 0,
        0 <= b <= s.nbuckets(),
    ensures
        forall|j: int| 0 <= j < s.nbuckets() ==> (#[trigger] s.bucket_view(j)).len() == 0,
{
    assert forall|j: int| 0 <= j < s.nbuckets() implies (#[trigger] s.bucket_view(j)).len()
        == 0 by {
        lemma_total_bound(s, j);
        lemma_total_nonneg(s, j);
        lemma_total_nonneg(s, s.nbuckets());
    }
}

/// Prefix totals only grow.
proof fn lemma_total_nonneg<K: HashKey, V>(s: &BucketList<K, V>, b: int)
    ensures
        s.total_upto(b) >= 0,
    decreases b,
{
    if b > 0 {
        lemma_total_nonneg(s, b - 1);
    }
}

/// One bucket never holds more than the total.
proof fn lemma_total_bound<K: HashKey, V>(s: &BucketList<K, V>, b: int)
    requires
        0 <= b < s.nbuckets(),
    ensures
        s.bucket_view(b).len() <= s.total_upto(s.nbuckets()),
    decreases s.nbuckets() - b,
{
    lemma_total_nonneg(s, b);
    lemma_total_mono(s, b + 1, s.nbuckets());
}

/// Prefix totals are monotone.
proof fn lemma_total_mono<K: HashKey, V>(s: &BucketList<K, V>, a: int, b: int)
    requires
        a <= b,
    ensures
        s.total_upto(a) <= s.total_upto(b),
    decreases b - a,
{
    if a < b {
        lemma_total_mono(s, a, b - 1);
    }
}

/// Changing one bucket moves the total by that bucket's change.
proof fn lemma_total_update<K: HashKey, V>(
    s1: &BucketList<K, V>,
    s2: &BucketList<K, V>,
    b: int,
)
    requires
        s1.nbuckets() == s2.nbuckets(),
        0 <= b < s1.nbuckets(),
        forall|j: int| 0 <= j < s1.nbuckets() && j != b ==> #[trigger] s2.bucket_view(j)
            == s1.bucket_view(j),
    ensures
        s2.total_upto(s2.nbuckets()) == s1.total_upto(s1.nbuckets()) + s2.bucket_view(b).len()
            - s1.bucket_view(b).len(),
{
    lemma_total_update_upto(s1, s2, b, s1.nbuckets());
}

/// The same, for a prefix.
proof fn lemma_total_update_upto<K: HashKey, V>(
    s1: &BucketList<K, V>,
    s2: &BucketList<K, V>,
    b: int,
    m: int,
)
    requires
        s1.nbuckets() == s2.nbuckets(),
        0 <= b < s1.nbuckets(),
        m <= s1.nbuckets(),
        forall|j: int| 0 <= j < s1.nbuckets() && j != b ==> #[trigger] s2.bucket_view(j)
            == s1.bucket_view(j),
    ensures
        s2.total_upto(m) == if b < m {
            s1.total_upto(m) + s2.bucket_view(b).len() - s1.bucket_view(b).len()
        } else {
            s1.total_upto(m)
        },
    decreases m,
{
    if m > 0 {
        lemma_total_update_upto(s1, s2, b, m - 1);
    }
}

/// All-empty buckets total zero.
proof fn lemma_total_of_empties<K: HashKey, V>(s: &BucketList<K, V>, m: int)
    requires
        m <= s.nbuckets(),
        forall|j: int| 0 <= j < s.nbuckets() ==> (#[trigger] s.bucket_view(j)).len() == 0,
    ensures
        s.total_upto(m) == 0,
    decreases m,
{
    if m > 0 {
        lemma_total_of_empties(s, m - 1);
    }
}

} // verus!
