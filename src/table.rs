//! The table itself: routing, growth, and the core operations.
use vstd::prelude::*;
use crate::chains::{is_pow2, slot_of, chain_has, chain_pos, chain_unique, routed, chains_unique, stored, model, remaining, lemma_in_model, lemma_set_value, lemma_push, lemma_swap_remove};
use crate::entry::{Entry, OccupiedEntry, VacantEntry};
use crate::iter::Iter;
use crate::key::MapKey;

verus! {

/// The bucket that `key` routes to among `n` buckets: its digest modulo `n`.
fn slot_for<K: MapKey>(key: &K, n: usize) -> (r: usize)
    requires
        n > 0,
    ensures
        r as int == slot_of::<K>(key@, n as nat),
        r < n,
{
    let d = key.digest();
    (d % (n as u64)) as usize
}

/// Whether a table with `n_buckets` buckets and `n_items` items must grow
/// before it takes one more: when it has no bucket, or when it holds more
/// than three quarters of its bucket count (rounded down).
pub fn needs_growth(n_buckets: usize, n_items: usize) -> (r: bool)
    ensures
        r == (n_buckets == 0 || n_items as int > 3 * (n_buckets as int) / 4),
{
    let q = n_buckets / 4;
    let rem = n_buckets % 4;
    assert(3 * (n_buckets as int) / 4 == 3 * (q as int) + 3 * (rem as int) / 4) by (nonlinear_arith)
        requires
            q == n_buckets as int / 4,
            rem == n_buckets as int % 4,
    ;
    n_buckets == 0 || n_items > 3 * q + 3 * rem / 4
}

/// The bucket count that growth moves to from `n`: one from none, else twice
/// as many.
pub fn grown_bucket_count(n: usize) -> (r: usize)
    requires
        n <= usize::MAX / 2,
    ensures
        r == (if n == 0 {
            1
        } else {
            2 * n
        }),
{
    if n == 0 {
        1
    } else {
        2 * n
    }
}

/// A hash map that keeps its pairs in chains, one chain per bucket.
pub struct HashMap<K, V> {
    pub(crate) buckets: Vec<Vec<(K, V)>>,
    pub(crate) items: usize,
}

impl<K: MapKey, V> View for HashMap<K, V> {
    type V = Map<K::V, V>;

    open(crate) spec fn view(&self) -> Map<K::V, V> {
        model(self.buckets@)
    }
}

impl<K: MapKey, V> HashMap<K, V> {
    /// The table's invariant: the bucket count is zero or a power of two,
    /// every pair sits in the bucket its key routes to, no key is stored
    /// twice, and the item count is the number of keys stored.
    pub open(crate) spec fn wf(&self) -> bool {
        &&& (self.buckets@.len() == 0 || is_pow2(self.buckets@.len()))
        &&& routed(self.buckets@)
        &&& chains_unique(self.buckets@)
        &&& self@.dom().finite()
        &&& self.items as nat == self@.len()
    }

    /// The number of buckets.
    pub open(crate) spec fn bucket_count(&self) -> nat {
        self.buckets@.len()
    }

    /// An empty table, with no bucket allocated.
    pub fn new() -> (r: Self)
        ensures
            r.wf(),
            r@ == Map::<K::V, V>::empty(),
            r.bucket_count() == 0,
    {
        let r = HashMap { buckets: Vec::new(), items: 0 };
        assert(r@ =~= Map::<K::V, V>::empty());
        r
    }

    /// The bucket that `key` routes to.
    pub fn bucket(&self, key: &K) -> (r: usize)
        requires
            self.bucket_count() > 0,
        ensures
            r as int == slot_of::<K>(key@, self.bucket_count()),
            r < self.bucket_count(),
    {
        slot_for(key, self.buckets.len())
    }

    /// The number of keys stored.
    pub fn len(&self) -> (r: usize)
        requires
            self.wf(),
        ensures
            r as nat == self@.len(),
    {
        self.items
    }

    /// Whether no key is stored.
    pub fn is_empty(&self) -> (r: bool)
        requires
            self.wf(),
        ensures
            r == (self@.len() == 0),
    {
        self.items == 0
    }
    /// The position in bucket `b` of the pair whose key equals `key`, if any.
    fn find_in_bucket(&self, b: usize, key: &K) -> (r: Option<usize>)
        requires
            b < self.buckets@.len(),
        ensures
            match r {
                Some(j) => j < self.buckets@[b as int]@.len() && self.buckets@[b as int]@[j as int].0@
                    == key@,
                None => !chain_has(self.buckets@[b as int]@, key@),
            },
    {
        let chain = &self.buckets[b];
        let mut j: usize = 0;
        while j < chain.len()
            invariant
                j <= chain@.len(),
                chain@ == self.buckets@[b as int]@,
                forall|x: int| 0 <= x < j ==> (#[trigger] chain@[x]).0@ != key@,
            decreases chain@.len() - j,
        {
            if chain[j].0.same_key(key) {
                return Some(j);
            }
            j = j + 1;
        }
        None
    }

    /// The value stored under `key`, if any.
    pub fn get(&self, key: &K) -> (r: Option<&V>)
        requires
            self.wf(),
        ensures
            match r {
                Some(v) => self@.contains_key(key@) && *v == self@[key@],
                None => !self@.contains_key(key@),
            },
    {
        if self.buckets.len() == 0 {
            return None;
        }
        let b = self.bucket(key);
        match self.find_in_bucket(b, key) {
            Some(j) => {
                proof {
                    lemma_in_model(self.buckets@, b as int, j as int);
                }
                Some(&self.buckets[b][j].1)
            },
            None => None,
        }
    }

    /// Whether `key` is stored.
    pub fn contains_key(&self, key: &K) -> (r: bool)
        requires
            self.wf(),
        ensures
            r == self@.contains_key(key@),
    {
        self.get(key).is_some()
    }
    /// Moves every pair into a bucket array twice as large (one bucket when
    /// there were none), each routed by its key against the new count. The
    /// stored pairs do not change. A count that cannot double within `usize`
    /// is kept as it is.
    pub fn resize(&mut self)
        requires
            old(self).wf(),
        ensures
            final(self).wf(),
            final(self)@ == old(self)@,
            final(self).bucket_count() == (if old(self).bucket_count() == 0 {
                1
            } else if old(self).bucket_count() <= usize::MAX / 2 {
                2 * old(self).bucket_count()
            } else {
                old(self).bucket_count()
            }),
    {
        let n = self.buckets.len();
        if n > usize::MAX / 2 {
            return ;
        }
        let target = grown_bucket_count(n);
        let ghost m = self@;
        let ghost olds = self.buckets@;
        let mut rest: Vec<Vec<(K, V)>> = Vec::new();
        std::mem::swap(&mut self.buckets, &mut rest);
        let mut flat: Vec<(K, V)> = Vec::new();
        assert(rest@ =~= olds.subrange(0, rest@.len() as int));
        while rest.len() > 0
            invariant
                olds.len() == n,
                routed(olds),
                chains_unique(olds),
                m == model(olds),
                rest@.len() <= n,
                rest@ == olds.subrange(0, rest@.len() as int),
                chain_unique(flat@),
                forall|j: int|
                    0 <= j < flat@.len() ==> m.contains_key((#[trigger] flat@[j]).0@) && m[flat@[j].0@]
                        == flat@[j].1,
                forall|k: K::V|
                    #[trigger] m.contains_key(k) ==> (chain_has(flat@, k) <==> slot_of::<K>(k, n as nat)
                        >= rest@.len()),
            decreases rest@.len(),
        {
            let ghost r = rest@.len() - 1;
            let mut chain = rest.pop().unwrap();
            assert(chain@ == olds[r]@);
            assert(rest@ =~= olds.subrange(0, rest@.len() as int));
            let ghost f0 = flat@;
            proof {
                assert forall|j: int| 0 <= j < chain@.len() implies m.contains_key(
                    (#[trigger] chain@[j]).0@,
                ) && m[chain@[j].0@] == chain@[j].1 && slot_of::<K>(chain@[j].0@, n as nat) == r by {
                    lemma_in_model(olds, r, j);
                }
            }
            flat.append(&mut chain);
            proof {
                let c = olds[r]@;
                assert(flat@ == f0 + c);
                assert(chain_unique(c));
                assert forall|a: int, b: int|
                    0 <= a < flat@.len() && 0 <= b < flat@.len() && (#[trigger] flat@[a]).0@ == (
                    #[trigger] flat@[b]).0@ implies a == b by {
                    if a < f0.len() && b >= f0.len() {
                        assert(c[b - f0.len()] == flat@[b]);
                        assert(chain_has(f0, f0[a].0@));
                    } else if a >= f0.len() && b < f0.len() {
                        assert(c[a - f0.len()] == flat@[a]);
                        assert(chain_has(f0, f0[b].0@));
                    } else if a >= f0.len() && b >= f0.len() {
                        assert(c[a - f0.len()] == flat@[a]);
                        assert(c[b - f0.len()] == flat@[b]);
                    }
                }
                assert forall|j: int|
                    0 <= j < flat@.len() implies m.contains_key((#[trigger] flat@[j]).0@) && m[flat@[j].0@]
                    == flat@[j].1 by {
                    if j >= f0.len() {
                        assert(c[j - f0.len()] == flat@[j]);
                    } else {
                        assert(f0[j] == flat@[j]);
                    }
                }
                assert forall|k: K::V| #[trigger] m.contains_key(k) implies (chain_has(flat@, k) <==> slot_of::<K>(k, n as nat)
                    >= rest@.len()) by {
                    if chain_has(flat@, k) {
                        let j = choose|j: int| 0 <= j < flat@.len() && (#[trigger] flat@[j]).0@ == k;
                        if j >= f0.len() {
                            assert(c[j - f0.len()] == flat@[j]);
                        } else {
                            assert(f0[j] == flat@[j]);
                        }
                    }
                    if slot_of::<K>(k, n as nat) >= rest@.len() {
                        if slot_of::<K>(k, n as nat) == r {
                            let j = chain_pos(c, k);
                            assert(flat@[f0.len() + j] == c[j]);
                        } else {
                            let j = choose|j: int| 0 <= j < f0.len() && (#[trigger] f0[j]).0@ == k;
                            assert(flat@[j] == f0[j]);
                        }
                    }
                }
            }
        }
        let mut fresh: Vec<Vec<(K, V)>> = Vec::new();
        let mut i: usize = 0;
        while i < target
            invariant
                i <= target,
                fresh@.len() == i,
                forall|x: int| 0 <= x < i ==> (#[trigger] fresh@[x])@.len() == 0,
            decreases target - i,
        {
            fresh.push(Vec::new());
            i = i + 1;
        }
        assert(routed(fresh@));
        assert(chains_unique(fresh@));
        while flat.len() > 0
            invariant
                fresh@.len() == target,
                target > 0,
                routed(fresh@),
                chains_unique(fresh@),
                chain_unique(flat@),
                forall|j: int|
                    0 <= j < flat@.len() ==> m.contains_key((#[trigger] flat@[j]).0@) && m[flat@[j].0@]
                        == flat@[j].1,
                forall|i: int, j: int|
                    0 <= i < fresh@.len() && 0 <= j < fresh@[i]@.len() ==> m.contains_key(
                        (#[trigger] fresh@[i]@[j]).0@,
                    ) && m[fresh@[i]@[j].0@] == fresh@[i]@[j].1,
                forall|k: K::V|
                    #[trigger] m.contains_key(k) ==> (stored(fresh@, k) <==> !chain_has(flat@, k)),
            decreases flat@.len(),
        {
            let ghost f0 = flat@;
            let ghost g0 = fresh@;
            let pair = flat.pop().unwrap();
            let ghost k = pair.0@;
            assert(f0[f0.len() - 1] == pair);
            assert(chain_has(f0, k));
            assert(!chain_has(flat@, k)) by {
                if chain_has(flat@, k) {
                    let j = choose|j: int| 0 <= j < flat@.len() && (#[trigger] flat@[j]).0@ == k;
                    assert(f0[j] == flat@[j]);
                }
            }
            let b = slot_for(&pair.0, target);
            assert(!chain_has(g0[b as int]@, k));
            fresh[b].push(pair);
            proof {
                let c0 = g0[b as int]@;
                let c1 = fresh@[b as int]@;
                assert(c1 == c0.push(pair));
                assert forall|x: int, y: int|
                    0 <= x < c1.len() && 0 <= y < c1.len() && (#[trigger] c1[x]).0@ == (#[trigger] c1[y]).0@ implies x == y by {
                    if x < c0.len() {
                        assert(c0[x] == c1[x]);
                    }
                    if y < c0.len() {
                        assert(c0[y] == c1[y]);
                    }
                    if x < c0.len() && y < c0.len() {
                        assert(chain_unique(c0));
                    }
                }
                assert forall|i: int| 0 <= i < fresh@.len() implies chain_unique(#[trigger] fresh@[i]@) by {
                    if i != b {
                        assert(fresh@[i] == g0[i]);
                    }
                }
                assert forall|i: int, j: int|
                    0 <= i < fresh@.len() && 0 <= j < fresh@[i]@.len() implies slot_of::<K>(
                    (#[trigger] fresh@[i]@[j]).0@, fresh@.len()) == i && m.contains_key(fresh@[i]@[j].0@)
                    && m[fresh@[i]@[j].0@] == fresh@[i]@[j].1 by {
                    if i != b {
                        assert(fresh@[i] == g0[i]);
                    } else if j < c0.len() {
                        assert(c1[j] == c0[j]);
                    }
                }
                assert forall|k2: K::V| #[trigger] m.contains_key(k2) implies (stored(fresh@, k2) <==> !chain_has(flat@, k2)) by {
                    let s2 = slot_of::<K>(k2, target as nat);
                    if k2 == k {
                        assert(c1[c0.len() as int] == pair);
                    } else {
                        if chain_has(flat@, k2) {
                            let j = choose|j: int| 0 <= j < flat@.len() && (#[trigger] flat@[j]).0@ == k2;
                            assert(f0[j] == flat@[j]);
                        }
                        if chain_has(f0, k2) {
                            let j = choose|j: int| 0 <= j < f0.len() && (#[trigger] f0[j]).0@ == k2;
                            assert(j != f0.len() - 1);
                            assert(f0[j] == flat@[j]);
                        }
                        if s2 != b {
                            assert(fresh@[s2] == g0[s2]);
                        } else {
                            if chain_has(c1, k2) {
                                let j = choose|j: int| 0 <= j < c1.len() && (#[trigger] c1[j]).0@ == k2;
                                assert(c1[j] == c0[j]);
                            }
                            if chain_has(c0, k2) {
                                let j = choose|j: int| 0 <= j < c0.len() && (#[trigger] c0[j]).0@ == k2;
                                assert(c1[j] == c0[j]);
                            }
                        }
                    }
                }
            }
        }
        proof {
            assert forall|k: K::V| #[trigger] model(fresh@).contains_key(k) == m.contains_key(k) && (m.contains_key(k) ==> model(fresh@)[k] == m[k]) by {
                if stored(fresh@, k) {
                    let s = slot_of::<K>(k, target as nat);
                    let c = fresh@[s]@;
                    let j = chain_pos(c, k);
                    assert(c[j] == fresh@[s]@[j]);
                }
            }
            assert(model(fresh@) =~= m);
            assert(is_pow2(target as nat)) by {
                if n > 0 {
                    assert((2 * n) as nat / 2 == n as nat);
                }
            }
        }
        self.buckets = fresh;
    }
    /// Stores `value` under `key`, growing first when the table has no
    /// bucket or its load would pass three quarters. A key already present
    /// keeps its stored key and has its value replaced; the old value is
    /// returned. The count rises only when the key is new.
    pub fn insert(&mut self, key: K, value: V) -> (r: Option<V>)
        requires
            old(self).wf(),
            old(self)@.len() < usize::MAX,
        ensures
            final(self).wf(),
            final(self)@ == old(self)@.insert(key@, value),
            r == (if old(self)@.contains_key(key@) {
                Some(old(self)@[key@])
            } else {
                None::<V>
            }),
    {
        if needs_growth(self.buckets.len(), self.items) {
            self.resize();
        }
        let b = self.bucket(&key);
        let ghost bs = self.buckets@;
        match self.find_in_bucket(b, &key) {
            Some(j) => {
                proof {
                    lemma_in_model(bs, b as int, j as int);
                }
                let mut v = value;
                std::mem::swap(&mut self.buckets[b][j].1, &mut v);
                proof {
                    assert(self.buckets@[b as int]@ =~= bs[b as int]@.update(j as int, (bs[b as int]@[j as int].0, value)));
                    lemma_set_value(bs, self.buckets@, b as int, j as int, value);
                }
                Some(v)
            },
            None => {
                let ghost p = (key, value);
                self.buckets[b].push((key, value));
                proof {
                    lemma_push(bs, self.buckets@, b as int, p);
                }
                self.items = self.items + 1;
                None
            },
        }
    }

    /// Takes out the pair stored under `key` and returns its value; the last
    /// pair of its chain takes its place.
    pub fn remove(&mut self, key: &K) -> (r: Option<V>)
        requires
            old(self).wf(),
        ensures
            final(self).wf(),
            final(self)@ == old(self)@.remove(key@),
            r == (if old(self)@.contains_key(key@) {
                Some(old(self)@[key@])
            } else {
                None::<V>
            }),
    {
        if self.buckets.len() == 0 {
            assert(self@ =~= self@.remove(key@));
            return None;
        }
        let b = self.bucket(key);
        let ghost bs = self.buckets@;
        match self.find_in_bucket(b, key) {
            Some(j) => {
                proof {
                    lemma_in_model(bs, b as int, j as int);
                }
                let pair = self.buckets[b].swap_remove(j);
                proof {
                    lemma_swap_remove(bs, self.buckets@, b as int, j as int);
                }
                self.items = self.items - 1;
                Some(pair.1)
            },
            None => {
                assert(self@ =~= self@.remove(key@));
                None
            },
        }
    }
    /// Every pair stored, bucket by bucket and along each chain.
    pub open(crate) spec fn entries(&self) -> Seq<(K, V)> {
        remaining(self.buckets@, 0, 0)
    }

    /// A fresh walk over every stored pair.
    pub fn iter(&self) -> (it: Iter<'_, K, V>)
        requires
            self.wf(),
        ensures
            it.wf(),
            it.rest() == self.entries(),
    {
        Iter { map: self, bucket: 0, at: 0 }
    }

    /// A handle on the place of `key`: occupied when the key is stored,
    /// vacant otherwise. The table first grows as `insert` would, so a vacant
    /// handle can take its pair without another lookup. The stored pairs do
    /// not change.
    pub fn entry(&mut self, key: K) -> (e: Entry<K>)
        requires
            old(self).wf(),
            old(self)@.len() < usize::MAX,
        ensures
            final(self).wf(),
            final(self)@ == old(self)@,
            e.key() == key@,
            e.fits(*final(self)),
            e.is_occupied() == old(self)@.contains_key(key@),
    {
        if needs_growth(self.buckets.len(), self.items) {
            self.resize();
        }
        let b = self.bucket(&key);
        match self.find_in_bucket(b, &key) {
            Some(j) => {
                proof {
                    lemma_in_model(self.buckets@, b as int, j as int);
                }
                Entry::Occupied(OccupiedEntry { bucket: b, slot: j, key: Ghost(key@) })
            },
            None => {
                assert(!self@.contains_key(key@));
                Entry::Vacant(VacantEntry { key, bucket: b })
            },
        }
    }
}

} // verus!
