//! Walking every stored pair, bucket by bucket and along each chain.
use vstd::prelude::*;
use crate::chains::{slot_of, chain_has, chain_unique, stored, model, remaining, lemma_remaining};
use crate::key::MapKey;
use crate::table::HashMap;

verus! {

/// A walk over a table gives every stored pair exactly once and nothing
/// else: each pair given is stored with that value, no key comes twice,
/// every stored key comes, and so there are as many pairs as keys.
pub proof fn law_iteration_complete<K: MapKey, V>(m: HashMap<K, V>)
    requires
        m.wf(),
    ensures
        forall|x: int|
            0 <= x < m.entries().len() ==> m@.contains_key((#[trigger] m.entries()[x]).0@)
                && m@[m.entries()[x].0@] == m.entries()[x].1,
        chain_unique(m.entries()),
        forall|k: K::V| #[trigger] m@.contains_key(k) ==> chain_has(m.entries(), k),
        m.entries().len() == m@.len(),
{
    let bs = m.buckets@;
    lemma_remaining(bs, 0);
    let e = m.entries();
    assert forall|k: K::V| #[trigger] m@.contains_key(k) implies chain_has(e, k) by {
        assert(model(bs).contains_key(k));
        assert(slot_of::<K>(k, bs.len()) >= 0);
    }
    let keys = e.map_values(|p: (K, V)| p.0@);
    assert(keys.no_duplicates()) by {
        assert forall|a: int, b: int| 0 <= a < keys.len() && 0 <= b < keys.len() && a != b implies keys[a] != keys[b] by {
            assert(keys[a] == e[a].0@);
            assert(keys[b] == e[b].0@);
        }
    }
    keys.unique_seq_to_set();
    assert(keys.to_set() =~= m@.dom()) by {
        assert forall|k: K::V| keys.to_set().contains(k) implies m@.dom().contains(k) by {
            let x = choose|x: int| 0 <= x < keys.len() && keys[x] == k;
            assert(keys[x] == e[x].0@);
        }
        assert forall|k: K::V| m@.dom().contains(k) implies keys.to_set().contains(k) by {
            assert(m@.contains_key(k));
            let x = choose|x: int| 0 <= x < e.len() && (#[trigger] e[x]).0@ == k;
            assert(keys[x] == k);
        }
    }
}

/// A walk over the pairs of a table, bucket by bucket and along each chain.
pub struct Iter<'a, K, V> {
    pub(crate) map: &'a HashMap<K, V>,
    pub(crate) bucket: usize,
    pub(crate) at: usize,
}

impl<'a, K: MapKey, V> Iter<'a, K, V> {
    /// The walk's position lies within the table.
    pub open(crate) spec fn wf(&self) -> bool {
        &&& self.bucket <= self.map.buckets@.len()
        &&& self.bucket < self.map.buckets@.len() ==> self.at <= self.map.buckets@[self.bucket as int]@.len()
    }

    /// The pairs that the walk has still to give.
    pub open(crate) spec fn rest(&self) -> Seq<(K, V)> {
        remaining(self.map.buckets@, self.bucket as int, self.at as int)
    }

    /// The next pair of the walk, or `None` once every pair has been given.
    pub fn next(&mut self) -> (r: Option<(&'a K, &'a V)>)
        requires
            old(self).wf(),
        ensures
            final(self).wf(),
            match r {
                Some(p) => old(self).rest().len() > 0 && (*p.0, *p.1) == old(self).rest()[0]
                    && final(self).rest() == old(self).rest().drop_first(),
                None => old(self).rest().len() == 0 && final(self).rest().len() == 0,
            },
    {
        let ghost all = self.rest();
        while self.bucket < self.map.buckets.len()
            invariant
                self.wf(),
                self.rest() == all,
                all == old(self).rest(),
                self.map == old(self).map,
            decreases self.map.buckets@.len() - self.bucket, self.map.buckets@[self.bucket as int]@.len() - self.at,
        {
            let chain = &self.map.buckets[self.bucket];
            if self.at < chain.len() {
                let pair = &chain[self.at];
                let ghost bs = self.map.buckets@;
                let ghost b = self.bucket as int;
                let ghost a = self.at as int;
                self.at = self.at + 1;
                assert(remaining(bs, b, a) =~= seq![bs[b]@[a]] + remaining(bs, b, a + 1));
                assert(all[0] == bs[b]@[a]);
                assert(all.drop_first() =~= remaining(bs, b, a + 1));
                assert((pair.0, pair.1) == *pair);
                return Some((&pair.0, &pair.1));
            }
            let ghost bs = self.map.buckets@;
            assert(bs[self.bucket as int]@.subrange(self.at as int, self.at as int) =~= Seq::<(K, V)>::empty());
            assert(remaining(bs, self.bucket as int, self.at as int) =~= remaining(bs, self.bucket + 1, 0));
            self.bucket = self.bucket + 1;
            self.at = 0;
        }
        None
    }
}

} // verus!
