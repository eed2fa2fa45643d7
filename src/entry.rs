//! Entry handles: a looked-up place for one key, resolved against the
//! table it came from to fetch or create that key's value.
use vstd::prelude::*;
use crate::chains::{slot_of, stored, lemma_in_model, lemma_set_any_value, lemma_push};
use crate::key::MapKey;
use crate::table::HashMap;

verus! {

/// A handle on a stored pair: where it sits in the table it came from.
pub struct OccupiedEntry<K: View> {
    pub(crate) bucket: usize,
    pub(crate) slot: usize,
    pub(crate) key: Ghost<K::V>,
}

/// A handle on a key that is not stored: the key, and the bucket it routes to.
pub struct VacantEntry<K> {
    pub(crate) key: K,
    pub(crate) bucket: usize,
}

/// A handle on the place of one key in a table, from `HashMap::entry`.
pub enum Entry<K: View> {
    Occupied(OccupiedEntry<K>),
    Vacant(VacantEntry<K>),
}

impl<K: MapKey> OccupiedEntry<K> {
    /// Whether the handle still points at its key's pair in `map`.
    pub open(crate) spec fn fits<V>(&self, map: HashMap<K, V>) -> bool {
        &&& map.wf()
        &&& self.bucket < map.buckets@.len()
        &&& self.slot < map.buckets@[self.bucket as int]@.len()
        &&& map.buckets@[self.bucket as int]@[self.slot as int].0@ == self.key@
    }

    /// The view of the key the handle stands for.
    pub open(crate) spec fn key(&self) -> K::V {
        self.key@
    }

    /// The stored value, for change in place.
    pub fn into_mut<'a, V>(self, map: &'a mut HashMap<K, V>) -> (r: &'a mut V)
        requires
            self.fits(*old(map)),
        ensures
            old(map)@.contains_key(self.key()),
            *r == old(map)@[self.key()],
            final(map).wf(),
            final(map)@ == old(map)@.insert(self.key(), *final(r)),
    {
        let b = self.bucket;
        let j = self.slot;
        let ghost bs = map.buckets@;
        proof {
            lemma_in_model(bs, b as int, j as int);
        }
        proof {
            lemma_set_any_value(bs, b as int, j as int);
        }
        &mut map.buckets[b][j].1
    }
}

impl<K: MapKey> VacantEntry<K> {
    /// Whether the handle's key is still absent from `map`, with room for it
    /// in the bucket it routes to.
    pub open(crate) spec fn fits<V>(&self, map: HashMap<K, V>) -> bool {
        &&& map.wf()
        &&& map.buckets@.len() > 0
        &&& self.bucket as int == slot_of::<K>(self.key@, map.buckets@.len())
        &&& !map@.contains_key(self.key@)
        &&& map@.len() < usize::MAX
    }

    /// The view of the key the handle stands for.
    pub open(crate) spec fn key(&self) -> K::V {
        self.key@
    }

    /// Stores the handle's key with `value` and returns the stored value.
    pub fn insert<'a, V>(self, map: &'a mut HashMap<K, V>, value: V) -> (r: &'a mut V)
        requires
            self.fits(*old(map)),
        ensures
            *r == value,
            final(map).wf(),
            final(map)@ == old(map)@.insert(self.key(), *final(r)),
    {
        let b = self.bucket;
        let ghost bs = map.buckets@;
        let ghost p = (self.key, value);
        map.buckets[b].push((self.key, value));
        proof {
            lemma_push(bs, map.buckets@, b as int, p);
        }
        map.items = map.items + 1;
        let j = map.buckets[b].len() - 1;
        proof {
            assert(map.buckets@[b as int]@[j as int] == p);
            lemma_set_any_value(map.buckets@, b as int, j as int);
        }
        &mut map.buckets[b][j].1
    }
}

impl<K: MapKey> Entry<K> {
    /// Whether the handle's key was stored when it was made.
    pub open spec fn is_occupied(&self) -> bool {
        self is Occupied
    }

    /// The view of the key the handle stands for.
    pub open spec fn key(&self) -> K::V {
        match self {
            Entry::Occupied(e) => e.key(),
            Entry::Vacant(e) => e.key(),
        }
    }

    /// Whether the handle can still be used on `map`.
    pub open spec fn fits<V>(&self, map: HashMap<K, V>) -> bool {
        match self {
            Entry::Occupied(e) => e.fits(map),
            Entry::Vacant(e) => e.fits(map),
        }
    }

    /// The value stored under the handle's key, storing `value` there first
    /// when the key is absent.
    pub fn or_insert<'a, V>(self, map: &'a mut HashMap<K, V>, value: V) -> (r: &'a mut V)
        requires
            self.fits(*old(map)),
        ensures
            *r == (if old(map)@.contains_key(self.key()) {
                old(map)@[self.key()]
            } else {
                value
            }),
            final(map).wf(),
            final(map)@ == old(map)@.insert(self.key(), *final(r)),
    {
        match self {
            Entry::Occupied(e) => e.into_mut(map),
            Entry::Vacant(e) => e.insert(map, value),
        }
    }

    /// The value stored under the handle's key; when the key is absent,
    /// `maker` is called once and its result stored first. When the key is
    /// present, `maker` is not called.
    pub fn or_insert_with<'a, V, F: FnOnce() -> V>(self, map: &'a mut HashMap<K, V>, maker: F) -> (r: &'a mut V)
        requires
            self.fits(*old(map)),
            !old(map)@.contains_key(self.key()) ==> maker.requires(()),
        ensures
            old(map)@.contains_key(self.key()) ==> *r == old(map)@[self.key()],
            !old(map)@.contains_key(self.key()) ==> maker.ensures((), *r),
            final(map).wf(),
            final(map)@ == old(map)@.insert(self.key(), *final(r)),
    {
        match self {
            Entry::Occupied(e) => e.into_mut(map),
            Entry::Vacant(e) => {
                let v = maker();
                e.insert(map, v)
            },
        }
    }

    /// The value stored under the handle's key, storing `V::default()`
    /// there first when the key is absent.
    pub fn or_insert_default<'a, V: Default>(self, map: &'a mut HashMap<K, V>) -> (r: &'a mut V)
        requires
            self.fits(*old(map)),
        ensures
            old(map)@.contains_key(self.key()) ==> *r == old(map)@[self.key()],
            !old(map)@.contains_key(self.key()) ==> call_ensures(V::default, (), *r),
            final(map).wf(),
            final(map)@ == old(map)@.insert(self.key(), *final(r)),
    {
        match self {
            Entry::Occupied(e) => e.into_mut(map),
            Entry::Vacant(e) => e.insert(map, V::default()),
        }
    }
}

} // verus!
