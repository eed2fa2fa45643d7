//! Laws that relate several calls on a table.
use vstd::prelude::*;
use crate::key::MapKey;
use crate::table::HashMap;

verus! {

/// The map that a run of inserts leaves, starting from `m`: each pair of `s`
/// in turn binds its key to its value.
pub open spec fn after_inserts<A, B>(m: Map<A, B>, s: Seq<(A, B)>) -> Map<A, B>
    decreases s.len(),
{
    if s.len() == 0 {
        m
    } else {
        after_inserts(m, s.drop_last()).insert(s.last().0, s.last().1)
    }
}

/// The keys of a run of inserts.
pub open spec fn keys_of<A, B>(s: Seq<(A, B)>) -> Set<A> {
    s.map_values(|p: (A, B)| p.0).to_set()
}

/// After a run of inserts into an empty table, the keys stored are exactly
/// the distinct keys inserted, so the count is theirs and not the number of
/// calls; and the value of each key is the one its last insert gave, however
/// many times the buckets grew on the way.
pub proof fn law_inserts_count_distinct_keys<A, B>(s: Seq<(A, B)>)
    ensures
        after_inserts(Map::<A, B>::empty(), s).dom() == keys_of(s),
        after_inserts(Map::<A, B>::empty(), s).len() == keys_of(s).len(),
        forall|i: int|
            0 <= i < s.len() && (forall|j: int| i < j < s.len() ==> s[j].0 != s[i].0) ==> after_inserts(
                Map::<A, B>::empty(),
                s,
            )[#[trigger] s[i].0] == s[i].1,
    decreases s.len(),
{
    if s.len() > 0 {
        let t = s.drop_last();
        law_inserts_count_distinct_keys(t);
        let last = s.last();
        assert(keys_of(s) =~= keys_of(t).insert(last.0)) by {
            let ks = s.map_values(|p: (A, B)| p.0);
            let kt = t.map_values(|p: (A, B)| p.0);
            assert(ks =~= kt.push(last.0));
            assert forall|a: A| ks.to_set().contains(a) <==> kt.to_set().contains(a) || a == last.0 by {
                if ks.to_set().contains(a) {
                    let x = choose|x: int| 0 <= x < ks.len() && ks[x] == a;
                    if x < kt.len() {
                        assert(kt[x] == ks[x]);
                    }
                }
                if kt.to_set().contains(a) {
                    let x = choose|x: int| 0 <= x < kt.len() && kt[x] == a;
                    assert(ks[x] == kt[x]);
                }
                if a == last.0 {
                    assert(ks[ks.len() - 1] == a);
                }
            }
        }
        assert forall|i: int|
            0 <= i < s.len() && (forall|j: int| i < j < s.len() ==> s[j].0 != s[i].0) implies after_inserts(
            Map::<A, B>::empty(), s)[#[trigger] s[i].0] == s[i].1 by {
            if i < s.len() - 1 {
                assert(t[i] == s[i]);
                assert(s[s.len() - 1].0 != s[i].0);
                assert forall|j: int| i < j < t.len() implies t[j].0 != t[i].0 by {
                    assert(t[j] == s[j]);
                }
            }
        }
    }
}

/// Storing a key that is already there leaves the count as it was.
pub proof fn law_replace_keeps_count<K: MapKey, V>(m: HashMap<K, V>, k: K::V, v: V)
    requires
        m.wf(),
        m@.contains_key(k),
    ensures
        m@.insert(k, v).len() == m@.len(),
{
    assert(m@.insert(k, v).dom() =~= m@.dom());
}

/// A second insert of a key gives back the first value and leaves the second.
pub proof fn law_insert_twice<K: MapKey, V>(m: HashMap<K, V>, k: K::V, v1: V, v2: V)
    requires
        m.wf(),
    ensures
        m@.insert(k, v1).contains_key(k),
        m@.insert(k, v1)[k] == v1,
        m@.insert(k, v1).insert(k, v2).contains_key(k),
        m@.insert(k, v1).insert(k, v2)[k] == v2,
{
}

/// After a key is removed it is absent, and the other keys keep their values.
pub proof fn law_remove_then_absent<K: MapKey, V>(m: HashMap<K, V>, k: K::V)
    requires
        m.wf(),
    ensures
        !m@.remove(k).contains_key(k),
        forall|k2: K::V| k2 != k && m@.contains_key(k2) ==> #[trigger] m@.remove(k).contains_key(k2) && m@.remove(
            k,
        )[k2] == m@[k2],
{
}

/// After a key is stored it is found, with the value just stored.
pub proof fn law_insert_then_get<K: MapKey, V>(m: HashMap<K, V>, k: K::V, v: V)
    requires
        m.wf(),
    ensures
        m@.insert(k, v).contains_key(k),
        m@.insert(k, v)[k] == v,
{
}

} // verus!
