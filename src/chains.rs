//! The mathematical model of a bucket array: how keys route to buckets,
//! what it means for a chain to hold a key, the map a bucket array stands
//! for, and the lemmas that carry that map across each kind of change.
use vstd::prelude::*;
use crate::key::MapKey;

verus! {

/// Whether `n` is a power of two.
pub open spec fn is_pow2(n: nat) -> bool
    decreases n,
{
    if n <= 1 {
        n == 1
    } else {
        n % 2 == 0 && is_pow2(n / 2)
    }
}

/// The bucket that a key with view `k` routes to among `n` buckets.
pub open spec fn slot_of<K: MapKey>(k: K::V, n: nat) -> int {
    (K::digest_spec(k) as int) % (n as int)
}

/// Whether some pair of chain `c` has a key with view `k`.
pub open spec fn chain_has<K: View, V>(c: Seq<(K, V)>, k: K::V) -> bool {
    exists|j: int| 0 <= j < c.len() && (#[trigger] c[j]).0@ == k
}

/// The position in chain `c` of a pair whose key has view `k`.
pub open spec fn chain_pos<K: View, V>(c: Seq<(K, V)>, k: K::V) -> int {
    choose|j: int| 0 <= j < c.len() && (#[trigger] c[j]).0@ == k
}

/// No two pairs of chain `c` have keys with the same view.
pub open spec fn chain_unique<K: View, V>(c: Seq<(K, V)>) -> bool {
    forall|a: int, b: int|
        0 <= a < c.len() && 0 <= b < c.len() && (#[trigger] c[a]).0@ == (#[trigger] c[b]).0@
            ==> a == b
}

/// Every pair sits in the bucket that its key routes to.
pub open spec fn routed<K: MapKey, V>(bs: Seq<Vec<(K, V)>>) -> bool {
    forall|i: int, j: int|
        0 <= i < bs.len() && 0 <= j < bs[i]@.len() ==> slot_of::<K>(
            (#[trigger] bs[i]@[j]).0@,
            bs.len(),
        ) == i
}

/// Every bucket holds each key at most once.
pub open spec fn chains_unique<K: View, V>(bs: Seq<Vec<(K, V)>>) -> bool {
    forall|i: int| 0 <= i < bs.len() ==> chain_unique(#[trigger] bs[i]@)
}

/// Whether a key with view `k` is stored in the bucket array `bs`.
pub open spec fn stored<K: MapKey, V>(bs: Seq<Vec<(K, V)>>, k: K::V) -> bool {
    bs.len() > 0 && chain_has(bs[slot_of::<K>(k, bs.len())]@, k)
}

/// The value stored under a key with view `k` in the bucket array `bs`.
pub open spec fn stored_value<K: MapKey, V>(bs: Seq<Vec<(K, V)>>, k: K::V) -> V {
    let c = bs[slot_of::<K>(k, bs.len())]@;
    c[chain_pos(c, k)].1
}

/// The map from key views to values that the bucket array `bs` holds.
pub open spec fn model<K: MapKey, V>(bs: Seq<Vec<(K, V)>>) -> Map<K::V, V> {
    Map::new(|k: K::V| stored(bs, k), |k: K::V| stored_value(bs, k))
}

pub(crate) proof fn lemma_chain_pos<K: View, V>(c: Seq<(K, V)>, j: int)
    requires
        chain_unique(c),
        0 <= j < c.len(),
    ensures
        chain_has(c, c[j].0@),
        chain_pos(c, c[j].0@) == j,
{
    let k = c[j].0@;
    assert(c[j].0@ == k);
    let p = chain_pos(c, k);
    assert(c[p].0@ == k);
}

/// A pair stored in a well-routed bucket array is in its model, with its value.
pub(crate) proof fn lemma_in_model<K: MapKey, V>(bs: Seq<Vec<(K, V)>>, i: int, j: int)
    requires
        routed(bs),
        chains_unique(bs),
        0 <= i < bs.len(),
        0 <= j < bs[i]@.len(),
    ensures
        model(bs).contains_key(bs[i]@[j].0@),
        model(bs)[bs[i]@[j].0@] == bs[i]@[j].1,
{
    let k = bs[i]@[j].0@;
    assert(slot_of::<K>(bs[i]@[j].0@, bs.len()) == i);
    assert(chain_unique(bs[i]@));
    lemma_chain_pos(bs[i]@, j);
}

/// Replacing the value of one pair keeps the layout and rebinds its key.
pub(crate) proof fn lemma_set_value<K: MapKey, V>(bs: Seq<Vec<(K, V)>>, bs2: Seq<Vec<(K, V)>>, b: int, j: int, v: V)
    requires
        routed(bs),
        chains_unique(bs),
        0 <= b < bs.len(),
        0 <= j < bs[b]@.len(),
        bs2.len() == bs.len(),
        forall|i: int| 0 <= i < bs.len() && i != b ==> bs2[i] == bs[i],
        bs2[b]@ == bs[b]@.update(j, (bs[b]@[j].0, v)),
    ensures
        routed(bs2),
        chains_unique(bs2),
        model(bs2) == model(bs).insert(bs[b]@[j].0@, v),
{
    let k = bs[b]@[j].0@;
    let c0 = bs[b]@;
    let c1 = bs2[b]@;
    assert forall|i: int, x: int|
        0 <= i < bs2.len() && 0 <= x < bs2[i]@.len() implies slot_of::<K>(
        (#[trigger] bs2[i]@[x]).0@, bs2.len()) == i by {
        if i != b {
            assert(bs2[i] == bs[i]);
        } else {
            assert(bs[i]@[x].0@ == bs2[i]@[x].0@);
        }
    }
    assert forall|i: int| 0 <= i < bs2.len() implies chain_unique(#[trigger] bs2[i]@) by {
        if i != b {
            assert(bs2[i] == bs[i]);
        } else {
            assert(chain_unique(c0));
            assert forall|x: int, y: int|
                0 <= x < c1.len() && 0 <= y < c1.len() && (#[trigger] c1[x]).0@ == (#[trigger] c1[y]).0@ implies x == y by {
                assert(c0[x].0@ == c1[x].0@);
                assert(c0[y].0@ == c1[y].0@);
            }
        }
    }
    lemma_in_model(bs, b, j);
    assert forall|k2: K::V| #[trigger] model(bs2).contains_key(k2) == model(bs).insert(k, v).contains_key(k2) && (
    model(bs2).contains_key(k2) ==> model(bs2)[k2] == model(bs).insert(k, v)[k2]) by {
        let s = slot_of::<K>(k2, bs.len());
        if s != b {
            assert(bs2[s] == bs[s]);
        } else {
            if chain_has(c1, k2) {
                let x = choose|x: int| 0 <= x < c1.len() && (#[trigger] c1[x]).0@ == k2;
                assert(c0[x].0@ == c1[x].0@);
            }
            if chain_has(c0, k2) {
                let x = choose|x: int| 0 <= x < c0.len() && (#[trigger] c0[x]).0@ == k2;
                assert(c0[x].0@ == c1[x].0@);
                lemma_chain_pos(c1, x);
                if k2 != k {
                    assert(c1[x] == c0[x]);
                    lemma_chain_pos(c0, x);
                } else {
                    assert(x == j);
                }
            }
        }
    }
    assert(model(bs2) =~= model(bs).insert(k, v));
}


/// Whatever value is later written into the pair at position `j` of bucket
/// `b`, the layout stays sound and the key is rebound to that value.
pub(crate) proof fn lemma_set_any_value<K: MapKey, V>(bs: Seq<Vec<(K, V)>>, b: int, j: int)
    requires
        routed(bs),
        chains_unique(bs),
        0 <= b < bs.len(),
        0 <= j < bs[b]@.len(),
    ensures
        forall|bs2: Seq<Vec<(K, V)>>|
            bs2.len() == bs.len() && (forall|i: int| 0 <= i < bs.len() && i != b ==> bs2[i] == bs[i])
                && bs2[b]@ == bs[b]@.update(j, (bs[b]@[j].0, bs2[b]@[j].1)) ==> routed(bs2)
                && chains_unique(bs2) && #[trigger] model(bs2) == model(bs).insert(bs[b]@[j].0@, bs2[b]@[j].1),
{
    assert forall|bs2: Seq<Vec<(K, V)>>|
        bs2.len() == bs.len() && (forall|i: int| 0 <= i < bs.len() && i != b ==> bs2[i] == bs[i])
            && bs2[b]@ == bs[b]@.update(j, (bs[b]@[j].0, bs2[b]@[j].1)) implies routed(bs2)
            && chains_unique(bs2) && #[trigger] model(bs2) == model(bs).insert(bs[b]@[j].0@, bs2[b]@[j].1) by {
        lemma_set_value(bs, bs2, b, j, bs2[b]@[j].1);
    }
}

/// Appending a pair whose key is absent to the bucket it routes to adds it.
pub(crate) proof fn lemma_push<K: MapKey, V>(bs: Seq<Vec<(K, V)>>, bs2: Seq<Vec<(K, V)>>, b: int, p: (K, V))
    requires
        routed(bs),
        chains_unique(bs),
        0 <= b < bs.len(),
        b == slot_of::<K>(p.0@, bs.len()),
        !chain_has(bs[b]@, p.0@),
        bs2.len() == bs.len(),
        forall|i: int| 0 <= i < bs.len() && i != b ==> bs2[i] == bs[i],
        bs2[b]@ == bs[b]@.push(p),
    ensures
        routed(bs2),
        chains_unique(bs2),
        model(bs2) == model(bs).insert(p.0@, p.1),
        !model(bs).contains_key(p.0@),
{
    let k = p.0@;
    let c0 = bs[b]@;
    let c1 = bs2[b]@;
    assert forall|i: int, x: int|
        0 <= i < bs2.len() && 0 <= x < bs2[i]@.len() implies slot_of::<K>(
        (#[trigger] bs2[i]@[x]).0@, bs2.len()) == i by {
        if i != b {
            assert(bs2[i] == bs[i]);
        } else if x < c0.len() {
            assert(c0[x] == c1[x]);
        }
    }
    assert forall|i: int| 0 <= i < bs2.len() implies chain_unique(#[trigger] bs2[i]@) by {
        if i != b {
            assert(bs2[i] == bs[i]);
        } else {
            assert(chain_unique(c0));
            assert forall|x: int, y: int|
                0 <= x < c1.len() && 0 <= y < c1.len() && (#[trigger] c1[x]).0@ == (#[trigger] c1[y]).0@ implies x == y by {
                if x < c0.len() {
                    assert(c0[x] == c1[x]);
                }
                if y < c0.len() {
                    assert(c0[y] == c1[y]);
                }
            }
        }
    }
    assert forall|k2: K::V| #[trigger] model(bs2).contains_key(k2) == model(bs).insert(k, p.1).contains_key(k2) && (
    model(bs2).contains_key(k2) ==> model(bs2)[k2] == model(bs).insert(k, p.1)[k2]) by {
        let s = slot_of::<K>(k2, bs.len());
        if s != b {
            assert(bs2[s] == bs[s]);
        } else if k2 == k {
            lemma_chain_pos(c1, c0.len() as int);
        } else {
            if chain_has(c1, k2) {
                let x = choose|x: int| 0 <= x < c1.len() && (#[trigger] c1[x]).0@ == k2;
                assert(c0[x] == c1[x]);
            }
            if chain_has(c0, k2) {
                let x = choose|x: int| 0 <= x < c0.len() && (#[trigger] c0[x]).0@ == k2;
                assert(c0[x] == c1[x]);
                lemma_chain_pos(c1, x);
                lemma_chain_pos(c0, x);
            }
        }
    }
    assert(model(bs2) =~= model(bs).insert(k, p.1));
}

/// Swap-removing the pair at position `j` of bucket `b` drops its key.
pub(crate) proof fn lemma_swap_remove<K: MapKey, V>(bs: Seq<Vec<(K, V)>>, bs2: Seq<Vec<(K, V)>>, b: int, j: int)
    requires
        routed(bs),
        chains_unique(bs),
        0 <= b < bs.len(),
        0 <= j < bs[b]@.len(),
        bs2.len() == bs.len(),
        forall|i: int| 0 <= i < bs.len() && i != b ==> bs2[i] == bs[i],
        bs2[b]@ == bs[b]@.update(j, bs[b]@.last()).drop_last(),
    ensures
        routed(bs2),
        chains_unique(bs2),
        model(bs2) == model(bs).remove(bs[b]@[j].0@),
{
    let k = bs[b]@[j].0@;
    let c0 = bs[b]@;
    let c1 = bs2[b]@;
    let l = c0.len() - 1;
    assert(chain_unique(c0));
    // each position of the new chain holds a pair of the old one, other than `j`
    assert forall|x: int| 0 <= x < c1.len() implies (#[trigger] c1[x]) == c0[if x == j { l } else { x }] by {}
    assert forall|i: int, x: int|
        0 <= i < bs2.len() && 0 <= x < bs2[i]@.len() implies slot_of::<K>(
        (#[trigger] bs2[i]@[x]).0@, bs2.len()) == i by {
        if i != b {
            assert(bs2[i] == bs[i]);
        } else {
            assert(c1[x] == c0[if x == j { l } else { x }]);
        }
    }
    assert forall|i: int| 0 <= i < bs2.len() implies chain_unique(#[trigger] bs2[i]@) by {
        if i != b {
            assert(bs2[i] == bs[i]);
        } else {
            assert forall|x: int, y: int|
                0 <= x < c1.len() && 0 <= y < c1.len() && (#[trigger] c1[x]).0@ == (#[trigger] c1[y]).0@ implies x == y by {
                assert(c1[x] == c0[if x == j { l } else { x }]);
                assert(c1[y] == c0[if y == j { l } else { y }]);
            }
        }
    }
    assert forall|k2: K::V| #[trigger] model(bs2).contains_key(k2) == model(bs).remove(k).contains_key(k2) && (
    model(bs2).contains_key(k2) ==> model(bs2)[k2] == model(bs).remove(k)[k2]) by {
        let s = slot_of::<K>(k2, bs.len());
        if s != b {
            assert(bs2[s] == bs[s]);
        } else {
            if chain_has(c1, k2) {
                let x = choose|x: int| 0 <= x < c1.len() && (#[trigger] c1[x]).0@ == k2;
                let y = if x == j { l } else { x };
                assert(c1[x] == c0[y]);
                lemma_chain_pos(c1, x);
                lemma_chain_pos(c0, y);
            }
            if chain_has(c0, k2) && k2 != k {
                let y = choose|y: int| 0 <= y < c0.len() && (#[trigger] c0[y]).0@ == k2;
                let x = if y == l { j } else { y };
                assert(c1[x] == c0[y]);
            }
        }
    }
    assert(model(bs2) =~= model(bs).remove(k));
}


/// The pairs of `bs` from position `at` of bucket `b` on, walking each
/// bucket in order and each chain in order.
pub open spec fn remaining<K, V>(bs: Seq<Vec<(K, V)>>, b: int, at: int) -> Seq<(K, V)>
    decreases bs.len() - b,
{
    if b < 0 || b >= bs.len() {
        Seq::empty()
    } else {
        bs[b]@.subrange(at, bs[b]@.len() as int) + remaining(bs, b + 1, 0)
    }
}

/// The pairs from bucket `b` on: each is stored with its value and routes
/// to bucket `b` or later, no key comes twice, and every stored key that
/// routes to bucket `b` or later comes.
pub(crate) proof fn lemma_remaining<K: MapKey, V>(bs: Seq<Vec<(K, V)>>, b: int)
    requires
        routed(bs),
        chains_unique(bs),
        0 <= b <= bs.len(),
    ensures
        forall|x: int|
            0 <= x < remaining(bs, b, 0).len() ==> model(bs).contains_key(
                (#[trigger] remaining(bs, b, 0)[x]).0@,
            ) && model(bs)[remaining(bs, b, 0)[x].0@] == remaining(bs, b, 0)[x].1 && slot_of::<K>(
                remaining(bs, b, 0)[x].0@,
                bs.len(),
            ) >= b,
        chain_unique(remaining(bs, b, 0)),
        forall|k: K::V|
            #[trigger] model(bs).contains_key(k) && slot_of::<K>(k, bs.len()) >= b ==> chain_has(
                remaining(bs, b, 0),
                k,
            ),
    decreases bs.len() - b,
{
    if b < bs.len() {
        lemma_remaining(bs, b + 1);
        let c = bs[b]@;
        let t = remaining(bs, b + 1, 0);
        let all = remaining(bs, b, 0);
        assert(c.subrange(0, c.len() as int) == c);
        assert(all == c + t);
        assert(chain_unique(c));
        assert forall|x: int| 0 <= x < all.len() implies model(bs).contains_key((#[trigger] all[x]).0@)
            && model(bs)[all[x].0@] == all[x].1 && slot_of::<K>(all[x].0@, bs.len()) >= b by {
            if x < c.len() {
                assert(all[x] == bs[b]@[x]);
                lemma_in_model(bs, b, x);
            } else {
                assert(all[x] == t[x - c.len()]);
            }
        }
        assert forall|x: int, y: int|
            0 <= x < all.len() && 0 <= y < all.len() && (#[trigger] all[x]).0@ == (#[trigger] all[y]).0@ implies x == y by {
            if x < c.len() {
                assert(all[x] == bs[b]@[x]);
            } else {
                assert(all[x] == t[x - c.len()]);
            }
            if y < c.len() {
                assert(all[y] == bs[b]@[y]);
            } else {
                assert(all[y] == t[y - c.len()]);
            }
        }
        assert forall|k: K::V|
            #[trigger] model(bs).contains_key(k) && slot_of::<K>(k, bs.len()) >= b implies chain_has(all, k) by {
            if slot_of::<K>(k, bs.len()) == b {
                let j = chain_pos(c, k);
                assert(all[j] == c[j]);
            } else {
                let j = choose|j: int| 0 <= j < t.len() && (#[trigger] t[j]).0@ == k;
                assert(all[c.len() + j] == t[j]);
            }
        }
    }
}

} // verus!
