//! The hash table itself: a fixed-length collection of collision buckets,
//! each an ordered, growable sequence of key-value pairs.
//!
//! A key's bucket is `bucket_index_of` of its characters; within one bucket
//! no two pairs carry equal keys, and pairs stand in insertion order except
//! that re-inserting a key moves its pair to the back of the bucket. The
//! table's abstract view is the mathematical map from key characters to
//! stored values, and every operation's contract is stated over that view.

use vstd::prelude::*;

verus! {

use crate::hash::{BUCKET_COUNT, bucket_index_of, lemma_bucket_index_of_in_range};

/// One stored key-value pair.
type Pair<V> = (String, V);

/// The value paired with key characters `k` in bucket `b`: the first match
/// of a front-to-back scan, or `None` when no pair of `b` carries `k`.
spec fn bucket_get<V>(b: Seq<Pair<V>>, k: Seq<char>) -> Option<V>
    decreases b.len(),
{
    if b.len() == 0 {
        None
    } else if b[0].0@ == k {
        Some(b[0].1)
    } else {
        bucket_get(b.drop_first(), k)
    }
}

/// No two pairs of the bucket carry equal keys.
spec fn distinct_keys<V>(b: Seq<Pair<V>>) -> bool {
    forall|j1: int, j2: int|
        0 <= j1 < j2 < b.len() ==> (#[trigger] b[j1]).0@ != (#[trigger] b[j2]).0@
}

/// Bucket `b` is sound as bucket number `i`: every pair's key hashes to `i`,
/// and no key occurs twice.
spec fn bucket_wf<V>(b: Seq<Pair<V>>, i: int) -> bool {
    &&& forall|j: int| 0 <= j < b.len() ==> bucket_index_of((#[trigger] b[j]).0@) == i
    &&& distinct_keys(b)
}

/// What a lookup of key characters `k` in map `m` yields: the stored value
/// when `k` is present, absence otherwise.
pub open spec fn spec_get<V>(m: Map<Seq<char>, V>, k: Seq<char>) -> Option<V> {
    if m.contains_key(k) {
        Some(m[k])
    } else {
        None
    }
}

/// A hash table keyed by strings: a fixed-length collection of
/// `BUCKET_COUNT` buckets, never resized.
pub struct HashMap<V> {
    buckets: Vec<Vec<Pair<V>>>,
}

impl<V> HashMap<V> {
    /// The table is well formed: exactly `BUCKET_COUNT` buckets, every pair
    /// stands in the bucket its key hashes to, and no bucket holds two pairs
    /// with equal keys.
    pub closed spec fn wf(self) -> bool {
        &&& self.buckets@.len() == BUCKET_COUNT
        &&& forall|i: int|
            0 <= i < self.buckets@.len() ==> bucket_wf((#[trigger] self.buckets@[i])@, i)
    }

    /// The pairs of bucket `i`, front to back.
    pub closed spec fn bucket(self, i: int) -> Seq<Pair<V>> {
        self.buckets@[i]@
    }

    /// The table viewed as a mathematical map from key characters to values.
    pub closed spec fn as_map(self) -> Map<Seq<char>, V> {
        Map::new(
            |k: Seq<char>| bucket_get(self.buckets@[bucket_index_of(k)]@, k) is Some,
            |k: Seq<char>| bucket_get(self.buckets@[bucket_index_of(k)]@, k)->0,
        )
    }

    /// Creates a table of `BUCKET_COUNT` empty buckets; it represents the
    /// empty map.
    pub fn new() -> (r: Self)
        ensures
            r.wf(),
            r@ == Map::<Seq<char>, V>::empty(),
    {
        let mut buckets: Vec<Vec<Pair<V>>> = Vec::new();
        let mut i: usize = 0;
        while i < BUCKET_COUNT
            invariant
                i <= BUCKET_COUNT,
                buckets@.len() == i,
                forall|j: int| 0 <= j < i ==> (#[trigger] buckets@[j])@.len() == 0,
            decreases BUCKET_COUNT - i,
        {
            buckets.push(Vec::new());
            i += 1;
        }
        let r = HashMap { buckets };
        proof {
            assert forall|k: Seq<char>| !(#[trigger] r.as_map().dom().contains(k)) by {
                lemma_bucket_index_of_in_range(k);
            }
            assert(r.as_map() =~= Map::<Seq<char>, V>::empty());
        }
        r
    }

    /// Returns the index of the bucket the key belongs to, from the hash of
    /// the key.
    fn get_bucket_index(&self, key: &String) -> (r: usize)
        requires
            self.wf(),
        ensures
            r as int == bucket_index_of(key@),
            r < self.buckets@.len(),
    {
        let r = crate::hash::bucket_index(key);
        proof {
            lemma_bucket_index_of_in_range(key@);
        }
        r
    }

    /// Scans the bucket front to back for a pair whose key equals `key` and
    /// returns the position of the first match.
    fn find_in_bucket(bucket: &Vec<Pair<V>>, key: &String) -> (r: Option<usize>)
        ensures
            match r {
                Some(j) => j < bucket@.len() && bucket@[j as int].0@ == key@,
                None => forall|t: int|
                    0 <= t < bucket@.len() ==> (#[trigger] bucket@[t]).0@ != key@,
            },
    {
        let mut j: usize = 0;
        while j < bucket.len()
            invariant
                j <= bucket@.len(),
                forall|t: int| 0 <= t < j ==> (#[trigger] bucket@[t]).0@ != key@,
            decreases bucket@.len() - j,
        {
            if bucket[j].0 == *key {
                return Some(j);
            }
            j += 1;
        }
        None
    }

    /// Inserts the pair into the key's bucket. When a pair with an equal key
    /// is present, that pair is removed, the new pair is appended to the
    /// bucket, and the removed value is returned; otherwise the new pair is
    /// appended and nothing is returned. No other bucket is touched and the
    /// table never resizes.
    pub fn insert(&mut self, key: String, value: V) -> (r: Option<V>)
        requires
            old(self).wf(),
        ensures
            final(self).wf(),
            final(self)@ == old(self)@.insert(key@, value),
            r == spec_get(old(self)@, key@),
            forall|i: int|
                0 <= i < BUCKET_COUNT as int && i != bucket_index_of(key@)
                    ==> final(self).bucket(i) == old(self).bucket(i),
            r is None ==> final(self).bucket(bucket_index_of(key@)) == old(self).bucket(
                bucket_index_of(key@),
            ).push((key, value)),
            r is Some ==> (exists|j: int|
                0 <= j < old(self).bucket(bucket_index_of(key@)).len()
                    && (#[trigger] old(self).bucket(bucket_index_of(key@))[j]).0@ == key@
                    && final(self).bucket(bucket_index_of(key@)) == old(self).bucket(
                    bucket_index_of(key@),
                ).remove(j).push((key, value))),
    {
        let bucket_index = self.get_bucket_index(&key);
        let ghost t0 = *self;
        let ghost idx = bucket_index as int;
        let ghost ob = self.buckets@[idx]@;
        let ghost gkey = key@;
        match Self::find_in_bucket(&self.buckets[bucket_index], &key) {
            Some(item_index) => {
                let old_pair = self.buckets[bucket_index].remove(item_index);
                let new_pair = (key, value);
                let ghost gpair = new_pair;
                self.buckets[bucket_index].push(new_pair);
                proof {
                    let i = item_index as int;
                    let b1 = ob.remove(i);
                    let nb = self.buckets@[idx]@;
                    assert(nb == b1.push(gpair));
                    lemma_bucket_get_found(ob, i, gkey);
                    lemma_bucket_get_remove(ob, i, gkey);
                    lemma_bucket_get_push(b1, gpair, gkey);
                    assert(bucket_get(nb, gkey) == Some(value));
                    assert forall|k: Seq<char>| k != gkey implies bucket_get(nb, k)
                        == bucket_get(ob, k) by {
                        lemma_bucket_get_remove(ob, i, k);
                        lemma_bucket_get_push(b1, gpair, k);
                    }
                    lemma_bucket_wf_remove(ob, i, idx);
                    lemma_no_key_after_remove(ob, i);
                    lemma_bucket_wf_push_new_key(b1, gpair, idx);
                    lemma_view_after_bucket_change(t0, *self, idx, gkey);
                    assert(self.as_map() =~= t0.as_map().insert(gkey, value));
                    assert(t0.bucket(idx)[i].0@ == gkey);
                    assert(self.bucket(idx) == t0.bucket(idx).remove(i).push(gpair));
                }
                Some(old_pair.1)
            }
            None => {
                let new_pair = (key, value);
                let ghost gpair = new_pair;
                self.buckets[bucket_index].push(new_pair);
                proof {
                    let nb = self.buckets@[idx]@;
                    assert(nb == ob.push(gpair));
                    lemma_bucket_get_absent(ob, gkey);
                    lemma_bucket_get_push(ob, gpair, gkey);
                    assert(bucket_get(nb, gkey) == Some(value));
                    assert forall|k: Seq<char>| k != gkey implies bucket_get(nb, k)
                        == bucket_get(ob, k) by {
                        lemma_bucket_get_push(ob, gpair, k);
                    }
                    lemma_bucket_wf_push_new_key(ob, gpair, idx);
                    lemma_view_after_bucket_change(t0, *self, idx, gkey);
                    assert(self.as_map() =~= t0.as_map().insert(gkey, value));
                }
                None
            }
        }
    }

    /// Looks the key up in its bucket and returns a reference to the stored
    /// value, or absence when no pair carries an equal key. The table is
    /// unchanged, so repeated lookups keep returning the same result until
    /// the next mutation.
    pub fn get(&self, key: &String) -> (r: Option<&V>)
        requires
            self.wf(),
        returns
            (if self@.contains_key(key@) {
                Some(&self@[key@])
            } else {
                None
            }),
    {
        let bucket_index = self.get_bucket_index(key);
        let bucket = &self.buckets[bucket_index];
        match Self::find_in_bucket(bucket, key) {
            Some(item_index) => {
                proof {
                    lemma_bucket_get_found(bucket@, item_index as int, key@);
                }
                Some(&bucket[item_index].1)
            }
            None => {
                proof {
                    lemma_bucket_get_absent(bucket@, key@);
                }
                None
            }
        }
    }

    /// Detaches the pair with an equal key from its bucket and returns the
    /// value; the bucket shrinks by one and the remaining pairs keep their
    /// order. When no pair matches, nothing is returned and the table is
    /// unchanged.
    pub fn remove(&mut self, key: &String) -> (r: Option<V>)
        requires
            old(self).wf(),
        ensures
            final(self).wf(),
            final(self)@ == old(self)@.remove(key@),
            r == spec_get(old(self)@, key@),
            r is None ==> *final(self) == *old(self),
            forall|i: int|
                0 <= i < BUCKET_COUNT as int && i != bucket_index_of(key@)
                    ==> final(self).bucket(i) == old(self).bucket(i),
            r is Some ==> (exists|j: int|
                0 <= j < old(self).bucket(bucket_index_of(key@)).len()
                    && (#[trigger] old(self).bucket(bucket_index_of(key@))[j]).0@ == key@
                    && final(self).bucket(bucket_index_of(key@)) == old(self).bucket(
                    bucket_index_of(key@),
                ).remove(j)),
    {
        let bucket_index = self.get_bucket_index(key);
        let ghost t0 = *self;
        let ghost idx = bucket_index as int;
        let ghost ob = self.buckets@[idx]@;
        match Self::find_in_bucket(&self.buckets[bucket_index], key) {
            Some(item_index) => {
                let old_pair = self.buckets[bucket_index].remove(item_index);
                proof {
                    let i = item_index as int;
                    let nb = self.buckets@[idx]@;
                    assert(nb == ob.remove(i));
                    lemma_bucket_get_found(ob, i, key@);
                    lemma_bucket_get_remove(ob, i, key@);
                    assert forall|k: Seq<char>| k != key@ implies bucket_get(nb, k)
                        == bucket_get(ob, k) by {
                        lemma_bucket_get_remove(ob, i, k);
                    }
                    lemma_bucket_wf_remove(ob, i, idx);
                    lemma_view_after_bucket_change(t0, *self, idx, key@);
                    assert(self.as_map() =~= t0.as_map().remove(key@));
                    assert(t0.bucket(idx)[i].0@ == key@);
                    assert(self.bucket(idx) == t0.bucket(idx).remove(i));
                }
                Some(old_pair.1)
            }
            None => {
                proof {
                    lemma_bucket_get_absent(ob, key@);
                    assert(self.as_map() =~= t0.as_map().remove(key@));
                }
                None
            }
        }
    }
}

impl<V> View for HashMap<V> {
    type V = Map<Seq<char>, V>;

    open spec fn view(&self) -> Map<Seq<char>, V> {
        self.as_map()
    }
}

/// A bucket without any pair carrying `k` yields nothing for `k`.
proof fn lemma_bucket_get_absent<V>(b: Seq<Pair<V>>, k: Seq<char>)
    requires
        forall|j: int| 0 <= j < b.len() ==> (#[trigger] b[j]).0@ != k,
    ensures
        bucket_get(b, k) is None,
    decreases b.len(),
{
    if b.len() > 0 {
        lemma_bucket_get_absent(b.drop_first(), k);
    }
}

/// In a bucket with distinct keys, the pair at the position where `k` stands
/// is what a scan for `k` yields.
proof fn lemma_bucket_get_found<V>(b: Seq<Pair<V>>, i: int, k: Seq<char>)
    requires
        distinct_keys(b),
        0 <= i < b.len(),
        b[i].0@ == k,
    ensures
        bucket_get(b, k) == Some(b[i].1),
    decreases b.len(),
{
    if i > 0 {
        lemma_distinct_drop_first(b);
        lemma_bucket_get_found(b.drop_first(), i - 1, k);
    }
}

/// Dropping the front pair keeps the keys distinct.
proof fn lemma_distinct_drop_first<V>(b: Seq<Pair<V>>)
    requires
        b.len() > 0,
        distinct_keys(b),
    ensures
        distinct_keys(b.drop_first()),
{
    assert forall|j1: int, j2: int|
        0 <= j1 < j2 < b.drop_first().len() implies (#[trigger] b.drop_first()[j1]).0@
        != (#[trigger] b.drop_first()[j2]).0@ by {
        assert(b.drop_first()[j1] == b[j1 + 1]);
        assert(b.drop_first()[j2] == b[j2 + 1]);
    }
}

/// Appending a pair leaves every earlier key's value in place; a key that
/// was absent now yields the appended pair's value exactly when it carries
/// that key.
proof fn lemma_bucket_get_push<V>(b: Seq<Pair<V>>, p: Pair<V>, k: Seq<char>)
    ensures
        bucket_get(b.push(p), k) == (if bucket_get(b, k) is Some {
            bucket_get(b, k)
        } else if p.0@ == k {
            Some(p.1)
        } else {
            None::<V>
        }),
    decreases b.len(),
{
    if b.len() == 0 {
        assert(b.push(p)[0] == p);
        assert(b.push(p).drop_first() =~= Seq::<Pair<V>>::empty());
        assert(bucket_get(Seq::<Pair<V>>::empty(), k) is None);
        assert(bucket_get(b, k) is None);
    } else {
        assert(b.push(p)[0] == b[0]);
        assert(b.push(p).drop_first() =~= b.drop_first().push(p));
        lemma_bucket_get_push(b.drop_first(), p, k);
    }
}

/// Removing the pair at position `i` of a distinct-keyed bucket erases its
/// key and leaves every other key's value in place.
proof fn lemma_bucket_get_remove<V>(b: Seq<Pair<V>>, i: int, k: Seq<char>)
    requires
        distinct_keys(b),
        0 <= i < b.len(),
    ensures
        bucket_get(b.remove(i), k) == (if b[i].0@ == k {
            None::<V>
        } else {
            bucket_get(b, k)
        }),
    decreases b.len(),
{
    b.remove_ensures(i);
    if i == 0 {
        assert(b.remove(0) =~= b.drop_first());
        if b[0].0@ == k {
            assert forall|j: int|
                0 <= j < b.drop_first().len() implies (#[trigger] b.drop_first()[j]).0@ != k by {
                assert(b.drop_first()[j] == b[j + 1]);
            }
            lemma_bucket_get_absent(b.drop_first(), k);
        }
    } else {
        assert(b.remove(i)[0] == b[0]);
        assert(b.remove(i).drop_first() =~= b.drop_first().remove(i - 1));
        lemma_distinct_drop_first(b);
        lemma_bucket_get_remove(b.drop_first(), i - 1, k);
    }
}

/// Removing a pair keeps the bucket sound for its index.
proof fn lemma_bucket_wf_remove<V>(b: Seq<Pair<V>>, i: int, idx: int)
    requires
        bucket_wf(b, idx),
        0 <= i < b.len(),
    ensures
        bucket_wf(b.remove(i), idx),
{
    b.remove_ensures(i);
    let nb = b.remove(i);
    assert forall|j: int| 0 <= j < nb.len() implies bucket_index_of((#[trigger] nb[j]).0@)
        == idx by {
        if j < i {
            assert(nb[j] == b[j]);
        } else {
            assert(nb[j] == b[j + 1]);
        }
    }
    assert forall|j1: int, j2: int|
        0 <= j1 < j2 < nb.len() implies (#[trigger] nb[j1]).0@ != (#[trigger] nb[j2]).0@ by {
        if j1 < i {
            assert(nb[j1] == b[j1]);
        } else {
            assert(nb[j1] == b[j1 + 1]);
        }
        if j2 < i {
            assert(nb[j2] == b[j2]);
        } else {
            assert(nb[j2] == b[j2 + 1]);
        }
    }
}

/// After removing the one pair that carries `b[i]`'s key from a
/// distinct-keyed bucket, no pair carries that key.
proof fn lemma_no_key_after_remove<V>(b: Seq<Pair<V>>, i: int)
    requires
        distinct_keys(b),
        0 <= i < b.len(),
    ensures
        forall|j: int|
            0 <= j < b.remove(i).len() ==> (#[trigger] b.remove(i)[j]).0@ != b[i].0@,
{
    b.remove_ensures(i);
    let nb = b.remove(i);
    assert forall|j: int| 0 <= j < nb.len() implies (#[trigger] nb[j]).0@ != b[i].0@ by {
        if j < i {
            assert(nb[j] == b[j]);
        } else {
            assert(nb[j] == b[j + 1]);
        }
    }
}

/// Appending a pair whose key hashes to the bucket's index and occurs
/// nowhere in the bucket keeps the bucket sound.
proof fn lemma_bucket_wf_push_new_key<V>(b: Seq<Pair<V>>, p: Pair<V>, idx: int)
    requires
        bucket_wf(b, idx),
        bucket_index_of(p.0@) == idx,
        forall|j: int| 0 <= j < b.len() ==> (#[trigger] b[j]).0@ != p.0@,
    ensures
        bucket_wf(b.push(p), idx),
{
    let nb = b.push(p);
    assert forall|j: int| 0 <= j < nb.len() implies bucket_index_of((#[trigger] nb[j]).0@)
        == idx by {
        if j < b.len() {
            assert(nb[j] == b[j]);
        } else {
            assert(nb[j] == p);
        }
    }
    assert forall|j1: int, j2: int|
        0 <= j1 < j2 < nb.len() implies (#[trigger] nb[j1]).0@ != (#[trigger] nb[j2]).0@ by {
        assert(nb[j1] == b[j1]);
        if j2 < b.len() {
            assert(nb[j2] == b[j2]);
        } else {
            assert(nb[j2] == p);
        }
    }
}

/// When only the bucket of `key` changed, the table's map changed at `key`
/// alone: every other key keeps its presence and value.
proof fn lemma_view_after_bucket_change<V>(
    t0: HashMap<V>,
    t1: HashMap<V>,
    idx: int,
    key: Seq<char>,
)
    requires
        t0.buckets@.len() == BUCKET_COUNT,
        t1.buckets@.len() == BUCKET_COUNT,
        idx == bucket_index_of(key),
        forall|i: int|
            0 <= i < BUCKET_COUNT && i != idx ==> t1.buckets@[i] == t0.buckets@[i],
        forall|k: Seq<char>|
            k != key ==> bucket_get(t1.buckets@[idx]@, k) == bucket_get(t0.buckets@[idx]@, k),
    ensures
        forall|k: Seq<char>|
            k != key ==> #[trigger] t1.as_map().contains_key(k) == t0.as_map().contains_key(k),
        forall|k: Seq<char>|
            k != key && t0.as_map().contains_key(k) ==> #[trigger] t1.as_map()[k]
                == t0.as_map()[k],
{
    assert forall|k: Seq<char>| k != key implies #[trigger] t1.as_map().contains_key(k)
        == t0.as_map().contains_key(k) by {
        lemma_bucket_index_of_in_range(k);
    }
    assert forall|k: Seq<char>|
        k != key && t0.as_map().contains_key(k) implies #[trigger] t1.as_map()[k]
        == t0.as_map()[k] by {
        lemma_bucket_index_of_in_range(k);
    }
}

} // verus!
