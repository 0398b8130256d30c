//! The container: a fixed, prime number of buckets, each owning one flat
//! slot array.  A key is hashed to exactly one bucket and all chain
//! behavior — scan, insert, update, tombstone, growth — happens there.

use crate::prime::is_factor;
use crate::prime::is_next_prime;
use crate::prime::make_prime;
use crate::prime::spec_is_prime;
use crate::prime::PRIME_BOUND;
use crate::slots::at_most_one_match;
use crate::slots::bucket_get;
use crate::slots::first_free;
use crate::slots::first_match;
use crate::slots::free_slots;
use crate::slots::occ_count;
use crate::slots::scan_hit;
use crate::slots::slots_after_insert;
use crate::slots::slots_after_remove;
use crate::slots::SlotView;
use vstd::pervasive::VecAdditionalExecFns;
use vstd::prelude::*;

verus! {

/// Default sizing request: the bucket count and each bucket's initial slot
/// capacity are the smallest prime at or above this.
pub const DEF_CAP: usize = 3;

/// One storage cell of a bucket: a key, a value, and an occupancy flag.
/// `occupied == false` marks a free slot or a tombstone; its key and value
/// are then stale storage, kept only for reuse.
pub struct Node<V> {
    /// The stored key (stale when unoccupied).
    pub key: usize,
    /// The stored value; `None` only in a slot that has never held one.
    pub value: Option<V>,
    /// Whether the slot holds a live entry.
    pub occupied: bool,
}

/// The whole chain for one hash value: an owned slot array with its
/// capacity and its count of live entries.
pub struct Bucket<V> {
    /// Length of the slot array; always prime.
    pub capacity: usize,
    /// Number of occupied slots.
    pub live_count: usize,
    /// The slot array itself.
    pub slots: Vec<Node<V>>,
}

/// The container: a bucket array whose length is fixed at creation.
pub struct Hashmap<V: Clone> {
    /// Number of buckets; prime, and never changed after creation.
    pub capacity: usize,
    /// The buckets.
    pub buckets: Vec<Bucket<V>>,
}

/// What a node means abstractly: a live entry, or a free slot whose stale
/// storage is ignored.
pub open spec fn node_view<V>(n: Node<V>) -> SlotView<V> {
    if n.occupied && n.value is Some {
        SlotView::Entry { key: n.key, value: n.value->0 }
    } else {
        SlotView::Free
    }
}

/// A bucket's slot array, abstractly.
pub open spec fn bucket_slots<V>(b: Bucket<V>) -> Seq<SlotView<V>> {
    b.slots@.map_values(|n: Node<V>| node_view(n))
}

/// Bucket well-formedness: the capacity is the array length and is prime
/// and bounded, the live count matches the occupied slots, and every
/// occupied slot holds a value.
pub open spec fn bucket_wf<V>(b: Bucket<V>) -> bool {
    &&& b.slots@.len() == b.capacity
    &&& b.live_count == occ_count(bucket_slots(b))
    &&& spec_is_prime(b.capacity as int)
    &&& b.capacity <= PRIME_BOUND
    &&& forall|j: int|
        0 <= j < b.slots@.len() ==> ((#[trigger] b.slots@[j]).occupied ==> b.slots@[j].value
            is Some)
}

/// A bucket of `cap` slots, all free.
fn empty_bucket<V>(cap: usize) -> (b: Bucket<V>)
    requires
        spec_is_prime(cap as int),
        cap <= PRIME_BOUND,
    ensures
        bucket_wf(b),
        b.capacity == cap,
        b.live_count == 0,
        bucket_slots(b).len() == cap,
        forall|j: int| 0 <= j < cap ==> bucket_slots(b)[j] is Free,
{
    let mut slots: Vec<Node<V>> = Vec::new();
    let mut i: usize = 0;
    while i < cap
        invariant
            i <= cap,
            slots@.len() == i,
            forall|j: int| 0 <= j < i ==> !(#[trigger] slots@[j]).occupied,
        decreases cap - i,
    {
        slots.push(Node { key: 0, value: None, occupied: false });
        i = i + 1;
    }
    let b = Bucket { capacity: cap, live_count: 0, slots };
    proof {
        crate::slots::lemma_occ_count_none(bucket_slots(b));
    }
    b
}

/// Taking one element out of a sequence and putting another back at the
/// same position is a plain update.
proof fn lemma_remove_insert<A>(s: Seq<A>, i: int, x: A)
    requires
        0 <= i < s.len(),
    ensures
        s.remove(i).insert(i, x) =~= s.update(i, x),
{
}

impl<V: Clone> Hashmap<V> {
    /// The bucket a key belongs to: its low 32 bits, reduced modulo the
    /// bucket count.  Keys wider than 32 bits collapse to their low half
    /// for placement.
    pub open spec fn spec_hash(self, key: usize) -> int {
        ((key as u32) as int) % (self.capacity as int)
    }

    /// The abstract slot array of bucket `i`.
    pub open spec fn bucket_view(self, i: int) -> Seq<SlotView<V>> {
        bucket_slots(self.buckets@[i])
    }

    /// Container well-formedness: the bucket count is the array length,
    /// prime and fixed, and every bucket is well-formed.
    pub open spec fn wf(self) -> bool {
        &&& self.buckets@.len() == self.capacity
        &&& spec_is_prime(self.capacity as int)
        &&& self.capacity <= PRIME_BOUND
        &&& forall|i: int| 0 <= i < self.buckets@.len() ==> bucket_wf(#[trigger] self.buckets@[i])
    }

    /// The container as a map: a key is present when its bucket has a live
    /// entry for it, and its value is that of the first such entry.
    pub open spec fn as_map(self) -> Map<usize, V> {
        Map::new(
            |k: usize| bucket_get(self.bucket_view(self.spec_hash(k)), k) is Some,
            |k: usize| bucket_get(self.bucket_view(self.spec_hash(k)), k)->0,
        )
    }

    /// Insertion is verified as long as a full bucket can still grow: its
    /// doubled capacity must stay within the prime search bound.
    pub open spec fn can_insert(self, key: usize) -> bool {
        let b = self.buckets@[self.spec_hash(key)];
        b.live_count < b.capacity || 2 * b.capacity <= PRIME_BOUND as int
    }

    /// A container with `next_prime(DEF_CAP)` buckets, each starting with
    /// `next_prime(DEF_CAP)` slots, all unoccupied.  The bucket count never
    /// changes afterwards.
    pub fn new_hashmap() -> (h: Hashmap<V>)
        ensures
            h.wf(),
            h.capacity == 3,
            forall|i: int|
                0 <= i < 3 ==> (#[trigger] h.buckets@[i]).capacity == 3 && h.buckets@[i].live_count
                    == 0,
            h.as_map() == Map::<usize, V>::empty(),
    {
        let capacity = make_prime(DEF_CAP);
        proof {
            assert forall|d: int| 2 <= d < 3 implies !is_factor(d, 3) by {
                assert(3int % 2 == 1);
            }
            assert(spec_is_prime(3));
        }
        let mut buckets: Vec<Bucket<V>> = Vec::new();
        let mut i: usize = 0;
        while i < capacity
            invariant
                capacity == 3,
                spec_is_prime(capacity as int),
                i <= capacity,
                buckets@.len() == i,
                forall|j: int| 0 <= j < i ==> bucket_wf(#[trigger] buckets@[j]),
                forall|j: int|
                    0 <= j < i ==> (#[trigger] buckets@[j]).capacity == 3 && buckets@[j].live_count
                        == 0,
                forall|j: int, n: int|
                    0 <= j < i && 0 <= n < 3 ==> (#[trigger] bucket_slots(buckets@[j])[n]) is Free,
            decreases capacity - i,
        {
            buckets.push(empty_bucket(capacity));
            i = i + 1;
        }
        let h = Hashmap { capacity, buckets };
        proof {
            assert forall|k: usize| !(#[trigger] h.as_map().dom().contains(k)) by {
                crate::slots::lemma_first_match_none(h.bucket_view(h.spec_hash(k)), k);
            }
            assert(h.as_map() =~= Map::<usize, V>::empty());
        }
        h
    }

    /// The index of the bucket a key belongs to: the key's low 32 bits,
    /// modulo the bucket count.
    fn get_hash(&self, key: usize) -> (i: usize)
        requires
            self.wf(),
        ensures
            i as int == self.spec_hash(key),
            i < self.capacity,
    {
        ((#[verifier::truncate] (key as u32)) % (self.capacity as u32)) as usize
    }

    /// Remove `key`: scan its bucket for the first occupied slot with a
    /// matching key, mark it unoccupied and lower the live count.  The
    /// slot's storage is kept for reuse — no compaction, no shifting.
    /// Returns whether a live entry was found; removing an absent key
    /// changes nothing.
    pub fn remove_item(&mut self, key: usize) -> (r: bool)
        requires
            old(self).wf(),
        ensures
            final(self).wf(),
            final(self).capacity == old(self).capacity,
            final(self).buckets@.len() == old(self).buckets@.len(),
            r == old(self).as_map().contains_key(key),
            forall|i: int|
                0 <= i < final(self).buckets@.len() && i != old(self).spec_hash(key)
                    ==> final(self).buckets@[i] == old(self).buckets@[i],
            !r ==> final(self).buckets@ == old(self).buckets@ && final(self).as_map() == old(
                self).as_map(),
            r ==> ({
                let b0 = old(self).buckets@[old(self).spec_hash(key)];
                let b1 = final(self).buckets@[old(self).spec_hash(key)];
                &&& b1.capacity == b0.capacity
                &&& b1.live_count == b0.live_count - 1
                &&& bucket_slots(b1) == slots_after_remove(bucket_slots(b0), key)
            }),
            final(self).as_map().remove(key) == old(self).as_map().remove(key),
            at_most_one_match(old(self).bucket_view(old(self).spec_hash(key)), key) ==> final(
                self).as_map() == old(self).as_map().remove(key),
    {
        let index = self.get_hash(key);
        let ghost orig = *self;
        let mut bucket = self.buckets.remove(index);
        let ghost b0g = bucket;
        let ghost s0 = bucket_slots(bucket);
        let mut i: usize = 0;
        #[verifier::loop_isolation(false)]
        while i < bucket.capacity
            invariant
                bucket == b0g,
                self.capacity == orig.capacity,
                self.buckets@ == orig.buckets@.remove(index as int),
                i <= bucket.capacity,
                forall|j: int| 0 <= j < i ==> !crate::slots::slot_matches(#[trigger] s0[j], key),
            decreases bucket.capacity - i,
        {
            if bucket.slots[i].occupied && bucket.slots[i].key == key {
                let slot = &mut bucket.slots[i];
                slot.occupied = false;
                proof {
                    crate::slots::lemma_first_match_is(s0, key, i as int);
                    assert(bucket_slots(bucket) =~= slots_after_remove(s0, key));
                    crate::slots::lemma_occ_count_update(s0, i as int, SlotView::Free);
                    crate::slots::lemma_occ_count_props(bucket_slots(bucket));
                }
                bucket.live_count = bucket.live_count - 1;
                let ghost b1g = bucket;
                self.buckets.insert(index, bucket);
                proof {
                    self.lemma_remove_finish(orig, b1g, index as int, key);
                }
                return true;
            }
            i = i + 1;
        }
        proof {
            crate::slots::lemma_first_match_none(s0, key);
        }
        self.buckets.insert(index, bucket);
        proof {
            lemma_remove_insert(orig.buckets@, index as int, b0g);
            assert(self.buckets@ =~= orig.buckets@);
            assert(self.as_map() =~= orig.as_map());
            assert(self.as_map().remove(key) =~= orig.as_map().remove(key));
        }
        false
    }

    /// After the tombstoned bucket goes back into the bucket array, every
    /// other key reads as before, and a uniquely-stored key is gone.
    proof fn lemma_remove_finish(self, orig: Self, b1: Bucket<V>, index: int, key: usize)
        requires
            orig.wf(),
            0 <= index < orig.buckets@.len(),
            index == orig.spec_hash(key),
            first_match(bucket_slots(orig.buckets@[index]), key) < bucket_slots(
                orig.buckets@[index],
            ).len(),
            bucket_slots(b1) == slots_after_remove(bucket_slots(orig.buckets@[index]), key),
            bucket_wf(b1),
            self.capacity == orig.capacity,
            self.buckets@ == orig.buckets@.remove(index).insert(index, b1),
        ensures
            self.wf(),
            self.buckets@.len() == orig.buckets@.len(),
            self.buckets@[index] == b1,
            forall|i: int|
                0 <= i < self.buckets@.len() && i != index ==> self.buckets@[i] == orig.buckets@[i],
            orig.as_map().contains_key(key),
            self.as_map().remove(key) == orig.as_map().remove(key),
            at_most_one_match(bucket_slots(orig.buckets@[index]), key) ==> self.as_map()
                == orig.as_map().remove(key),
    {
        let s0 = bucket_slots(orig.buckets@[index]);
        lemma_remove_insert(orig.buckets@, index, b1);
        assert(self.buckets@ =~= orig.buckets@.update(index, b1));
        crate::slots::lemma_first_match_props(s0, key);
        assert forall|k: usize| k != key implies bucket_get(
            self.bucket_view(self.spec_hash(k)),
            k,
        ) == bucket_get(orig.bucket_view(orig.spec_hash(k)), k) by {
            if self.spec_hash(k) == index {
                crate::slots::lemma_remove_get_other(s0, key, k);
            }
        }
        assert(self.as_map().remove(key) =~= orig.as_map().remove(key));
        if at_most_one_match(s0, key) {
            crate::slots::lemma_remove_then_lookup(s0, key);
            assert(self.as_map() =~= orig.as_map().remove(key));
        }
    }

    /// A reference to the value stored under `key`, if any: the key's
    /// bucket is scanned left to right for the first occupied slot with a
    /// matching key.  A tombstoned slot never matches, so a removed key
    /// reads as absent even while its stale storage remains.
    pub fn peek_item(&self, key: usize) -> (r: Option<&V>)
        requires
            self.wf(),
        ensures
            match r {
                Some(v) => self.as_map().contains_key(key) && *v == self.as_map()[key],
                None => !self.as_map().contains_key(key),
            },
    {
        let index = self.get_hash(key);
        let bucket = &self.buckets[index];
        let ghost s = bucket_slots(*bucket);
        let mut i: usize = 0;
        while i < bucket.capacity
            invariant
                self.wf(),
                index < self.buckets@.len(),
                index as int == self.spec_hash(key),
                *bucket == self.buckets@[index as int],
                s == bucket_slots(*bucket),
                i <= bucket.capacity,
                bucket.slots@.len() == bucket.capacity,
                forall|j: int| 0 <= j < i ==> !crate::slots::slot_matches(s[j], key),
            decreases bucket.capacity - i,
        {
            let node = &bucket.slots[i];
            if node.occupied && node.key == key {
                proof {
                    crate::slots::lemma_first_match_is(s, key, i as int);
                }
                return Some(node.value.as_ref().unwrap());
            }
            i = i + 1;
        }
        proof {
            crate::slots::lemma_first_match_none(s, key);
        }
        None
    }

    /// Insert `value` under `key`.  The key's bucket is scanned left to
    /// right; the entry goes to the first unoccupied slot (reusing a
    /// tombstone) or overwrites the first occupied slot with a matching
    /// key, whichever the scan meets first.  A full bucket first grows to
    /// the next prime at or above twice its capacity and the insertion
    /// runs against the larger array, so it always succeeds: the scan
    /// cannot run out of slots while the live count is below the capacity.
    pub fn add_item(&mut self, key: usize, value: V) -> (r: bool)
        requires
            old(self).wf(),
            old(self).can_insert(key),
        ensures
            final(self).wf(),
            r == true,
            final(self).capacity == old(self).capacity,
            final(self).buckets@.len() == old(self).buckets@.len(),
            final(self).as_map() == old(self).as_map().insert(key, value),
            forall|i: int|
                0 <= i < final(self).buckets@.len() && i != old(self).spec_hash(key)
                    ==> final(self).buckets@[i] == old(self).buckets@[i],
            ({
                let b0 = old(self).buckets@[old(self).spec_hash(key)];
                let b1 = final(self).buckets@[old(self).spec_hash(key)];
                let s1 = if b0.live_count == b0.capacity {
                    bucket_slots(b0) + free_slots((b1.capacity - b0.capacity) as nat)
                } else {
                    bucket_slots(b0)
                };
                &&& b0.capacity <= b1.capacity
                &&& (if b0.live_count == b0.capacity {
                    is_next_prime(2 * b0.capacity as int, b1.capacity as int)
                } else {
                    b1.capacity == b0.capacity
                })
                &&& bucket_slots(b1) == slots_after_insert(s1, key, value)
                &&& b1.live_count as int == (if first_match(s1, key) < first_free(s1) {
                    b0.live_count as int
                } else {
                    b0.live_count + 1
                })
            }),
    {
        let index = self.get_hash(key);
        if self.buckets[index].live_count == self.buckets[index].capacity {
            self.extend_array(index);
        }
        let ghost mid = *self;
        let mut bucket = self.buckets.remove(index);
        let ghost b0g = bucket;
        let ghost s1 = bucket_slots(bucket);
        proof {
            assert(bucket_wf(b0g));
            crate::slots::lemma_occ_count_props(s1);
            assert(b0g.live_count < b0g.capacity);
        }
        let mut i: usize = 0;
        #[verifier::loop_isolation(false)]
        while i < bucket.capacity
            invariant
                bucket == b0g,
                self.capacity == mid.capacity,
                self.buckets@ == mid.buckets@.remove(index as int),
                i <= bucket.capacity,
                forall|j: int|
                    0 <= j < i ==> (#[trigger] s1[j]) is Entry && !crate::slots::slot_matches(
                        s1[j],
                        key,
                    ),
            decreases bucket.capacity - i,
        {
            if !bucket.slots[i].occupied {
                bucket.slots.set(i, Node { key, value: Some(value), occupied: true });
                bucket.live_count = bucket.live_count + 1;
                proof {
                    crate::slots::lemma_first_free_is(s1, i as int);
                    crate::slots::lemma_first_match_props(s1, key);
                    assert(scan_hit(s1, key) == i);
                    assert(bucket_slots(bucket) =~= slots_after_insert(s1, key, value));
                    crate::slots::lemma_occ_count_update(
                        s1,
                        i as int,
                        SlotView::Entry { key, value },
                    );
                    assert(bucket_wf(bucket));
                }
                let ghost b1g = bucket;
                self.buckets.insert(index, bucket);
                proof {
                    self.lemma_insert_finish(mid, *old(self), b1g, index as int, key, value);
                }
                return true;
            } else if bucket.slots[i].key == key {
                bucket.slots.set(i, Node { key, value: Some(value), occupied: true });
                proof {
                    crate::slots::lemma_first_match_is(s1, key, i as int);
                    crate::slots::lemma_first_free_props(s1);
                    assert(scan_hit(s1, key) == i);
                    assert(bucket_slots(bucket) =~= slots_after_insert(s1, key, value));
                    crate::slots::lemma_occ_count_update(
                        s1,
                        i as int,
                        SlotView::Entry { key, value },
                    );
                    assert(bucket_wf(bucket));
                }
                let ghost b1g = bucket;
                self.buckets.insert(index, bucket);
                proof {
                    self.lemma_insert_finish(mid, *old(self), b1g, index as int, key, value);
                }
                return true;
            }
            i = i + 1;
        }
        proof {
            crate::slots::lemma_occ_count_props(s1);
            assert(false);
        }
        false
    }

    /// After the scanned bucket goes back into the bucket array, the whole
    /// container reads as the old map with one binding added.
    proof fn lemma_insert_finish(
        self,
        mid: Self,
        orig: Self,
        b1: Bucket<V>,
        index: int,
        key: usize,
        value: V,
    )
        requires
            mid.wf(),
            orig.capacity == mid.capacity,
            orig.as_map() == mid.as_map(),
            0 <= index < mid.buckets@.len(),
            index == mid.spec_hash(key),
            scan_hit(bucket_slots(mid.buckets@[index]), key) < bucket_slots(
                mid.buckets@[index],
            ).len(),
            bucket_slots(b1) == slots_after_insert(bucket_slots(mid.buckets@[index]), key, value),
            bucket_wf(b1),
            self.capacity == mid.capacity,
            self.buckets@ == mid.buckets@.remove(index).insert(index, b1),
        ensures
            self.wf(),
            self.as_map() == orig.as_map().insert(key, value),
            self.buckets@.len() == mid.buckets@.len(),
            self.buckets@[index] == b1,
            forall|i: int|
                0 <= i < self.buckets@.len() && i != index ==> self.buckets@[i] == mid.buckets@[i],
    {
        let s1 = bucket_slots(mid.buckets@[index]);
        lemma_remove_insert(mid.buckets@, index, b1);
        assert(self.buckets@ =~= mid.buckets@.update(index, b1));
        assert forall|k: usize|
            bucket_get(self.bucket_view(self.spec_hash(k)), k) == (if k == key {
                Some(value)
            } else {
                bucket_get(mid.bucket_view(mid.spec_hash(k)), k)
            }) by {
            if k == key {
                crate::slots::lemma_insert_get_same(s1, key, value);
            } else if self.spec_hash(k) == index {
                crate::slots::lemma_insert_get_other(s1, key, value, k);
            }
        }
        assert(self.as_map() =~= mid.as_map().insert(key, value));
    }

    /// Grow bucket `index` to the smallest prime at or above twice its
    /// capacity: allocate the larger array, copy the old slots verbatim
    /// (keys, values, occupancy flags), leave the new tail unoccupied, and
    /// install it in place of the old array.  The live count and every
    /// lookup are unchanged; no other bucket is touched.
    fn extend_array(&mut self, index: usize)
        requires
            old(self).wf(),
            index < old(self).buckets@.len(),
            2 * old(self).buckets@[index as int].capacity <= PRIME_BOUND,
        ensures
            final(self).wf(),
            final(self).capacity == old(self).capacity,
            final(self).buckets@.len() == old(self).buckets@.len(),
            forall|i: int|
                0 <= i < final(self).buckets@.len() && i != index ==> final(self).buckets@[i]
                    == old(self).buckets@[i],
            ({
                let b0 = old(self).buckets@[index as int];
                let b1 = final(self).buckets@[index as int];
                &&& is_next_prime(2 * b0.capacity as int, b1.capacity as int)
                &&& b0.capacity < b1.capacity
                &&& b1.live_count == b0.live_count
                &&& bucket_slots(b1) == bucket_slots(b0) + free_slots(
                    (b1.capacity - b0.capacity) as nat,
                )
            }),
            final(self).as_map() == old(self).as_map(),
    {
        let mut bucket = self.buckets.remove(index);
        let ghost b0 = bucket;
        let ghost s0 = bucket_slots(bucket);
        let old_cap = bucket.capacity;
        let new_cap = make_prime(old_cap * 2);
        let ghost extra = (new_cap - old_cap) as nat;
        let mut i = old_cap;
        #[verifier::loop_isolation(false)]
        while i < new_cap
            invariant
                old_cap <= i <= new_cap,
                bucket.slots@.len() == i,
                bucket.capacity == old_cap,
                bucket.live_count == b0.live_count,
                forall|j: int| 0 <= j < old_cap ==> bucket.slots@[j] == b0.slots@[j],
                forall|j: int| old_cap <= j < i ==> !(#[trigger] bucket.slots@[j]).occupied,
            decreases new_cap - i,
        {
            bucket.slots.push(Node { key: 0, value: None, occupied: false });
            i = i + 1;
        }
        bucket.capacity = new_cap;
        proof {
            assert(bucket_slots(bucket) =~= s0 + free_slots(extra));
            crate::slots::lemma_occ_count_add(s0, free_slots(extra));
            crate::slots::lemma_free_slots_empty::<V>(extra);
            assert(bucket_wf(bucket));
        }
        let ghost b1 = bucket;
        self.buckets.insert(index, bucket);
        proof {
            lemma_remove_insert(old(self).buckets@, index as int, b1);
            assert forall|k: usize|
                bucket_get(self.bucket_view(self.spec_hash(k)), k) == bucket_get(
                    old(self).bucket_view(old(self).spec_hash(k)),
                    k,
                ) by {
                if self.spec_hash(k) == index {
                    crate::slots::lemma_append_free_get(s0, extra, k);
                }
            }
            assert(self.as_map() =~= old(self).as_map());
        }
    }

    /// Capacity monotonicity, prime half: at every moment every bucket's
    /// capacity is prime — it is part of well-formedness, which creation
    /// establishes and every operation preserves; and `add_item` further
    /// ensures the capacity never shrinks.
    pub proof fn lemma_capacity_prime(self, i: int)
        requires
            self.wf(),
            0 <= i < self.buckets@.len(),
        ensures
            spec_is_prime(self.buckets@[i].capacity as int),
    {
    }

    /// Number of buckets (fixed at creation).
    pub fn bucket_count(&self) -> (n: usize)
        ensures
            n == self.capacity,
    {
        self.capacity
    }

    /// Current slot-array capacity of bucket `index`.
    pub fn bucket_capacity(&self, index: usize) -> (c: usize)
        requires
            index < self.buckets@.len(),
        ensures
            c == self.buckets@[index as int].capacity,
    {
        self.buckets[index].capacity
    }

    /// Number of live entries in bucket `index`.
    pub fn bucket_live_count(&self, index: usize) -> (n: usize)
        requires
            index < self.buckets@.len(),
        ensures
            n == self.buckets@[index as int].live_count,
    {
        self.buckets[index].live_count
    }
}

/// Insert-then-lookup: once a binding is added to the container's map, a
/// lookup of that key yields exactly the added value, until it is
/// overwritten or removed.
pub proof fn lemma_insert_then_lookup<V>(m: Map<usize, V>, key: usize, value: V)
    ensures
        m.insert(key, value).contains_key(key),
        m.insert(key, value)[key] == value,
{
}

/// Update semantics, map half: inserting one key twice leaves a single
/// binding for it, holding the latest value.
pub proof fn lemma_insert_twice<V>(m: Map<usize, V>, key: usize, v1: V, v2: V)
    ensures
        m.insert(key, v1).insert(key, v2) == m.insert(key, v2),
{
    assert(m.insert(key, v1).insert(key, v2) =~= m.insert(key, v2));
}

/// Remove-then-lookup, map half: a removed key is absent from the map.
pub proof fn lemma_remove_absent<V>(m: Map<usize, V>, key: usize)
    ensures
        !m.remove(key).contains_key(key),
{
}

} // verus!

