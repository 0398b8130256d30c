//! The abstract model of one bucket's slot array: a sequence of slot views,
//! each either free (never used, or a tombstone) or a live key-value entry.
//! Insertion scans left to right and acts on the first free slot or the
//! first entry with a matching key, whichever comes first; removal frees the
//! first entry with a matching key; growth appends free slots.

use vstd::prelude::*;

verus! {

/// What one slot holds, as the container's logic sees it: a free slot's
/// stale storage is invisible here.
pub enum SlotView<V> {
    /// Free for reuse: never written, or tombstoned by a removal.
    Free,
    /// A live entry.
    Entry { key: usize, value: V },
}

/// The slot is a live entry for `key`.
pub open spec fn slot_matches<V>(s: SlotView<V>, key: usize) -> bool {
    s matches SlotView::Entry { key: k, .. } && k == key
}

/// Index of the first live entry for `key`, or `s.len()` if there is none.
pub open spec fn first_match<V>(s: Seq<SlotView<V>>, key: usize) -> int
    decreases s.len(),
{
    if s.len() == 0 {
        0
    } else if slot_matches(s[0], key) {
        0
    } else {
        1 + first_match(s.drop_first(), key)
    }
}

/// Index of the first free slot, or `s.len()` if every slot is an entry.
pub open spec fn first_free<V>(s: Seq<SlotView<V>>) -> int
    decreases s.len(),
{
    if s.len() == 0 {
        0
    } else if s[0] is Free {
        0
    } else {
        1 + first_free(s.drop_first())
    }
}

/// Number of live entries.
pub open spec fn occ_count<V>(s: Seq<SlotView<V>>) -> int
    decreases s.len(),
{
    if s.len() == 0 {
        0
    } else {
        (if s[0] is Entry {
            1int
        } else {
            0int
        }) + occ_count(s.drop_first())
    }
}

/// `n` free slots, as appended by growth.
pub open spec fn free_slots<V>(n: nat) -> Seq<SlotView<V>> {
    Seq::new(n, |i: int| SlotView::Free)
}

/// Where an insertion scan for `key` stops: the first free slot or the
/// first matching entry, whichever comes first.
pub open spec fn scan_hit<V>(s: Seq<SlotView<V>>, key: usize) -> int {
    if first_match(s, key) < first_free(s) {
        first_match(s, key)
    } else {
        first_free(s)
    }
}

/// The slot array after inserting `value` under `key` (meaningful when
/// `scan_hit(s, key) < s.len()`).
pub open spec fn slots_after_insert<V>(s: Seq<SlotView<V>>, key: usize, value: V) -> Seq<
    SlotView<V>,
> {
    s.update(scan_hit(s, key), SlotView::Entry { key, value })
}

/// The slot array after removing `key` (meaningful when
/// `first_match(s, key) < s.len()`): the first matching entry becomes a
/// tombstone; nothing is compacted.
pub open spec fn slots_after_remove<V>(s: Seq<SlotView<V>>, key: usize) -> Seq<SlotView<V>> {
    s.update(first_match(s, key), SlotView::Free)
}

/// The value a lookup for `key` finds: that of the first matching entry.
pub open spec fn bucket_get<V>(s: Seq<SlotView<V>>, key: usize) -> Option<V> {
    if first_match(s, key) < s.len() {
        Some(s[first_match(s, key)]->value)
    } else {
        None
    }
}

/// `key` has at most one live entry in the array.  Tombstone reuse can
/// break this: an insertion that finds a free slot before the matching
/// entry writes a second entry for the same key.
pub open spec fn at_most_one_match<V>(s: Seq<SlotView<V>>, key: usize) -> bool {
    forall|i: int, j: int|
        0 <= i < s.len() && 0 <= j < s.len() && slot_matches(s[i], key) && slot_matches(
            s[j],
            key,
        ) ==> i == j
}

/// Characterization of `first_match`: it is in `[0, s.len()]`, points at a
/// matching entry when it is in range, and nothing before it matches.
pub proof fn lemma_first_match_props<V>(s: Seq<SlotView<V>>, key: usize)
    ensures
        0 <= first_match(s, key) <= s.len(),
        first_match(s, key) < s.len() ==> slot_matches(s[first_match(s, key)], key),
        forall|j: int| 0 <= j < first_match(s, key) ==> !slot_matches(s[j], key),
    decreases s.len(),
{
    if s.len() == 0 {
    } else if slot_matches(s[0], key) {
    } else {
        lemma_first_match_props(s.drop_first(), key);
        assert forall|j: int| 0 <= j < first_match(s, key) implies !slot_matches(s[j], key) by {
            if j > 0 {
                assert(!slot_matches(s.drop_first()[j - 1], key));
            }
        }
    }
}

/// Characterization of `first_free`: it is in `[0, s.len()]`, points at a
/// free slot when it is in range, and everything before it is an entry.
pub proof fn lemma_first_free_props<V>(s: Seq<SlotView<V>>)
    ensures
        0 <= first_free(s) <= s.len(),
        first_free(s) < s.len() ==> s[first_free(s)] is Free,
        forall|j: int| 0 <= j < first_free(s) ==> s[j] is Entry,
    decreases s.len(),
{
    if s.len() == 0 {
    } else if s[0] is Free {
    } else {
        lemma_first_free_props(s.drop_first());
        assert forall|j: int| 0 <= j < first_free(s) implies s[j] is Entry by {
            if j > 0 {
                assert(s.drop_first()[j - 1] is Entry);
            }
        }
    }
}

/// `first_match` is determined by its characterization.
pub proof fn lemma_first_match_is<V>(s: Seq<SlotView<V>>, key: usize, i: int)
    requires
        0 <= i < s.len(),
        slot_matches(s[i], key),
        forall|j: int| 0 <= j < i ==> !slot_matches(s[j], key),
    ensures
        first_match(s, key) == i,
{
    lemma_first_match_props(s, key);
}

/// A `key` that matches nowhere has `first_match == s.len()`.
pub proof fn lemma_first_match_none<V>(s: Seq<SlotView<V>>, key: usize)
    requires
        forall|j: int| 0 <= j < s.len() ==> !slot_matches(s[j], key),
    ensures
        first_match(s, key) == s.len(),
{
    lemma_first_match_props(s, key);
}

/// `first_free` is determined by its characterization.
pub proof fn lemma_first_free_is<V>(s: Seq<SlotView<V>>, i: int)
    requires
        0 <= i < s.len(),
        s[i] is Free,
        forall|j: int| 0 <= j < i ==> s[j] is Entry,
    ensures
        first_free(s) == i,
{
    lemma_first_free_props(s);
}

/// Two arrays of one length whose match pattern and matching entries for
/// `key` agree give one lookup result.
pub proof fn lemma_first_match_congruence<V>(s: Seq<SlotView<V>>, t: Seq<SlotView<V>>, key: usize)
    requires
        s.len() == t.len(),
        forall|j: int| 0 <= j < s.len() ==> (slot_matches(s[j], key) <==> slot_matches(t[j], key)),
        forall|j: int| 0 <= j < s.len() && slot_matches(s[j], key) ==> s[j] == t[j],
    ensures
        first_match(s, key) == first_match(t, key),
        bucket_get(s, key) == bucket_get(t, key),
{
    lemma_first_match_props(s, key);
    if first_match(s, key) < s.len() {
        lemma_first_match_is(t, key, first_match(s, key));
    } else {
        lemma_first_match_none(t, key);
    }
}

/// Insertion makes the first live entry for `key` hold `value`: the slot it
/// writes comes before every other candidate, so a lookup finds it.
pub proof fn lemma_insert_get_same<V>(s: Seq<SlotView<V>>, key: usize, value: V)
    requires
        scan_hit(s, key) < s.len(),
    ensures
        bucket_get(slots_after_insert(s, key, value), key) == Some(value),
{
    lemma_first_match_props(s, key);
    lemma_first_free_props(s);
    let h = scan_hit(s, key);
    let s2 = slots_after_insert(s, key, value);
    assert forall|j: int| 0 <= j < h implies !slot_matches(s2[j], key) by {
        assert(s2[j] == s[j]);
    }
    lemma_first_match_is(s2, key, h);
}

/// Insertion under one key does not change what a lookup under another
/// finds: the written slot was free or already matched the inserted key.
pub proof fn lemma_insert_get_other<V>(s: Seq<SlotView<V>>, key: usize, value: V, other: usize)
    requires
        scan_hit(s, key) < s.len(),
        other != key,
    ensures
        bucket_get(slots_after_insert(s, key, value), other) == bucket_get(s, other),
{
    lemma_first_match_props(s, key);
    lemma_first_free_props(s);
    let h = scan_hit(s, key);
    let s2 = slots_after_insert(s, key, value);
    assert(!slot_matches(s[h], other));
    lemma_first_match_congruence(s, s2, other);
}

/// Appending free slots (growth) changes no lookup, and leaves the first
/// match where it was when there is one.
pub proof fn lemma_append_free_get<V>(s: Seq<SlotView<V>>, n: nat, key: usize)
    ensures
        first_match(s + free_slots(n), key) == (if first_match(s, key) < s.len() {
            first_match(s, key)
        } else {
            s.len() + n as int
        }),
        bucket_get(s + free_slots(n), key) == bucket_get(s, key),
{
    let t = s + free_slots::<V>(n);
    lemma_first_match_props(s, key);
    lemma_free_slots_empty::<V>(n);
    if first_match(s, key) < s.len() {
        lemma_first_match_is(t, key, first_match(s, key));
    } else {
        assert forall|j: int| 0 <= j < t.len() implies !slot_matches(t[j], key) by {
            if j < s.len() {
                assert(t[j] == s[j]);
            } else {
                assert(!(free_slots::<V>(n)[j - s.len()] is Entry));
            }
        }
        lemma_first_match_none(t, key);
    }
}

/// An array of free slots only holds no entries.
pub proof fn lemma_occ_count_none<V>(s: Seq<SlotView<V>>)
    requires
        forall|j: int| 0 <= j < s.len() ==> !(s[j] is Entry),
    ensures
        occ_count(s) == 0,
    decreases s.len(),
{
    if s.len() > 0 {
        assert forall|j: int| 0 <= j < s.drop_first().len() implies !(s.drop_first()[j]
            is Entry) by {
            assert(!(s[j + 1] is Entry));
        }
        lemma_occ_count_none(s.drop_first());
    }
}

/// `occ_count` stays within `[0, s.len()]`, and an array of entries only is
/// full.
pub proof fn lemma_occ_count_props<V>(s: Seq<SlotView<V>>)
    ensures
        0 <= occ_count(s) <= s.len(),
        (forall|j: int| 0 <= j < s.len() ==> s[j] is Entry) ==> occ_count(s) == s.len(),
    decreases s.len(),
{
    if s.len() > 0 {
        lemma_occ_count_props(s.drop_first());
        if forall|j: int| 0 <= j < s.len() ==> s[j] is Entry {
            assert forall|j: int| 0 <= j < s.drop_first().len() implies s.drop_first()[j]
                is Entry by {
                assert(s[j + 1] is Entry);
            }
        }
    }
}

/// Updating one slot changes `occ_count` by the difference of what leaves
/// and what arrives.
pub proof fn lemma_occ_count_update<V>(s: Seq<SlotView<V>>, i: int, v: SlotView<V>)
    requires
        0 <= i < s.len(),
    ensures
        occ_count(s.update(i, v)) == occ_count(s) + (if v is Entry {
            1int
        } else {
            0int
        }) - (if s[i] is Entry {
            1int
        } else {
            0int
        }),
    decreases s.len(),
{
    if i == 0 {
        assert(s.update(0, v).drop_first() =~= s.drop_first());
    } else {
        assert(s.update(i, v).drop_first() =~= s.drop_first().update(i - 1, v));
        lemma_occ_count_update(s.drop_first(), i - 1, v);
    }
}

/// `occ_count` adds over concatenation.
pub proof fn lemma_occ_count_add<V>(s: Seq<SlotView<V>>, t: Seq<SlotView<V>>)
    ensures
        occ_count(s + t) == occ_count(s) + occ_count(t),
    decreases s.len(),
{
    if s.len() == 0 {
        assert(s + t =~= t);
    } else {
        assert((s + t).drop_first() =~= s.drop_first() + t);
        lemma_occ_count_add(s.drop_first(), t);
    }
}

/// Update semantics: when the matching entry for `key` comes before every
/// free slot, inserting under `key` overwrites that entry in place — the
/// number of live entries does not change, a lookup finds the new value,
/// and a unique key stays unique.  (When a free slot comes first — a
/// tombstone left in front of the entry — the insertion writes a second
/// entry for the key instead, and the entry count grows.)
pub proof fn lemma_update_in_place<V>(s: Seq<SlotView<V>>, key: usize, value: V)
    requires
        first_match(s, key) < first_free(s),
    ensures
        occ_count(slots_after_insert(s, key, value)) == occ_count(s),
        bucket_get(slots_after_insert(s, key, value), key) == Some(value),
        at_most_one_match(s, key) ==> at_most_one_match(slots_after_insert(s, key, value), key),
{
    lemma_first_match_props(s, key);
    lemma_first_free_props(s);
    let m = first_match(s, key);
    let s2 = slots_after_insert(s, key, value);
    lemma_insert_get_same(s, key, value);
    lemma_occ_count_update(s, m, SlotView::Entry { key, value });
    if at_most_one_match(s, key) {
        assert forall|i: int, j: int|
            0 <= i < s2.len() && 0 <= j < s2.len() && slot_matches(s2[i], key) && slot_matches(
                s2[j],
                key,
            ) implies i == j by {
            assert(slot_matches(s[i], key) && slot_matches(s[j], key));
        }
    }
}

/// Remove-then-lookup: once the only live entry for `key` is tombstoned, a
/// lookup reports the key absent.  (With a duplicated key — see
/// `at_most_one_match` — removal frees only the first entry and a lookup
/// would still find the later one.)
pub proof fn lemma_remove_then_lookup<V>(s: Seq<SlotView<V>>, key: usize)
    requires
        first_match(s, key) < s.len(),
        at_most_one_match(s, key),
    ensures
        bucket_get(slots_after_remove(s, key), key) is None,
{
    let m = first_match(s, key);
    let s2 = slots_after_remove(s, key);
    lemma_first_match_props(s, key);
    assert forall|j: int| 0 <= j < s2.len() implies !slot_matches(s2[j], key) by {
        if j != m && slot_matches(s2[j], key) {
            assert(slot_matches(s[j], key) && slot_matches(s[m], key));
        }
    }
    lemma_first_match_none(s2, key);
}

/// Tombstoning the first entry for one key changes no lookup under another.
pub proof fn lemma_remove_get_other<V>(s: Seq<SlotView<V>>, key: usize, other: usize)
    requires
        first_match(s, key) < s.len(),
        other != key,
    ensures
        bucket_get(slots_after_remove(s, key), other) == bucket_get(s, other),
{
    lemma_first_match_props(s, key);
    let s2 = slots_after_remove(s, key);
    lemma_first_match_congruence(s, s2, other);
}

/// Appended free slots hold no entries.
pub proof fn lemma_free_slots_empty<V>(n: nat)
    ensures
        occ_count(free_slots::<V>(n)) == 0,
        forall|j: int| 0 <= j < n ==> !(#[trigger] free_slots::<V>(n)[j] is Entry),
    decreases n,
{
    if n > 0 {
        lemma_free_slots_empty::<V>((n - 1) as nat);
        assert(free_slots::<V>(n).drop_first() =~= free_slots::<V>((n - 1) as nat));
    }
}

} // verus!
