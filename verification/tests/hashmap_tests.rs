use flat_hashmap::Hashmap;

#[test]
fn a_new_container_is_empty() {
    let h: Hashmap<u64> = Hashmap::new_hashmap();
    assert_eq!(h.bucket_count(), 3);
    for i in 0..3 {
        assert_eq!(h.bucket_capacity(i), 3);
        assert_eq!(h.bucket_live_count(i), 0);
    }
    assert_eq!(h.peek_item(0), None);
    assert_eq!(h.peek_item(7), None);
}

#[test]
fn insert_then_lookup_returns_the_value() {
    let mut h: Hashmap<u64> = Hashmap::new_hashmap();
    assert!(h.add_item(0, 100));
    assert!(h.add_item(1, 101));
    assert!(h.add_item(2, 102));
    assert!(h.add_item(5, 105));
    assert_eq!(h.peek_item(0), Some(&100));
    assert_eq!(h.peek_item(1), Some(&101));
    assert_eq!(h.peek_item(2), Some(&102));
    assert_eq!(h.peek_item(5), Some(&105));
    assert_eq!(h.peek_item(3), None);
}

#[test]
fn inserting_a_key_twice_updates_in_place() {
    let mut h: Hashmap<&str> = Hashmap::new_hashmap();
    assert!(h.add_item(4, "first"));
    assert!(h.add_item(4, "second"));
    assert_eq!(h.peek_item(4), Some(&"second"));
    // one entry for the key: the live count did not grow
    assert_eq!(h.bucket_live_count(1), 1);
}

#[test]
fn remove_then_lookup_reports_not_found() {
    let mut h: Hashmap<u64> = Hashmap::new_hashmap();
    assert!(h.add_item(6, 60));
    assert!(h.remove_item(6));
    assert_eq!(h.peek_item(6), None);
    assert_eq!(h.bucket_live_count(0), 0);
}

#[test]
fn removing_a_missing_key_changes_nothing() {
    let mut h: Hashmap<u64> = Hashmap::new_hashmap();
    assert!(h.add_item(0, 10));
    assert!(h.add_item(1, 11));
    assert!(!h.remove_item(42));
    assert_eq!(h.bucket_live_count(0), 1);
    assert_eq!(h.bucket_live_count(1), 1);
    assert_eq!(h.bucket_live_count(2), 0);
    assert_eq!(h.peek_item(0), Some(&10));
    assert_eq!(h.peek_item(1), Some(&11));
}

#[test]
fn removing_a_key_twice_fails_the_second_time() {
    let mut h: Hashmap<u64> = Hashmap::new_hashmap();
    assert!(h.add_item(9, 90));
    assert!(h.remove_item(9));
    assert!(!h.remove_item(9));
    assert_eq!(h.bucket_live_count(0), 0);
}

#[test]
fn overfilling_one_bucket_grows_it_once() {
    // keys 0, 3, 6, 9 all hash to bucket 0
    let mut h: Hashmap<String> = Hashmap::new_hashmap();
    assert!(h.add_item(0, "zero".to_string()));
    assert!(h.add_item(3, "three".to_string()));
    assert!(h.add_item(6, "six".to_string()));
    assert_eq!(h.bucket_capacity(0), 3);
    assert_eq!(h.bucket_live_count(0), 3);
    // the fourth key triggers exactly one growth, to next_prime(6) = 7
    assert!(h.add_item(9, "nine".to_string()));
    assert_eq!(h.bucket_capacity(0), 7);
    assert_eq!(h.bucket_live_count(0), 4);
    // the other buckets are untouched
    assert_eq!(h.bucket_capacity(1), 3);
    assert_eq!(h.bucket_capacity(2), 3);
    // everything inserted before the growth is still there
    assert_eq!(h.peek_item(0), Some(&"zero".to_string()));
    assert_eq!(h.peek_item(3), Some(&"three".to_string()));
    assert_eq!(h.peek_item(6), Some(&"six".to_string()));
    assert_eq!(h.peek_item(9), Some(&"nine".to_string()));
}

#[test]
fn repeated_growth_keeps_every_entry() {
    // 40 distinct keys in bucket 0: capacity climbs 3, 7, 17, 37, 79
    let mut h: Hashmap<usize> = Hashmap::new_hashmap();
    for n in 0..40 {
        assert!(h.add_item(3 * n, 1000 + n));
    }
    assert_eq!(h.bucket_capacity(0), 79);
    assert_eq!(h.bucket_live_count(0), 40);
    for n in 0..40 {
        assert_eq!(h.peek_item(3 * n), Some(&(1000 + n)));
    }
}

#[test]
fn updating_a_key_in_a_full_bucket_grows_it_first() {
    // a full bucket grows before the scan runs, even when the insertion
    // then only overwrites an existing entry
    let mut h: Hashmap<u64> = Hashmap::new_hashmap();
    assert!(h.add_item(0, 1));
    assert!(h.add_item(3, 2));
    assert!(h.add_item(6, 3));
    assert!(h.add_item(0, 4));
    assert_eq!(h.bucket_capacity(0), 7);
    assert_eq!(h.bucket_live_count(0), 3);
    assert_eq!(h.peek_item(0), Some(&4));
}

#[test]
fn a_tombstone_is_reused_without_growth() {
    let mut h: Hashmap<u64> = Hashmap::new_hashmap();
    assert!(h.add_item(0, 10));
    assert!(h.add_item(3, 13));
    assert!(h.add_item(6, 16));
    assert!(h.remove_item(3));
    // the freed slot takes the next insertion; no growth is needed
    assert!(h.add_item(9, 19));
    assert_eq!(h.bucket_capacity(0), 3);
    assert_eq!(h.bucket_live_count(0), 3);
    assert_eq!(h.peek_item(0), Some(&10));
    assert_eq!(h.peek_item(9), Some(&19));
    assert_eq!(h.peek_item(3), None);
}

#[test]
fn a_tombstone_before_an_entry_duplicates_its_key() {
    // the insertion scan takes the first free slot even when the key
    // already has an entry further right, so that key is now stored twice:
    // lookups see the newer entry, but one removal uncovers the older one
    let mut h: Hashmap<u64> = Hashmap::new_hashmap();
    assert!(h.add_item(3, 30));
    assert!(h.add_item(6, 60));
    assert!(h.remove_item(3));
    assert!(h.add_item(6, 61));
    assert_eq!(h.bucket_live_count(0), 2);
    assert_eq!(h.peek_item(6), Some(&61));
    assert!(h.remove_item(6));
    assert_eq!(h.peek_item(6), Some(&60));
}

#[test]
fn only_the_low_32_bits_of_a_key_place_it() {
    // distinct keys that agree on their low 32 bits share a bucket
    let wide: usize = 1usize << 32;
    let mut h: Hashmap<u64> = Hashmap::new_hashmap();
    assert!(h.add_item(0, 7));
    assert!(h.add_item(wide, 8));
    assert_eq!(h.bucket_live_count(0), 2);
    assert_eq!(h.peek_item(0), Some(&7));
    assert_eq!(h.peek_item(wide), Some(&8));
}
