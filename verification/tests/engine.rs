use librarian::InsertSession;
use librarian::Librarian;
use librarian::key_is_safe;

#[test]
fn round_trip_cached() {
    let mut lib = Librarian::new(100, 10, 50);
    let v = b"hello world".to_vec();
    let cached = lib.insert(b"greeting".to_vec(), v.clone(), v.len(), 0);
    assert!(cached);
    assert_eq!(lib.get(b"greeting", 5), Some(v));
}

#[test]
fn miss_on_fresh_cache() {
    let lib = Librarian::new(100, 10, 50);
    assert_eq!(lib.get(b"anything", 0), None);
}

#[test]
fn oversized_object_not_cached() {
    let mut lib = Librarian::new(100, 10, 8);
    let v = b"0123456789".to_vec();
    let cached = lib.insert(b"big".to_vec(), v.clone(), v.len(), 0);
    assert!(!cached);
    assert_eq!(lib.get(b"big", 0), None);
    assert_eq!(lib.cached_bytes(), 0);
}

#[test]
fn threshold_is_strict() {
    let mut lib = Librarian::new(100, 10, 8);
    let v = b"01234567".to_vec();
    assert_eq!(v.len(), 8);
    assert!(!lib.insert(b"at-threshold".to_vec(), v.clone(), v.len(), 0));
    let w = b"0123456".to_vec();
    assert!(lib.insert(b"below".to_vec(), w.clone(), w.len(), 0));
}

#[test]
fn understated_length_not_cached() {
    let mut lib = Librarian::new(100, 10, 50);
    let v = b"a longer body than declared".to_vec();
    let cached = lib.insert(b"liar".to_vec(), v, 4, 0);
    assert!(!cached);
    assert_eq!(lib.get(b"liar", 0), None);
}

#[test]
fn ttl_expiry_and_sweep() {
    let mut lib = Librarian::new(100, 10, 50);
    let v = b"short-lived".to_vec();
    assert!(lib.insert(b"k".to_vec(), v.clone(), v.len(), 0));
    assert_eq!(lib.get(b"k", 9), Some(v.clone()));
    assert_eq!(lib.get(b"k", 10), None);
    assert_eq!(lib.get(b"k", 11), None);
    assert_eq!(lib.cached_bytes(), v.len());
    lib.expire(10);
    assert_eq!(lib.cached_bytes(), 0);
    assert_eq!(lib.entry_count(), 0);
}

#[test]
fn sweep_keeps_live_entries() {
    let mut lib = Librarian::new(100, 10, 50);
    let old_one = b"old".to_vec();
    let young = b"young".to_vec();
    assert!(lib.insert(b"a".to_vec(), old_one.clone(), old_one.len(), 0));
    assert!(lib.insert(b"b".to_vec(), young.clone(), young.len(), 7));
    lib.expire(12);
    assert_eq!(lib.get(b"a", 12), None);
    assert_eq!(lib.get(b"b", 12), Some(young.clone()));
    assert_eq!(lib.cached_bytes(), young.len());
}

#[test]
fn eviction_is_oldest_first() {
    let mut lib = Librarian::new(10, 100, 10);
    let four = b"xxxx".to_vec();
    assert!(lib.insert(b"a".to_vec(), four.clone(), 4, 1));
    assert!(lib.insert(b"b".to_vec(), four.clone(), 4, 2));
    assert!(lib.insert(b"c".to_vec(), four.clone(), 4, 3));
    assert_eq!(lib.get(b"a", 4), None);
    assert_eq!(lib.get(b"b", 4), Some(four.clone()));
    assert_eq!(lib.get(b"c", 4), Some(four.clone()));
    assert_eq!(lib.cached_bytes(), 8);
}

#[test]
fn capacity_never_exceeded() {
    let mut lib = Librarian::new(16, 100, 16);
    let mut t: u64 = 0;
    for size in [3usize, 7, 5, 9, 2, 11, 6] {
        let v = vec![0u8; size];
        let mut key = b"k".to_vec();
        key.push(size as u8);
        lib.insert(key, v, size, t);
        assert!(lib.cached_bytes() <= 16);
        t += 1;
    }
}

#[test]
fn blob_larger_than_capacity_refused() {
    let mut lib = Librarian::new(8, 100, 100);
    let small = b"abc".to_vec();
    assert!(lib.insert(b"small".to_vec(), small.clone(), 3, 0));
    let big = vec![1u8; 9];
    assert!(!lib.accept(b"big".to_vec(), big, 1));
    assert_eq!(lib.get(b"small", 1), Some(small));
    assert_eq!(lib.cached_bytes(), 3);
}

#[test]
fn replacement_updates_value_and_accounting() {
    let mut lib = Librarian::new(100, 100, 50);
    let v1 = b"first version".to_vec();
    let v2 = b"second".to_vec();
    assert!(lib.insert(b"k".to_vec(), v1.clone(), v1.len(), 0));
    assert!(lib.insert(b"k".to_vec(), v2.clone(), v2.len(), 1));
    assert_eq!(lib.get(b"k", 1), Some(v2.clone()));
    assert_eq!(lib.cached_bytes(), v2.len());
    assert_eq!(lib.entry_count(), 1);
}

#[test]
fn replacement_refreshes_stamp() {
    let mut lib = Librarian::new(100, 10, 50);
    let v = b"refreshed".to_vec();
    assert!(lib.insert(b"k".to_vec(), v.clone(), v.len(), 0));
    assert!(lib.insert(b"k".to_vec(), v.clone(), v.len(), 8));
    assert_eq!(lib.get(b"k", 15), Some(v.clone()));
    assert_eq!(lib.get(b"k", 18), None);
}

#[test]
fn uncached_reinsert_drops_stale_entry() {
    let mut lib = Librarian::new(100, 10, 8);
    let small = b"tiny".to_vec();
    assert!(lib.insert(b"k".to_vec(), small.clone(), small.len(), 0));
    assert_eq!(lib.get(b"k", 1), Some(small));
    let big = vec![2u8; 20];
    assert!(!lib.insert(b"k".to_vec(), big, 20, 2));
    assert_eq!(lib.get(b"k", 2), None);
    assert_eq!(lib.cached_bytes(), 0);
}

#[test]
fn evict_key_removes_entry() {
    let mut lib = Librarian::new(100, 10, 50);
    let v = b"to be dropped".to_vec();
    assert!(lib.insert(b"k".to_vec(), v.clone(), v.len(), 0));
    lib.evict_key(b"k");
    assert_eq!(lib.get(b"k", 0), None);
    assert_eq!(lib.cached_bytes(), 0);
}

#[test]
fn getters_report_configuration() {
    let lib = Librarian::new(64, 10, 32);
    assert_eq!(lib.capacity(), 64);
    assert_eq!(lib.keep_alive(), 10);
    assert_eq!(lib.max_value_size(), 32);
    assert_eq!(lib.entry_count(), 0);
}

#[test]
fn session_assembles_chunks() {
    let mut s = InsertSession::begin(12, 20);
    assert!(s.is_eligible());
    s.push_chunk(b"abcd");
    s.push_chunk(b"efgh");
    s.push_chunk(b"ijkl");
    assert_eq!(s.finish(), Some(b"abcdefghijkl".to_vec()));
}

#[test]
fn session_overrun_revokes_eligibility() {
    let mut s = InsertSession::begin(10, 20);
    s.push_chunk(b"abcd");
    s.push_chunk(b"efgh");
    s.push_chunk(b"ijkl");
    assert!(!s.is_eligible());
    assert_eq!(s.finish(), None);
}

#[test]
fn session_ineligible_from_start() {
    let mut s = InsertSession::begin(20, 10);
    assert!(!s.is_eligible());
    s.push_chunk(b"abcd");
    assert_eq!(s.finish(), None);
}

#[test]
fn session_exact_fit_is_cached() {
    let mut s = InsertSession::begin(8, 20);
    s.push_chunk(b"abcd");
    s.push_chunk(b"efgh");
    assert_eq!(s.finish(), Some(b"abcdefgh".to_vec()));
}

#[test]
fn session_feeds_librarian() {
    let mut lib = Librarian::new(100, 10, 50);
    let mut s = InsertSession::begin(8, lib.max_value_size());
    s.push_chunk(b"abcd");
    s.push_chunk(b"efgh");
    let cached = match s.finish() {
        Some(body) => lib.accept(b"k".to_vec(), body, 0),
        None => {
            lib.evict_key(b"k");
            false
        },
    };
    assert!(cached);
    assert_eq!(lib.get(b"k", 5), Some(b"abcdefgh".to_vec()));
}

#[test]
fn key_safety() {
    assert!(key_is_safe(b"abc"));
    assert!(key_is_safe(b"a.b"));
    assert!(key_is_safe(b"..."));
    assert!(!key_is_safe(b""));
    assert!(!key_is_safe(b"."));
    assert!(!key_is_safe(b".."));
    assert!(!key_is_safe(b"a/b"));
    assert!(!key_is_safe(b"a\\b"));
    assert!(!key_is_safe(b"a\0b"));
}
