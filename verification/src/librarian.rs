//! The cache engine: a size- and time-bounded key→blob map with capacity
//! accounting, oldest-first eviction, and full-scan expiry. Keys are plain
//! byte strings (a relative path segment chosen by the caller), blobs are
//! byte vectors, and time is a millisecond counter the caller supplies, so
//! that every decision the engine takes is a function of its arguments.

use vstd::prelude::*;

use crate::bytes_util::{bytes_eq, copy_bytes};
use crate::model::{
    evict_for, has_key, keys_unique, lemma_admit_capacity, lemma_find_at, lemma_find_props,
    lemma_live_only_size, lemma_live_only_unique, lemma_remove_key_absent, lemma_remove_key_at,
    lemma_remove_key_gone, lemma_remove_key_size, lemma_total_size_drop_first,
    lemma_total_size_nonneg, lemma_total_size_push, lemma_total_size_remove,
    lemma_total_size_split, live, live_only, remove_key, session_begin, session_push, spec_admit,
    spec_get, spec_insert, total_size, CacheModel, EntryModel,
};

verus! {

/// One memory-cache entry: the key, the blob, and the time it was inserted
/// or last refreshed. Timestamps are refreshed on write only.
struct Entry {
    key: Vec<u8>,
    blob: Vec<u8>,
    stamp: u64,
}

impl View for Entry {
    type V = EntryModel;

    closed spec fn view(&self) -> EntryModel {
        EntryModel { key: self.key@, blob: self.blob@, stamp: self.stamp as int }
    }
}

/// The view of an optional byte vector, for contracts over lookups.
pub open spec fn opt_bytes_view(r: Option<Vec<u8>>) -> Option<Seq<u8>> {
    match r {
        Some(v) => Some(v@),
        None => None,
    }
}

/// The cache engine. `entries` is ordered from oldest (front) to newest
/// (back); `length` tracks the aggregate blob bytes held.
pub struct Librarian {
    capacity: usize,
    length: usize,
    max_value_size: usize,
    keep_alive: u64,
    entries: Vec<Entry>,
}

impl View for Librarian {
    type V = CacheModel;

    closed spec fn view(&self) -> CacheModel {
        CacheModel {
            capacity: self.capacity as int,
            max_value_size: self.max_value_size as int,
            keep_alive: self.keep_alive as int,
            entries: self.entries@.map_values(|e: Entry| e@),
        }
    }
}

proof fn lemma_view_remove(x: Seq<Entry>, i: int)
    requires
        0 <= i < x.len(),
    ensures
        x.remove(i).map_values(|e: Entry| e@) == x.map_values(|e: Entry| e@).remove(i),
{
    x.remove_ensures(i);
    x.map_values(|e: Entry| e@).remove_ensures(i);
    assert(x.remove(i).map_values(|e: Entry| e@) =~= x.map_values(|e: Entry| e@).remove(i));
}

proof fn lemma_view_push(x: Seq<Entry>, e: Entry)
    ensures
        x.push(e).map_values(|ent: Entry| ent@) == x.map_values(|ent: Entry| ent@).push(e@),
{
    assert(x.push(e).map_values(|ent: Entry| ent@) =~= x.map_values(|ent: Entry| ent@).push(e@));
}

impl Librarian {
    /// The engine's internal invariant: the byte counter equals the aggregate
    /// of the entries, the aggregate stays under the capacity, and no key is
    /// held twice.
    pub closed spec fn inv(&self) -> bool {
        &&& self.length as int == total_size(self@.entries)
        &&& total_size(self@.entries) <= self.capacity as int
        &&& keys_unique(self@.entries)
    }

    /// A fresh engine: no entries, the given capacity ceiling, keep-alive
    /// duration (in the caller's time unit) and per-object size threshold.
    pub fn new(capacity: usize, keep_alive: u64, max_value_size: usize) -> (r: Self)
        ensures
            r.inv(),
            r@.capacity == capacity as int,
            r@.keep_alive == keep_alive as int,
            r@.max_value_size == max_value_size as int,
            r@.entries == Seq::<EntryModel>::empty(),
    {
        let r = Librarian { capacity, length: 0, max_value_size, keep_alive, entries: Vec::new() };
        proof {
            assert(r@.entries =~= Seq::<EntryModel>::empty());
        }
        r
    }

    /// The index of the entry holding `key`, if one does.
    fn find_index(&self, key: &[u8]) -> (r: Option<usize>)
        ensures
            match r {
                Some(i) => i < self@.entries.len() && self@.entries[i as int].key == key@,
                None => !has_key(self@.entries, key@),
            },
    {
        let mut i: usize = 0;
        while i < self.entries.len()
            invariant
                i <= self.entries.len(),
                forall|j: int| 0 <= j < i ==> self@.entries[j].key != key@,
            decreases self.entries.len() - i,
        {
            if bytes_eq(self.entries[i].key.as_slice(), key) {
                return Some(i);
            }
            i += 1;
        }
        None
    }

    /// Look the key up in the memory cache: the blob comes back exactly when
    /// an entry is present and not yet expired at `now`. A miss says nothing
    /// about the disk copy, which the caller holds.
    pub fn get(&self, key: &[u8], now: u64) -> (r: Option<Vec<u8>>)
        requires
            self.inv(),
        ensures
            opt_bytes_view(r) == spec_get(self@, key@, now as int),
    {
        match self.find_index(key) {
            Some(i) => {
                proof {
                    lemma_find_at(self@.entries, key@, i as int);
                }
                let e = &self.entries[i];
                if e.stamp <= now && now - e.stamp >= self.keep_alive {
                    None
                } else {
                    Some(copy_bytes(e.blob.as_slice()))
                }
            },
            None => {
                proof {
                    lemma_find_props(self@.entries, key@);
                }
                None
            },
        }
    }

    /// Drop the entry holding `key`, if any. Used on its own when a new disk
    /// version of an object could not be cached: the stale cached value must
    /// not stay readable.
    pub fn evict_key(&mut self, key: &[u8])
        requires
            old(self).inv(),
        ensures
            final(self).inv(),
            final(self)@.entries == remove_key(old(self)@.entries, key@),
            final(self)@.capacity == old(self)@.capacity,
            final(self)@.max_value_size == old(self)@.max_value_size,
            final(self)@.keep_alive == old(self)@.keep_alive,
            total_size(final(self)@.entries) <= final(self)@.capacity,
    {
        let ghost s = self@.entries;
        match self.find_index(key) {
            Some(i) => {
                proof {
                    lemma_remove_key_at(s, key@, i as int);
                    lemma_total_size_remove(s, i as int);
                    lemma_total_size_nonneg(s.remove(i as int));
                    lemma_view_remove(self.entries@, i as int);
                    s.remove_ensures(i as int);
                    assert forall|a: int, b: int|
                        0 <= a < b < s.remove(i as int).len() implies s.remove(i as int)[a].key
                        != s.remove(i as int)[b].key by {
                        if b < i as int {
                        } else if a < i as int {
                            assert(s.remove(i as int)[b] == s[b + 1]);
                        } else {
                            assert(s.remove(i as int)[a] == s[a + 1]);
                            assert(s.remove(i as int)[b] == s[b + 1]);
                        }
                    }
                }
                let sz = self.entries[i].blob.len();
                self.entries.remove(i);
                self.length = self.length - sz;
            },
            None => {
                proof {
                    lemma_find_props(s, key@);
                    lemma_remove_key_absent(s, key@);
                }
            },
        }
    }

    /// Hand a blob to the capacity accountant. Any stale entry under the same
    /// key is dropped first; a blob larger than the whole capacity is refused
    /// rather than emptying the cache; otherwise the oldest entries are
    /// evicted until the blob fits, and it is stored with stamp `now`.
    /// Returns whether the blob is now memory-cached.
    pub fn accept(&mut self, key: Vec<u8>, blob: Vec<u8>, now: u64) -> (cached: bool)
        requires
            old(self).inv(),
        ensures
            final(self).inv(),
            final(self)@ == spec_admit(old(self)@, key@, blob@, now as int).0,
            cached == spec_admit(old(self)@, key@, blob@, now as int).1,
            total_size(final(self)@.entries) <= final(self)@.capacity,
    {
        let ghost m0 = self@;
        let ghost gk = key@;
        let ghost gv = blob@;
        self.evict_key(key.as_slice());
        let ghost cleared = self@.entries;
        proof {
            lemma_remove_key_size(m0.entries, gk);
            lemma_remove_key_gone(m0.entries, gk);
            lemma_admit_capacity(m0, gk, gv, now as int);
        }
        if blob.len() > self.capacity {
            return false;
        }
        let need = blob.len();
        let ghost cap = self@.capacity;
        while self.entries.len() > 0 && need > self.capacity - self.length
            invariant
                self.inv(),
                need == gv.len(),
                self@.capacity == cap,
                self@.max_value_size == m0.max_value_size,
                self@.keep_alive == m0.keep_alive,
                need <= cap,
                self.capacity as int == cap,
                evict_for(cleared, need as int, cap) == evict_for(
                    self@.entries,
                    need as int,
                    cap,
                ),
                !has_key(self@.entries, gk),
            decreases self.entries.len(),
        {
            let ghost cur = self@.entries;
            proof {
                lemma_total_size_drop_first(cur);
                lemma_total_size_nonneg(cur.drop_first());
                assert(cur[0] == self.entries@[0]@);
                lemma_view_remove(self.entries@, 0);
                assert(cur.remove(0) =~= cur.drop_first());
                cur.remove_ensures(0);
                assert forall|a: int, b: int|
                    0 <= a < b < cur.drop_first().len() implies cur.drop_first()[a].key
                    != cur.drop_first()[b].key by {
                    assert(cur.drop_first()[a] == cur[a + 1]);
                    assert(cur.drop_first()[b] == cur[b + 1]);
                }
                if has_key(cur.drop_first(), gk) {
                    let j = choose|j: int|
                        0 <= j < cur.drop_first().len() && cur.drop_first()[j].key == gk;
                    assert(cur[j + 1].key == gk);
                }
            }
            let sz = self.entries[0].blob.len();
            self.entries.remove(0);
            self.length = self.length - sz;
        }
        proof {
            let kept = evict_for(cleared, need as int, cap);
            if self.entries.len() == 0 {
                assert(self@.entries =~= Seq::<EntryModel>::empty());
                assert(kept == self@.entries);
            } else {
                assert(total_size(self@.entries) + need <= cap);
                assert(kept == self@.entries);
            }
        }
        let ghost kept = self@.entries;
        let sz = blob.len();
        let e = Entry { key, blob, stamp: now };
        proof {
            lemma_view_push(self.entries@, e);
            lemma_total_size_push(kept, e@);
            assert forall|a: int, b: int|
                0 <= a < b < kept.push(e@).len() implies kept.push(e@)[a].key != kept.push(
                e@,
            )[b].key by {
                if b < kept.len() {
                } else {
                    assert(kept.push(e@)[b] == e@);
                    if kept[a].key == gk {
                        assert(has_key(kept, gk));
                    }
                }
            }
        }
        self.entries.push(e);
        self.length = self.length + sz;
        proof {
            assert(self@ =~= spec_admit(m0, gk, gv, now as int).0);
        }
        true
    }

    /// A whole insert, the body already assembled: the object is admitted to
    /// the memory cache exactly when its declared length makes it a cache
    /// candidate and the body did not overrun that declared length. Either
    /// way any stale entry under the key is dropped. Returns whether the
    /// object is now memory-cached; the caller persists the body to disk in
    /// every case.
    pub fn insert(&mut self, key: Vec<u8>, body: Vec<u8>, content_length: usize, now: u64) -> (cached:
        bool)
        requires
            old(self).inv(),
        ensures
            final(self).inv(),
            final(self)@ == spec_insert(old(self)@, key@, body@, content_length as int, now as int).0,
            cached == spec_insert(old(self)@, key@, body@, content_length as int, now as int).1,
            total_size(final(self)@.entries) <= final(self)@.capacity,
    {
        let ghost m0 = self@;
        let can_cache = content_length < self.max_value_size && body.len() <= content_length;
        proof {
            let sm = session_push(
                session_begin(content_length as int, m0.max_value_size),
                body@,
            );
            assert(sm.eligible == can_cache);
        }
        if can_cache {
            self.accept(key, body, now)
        } else {
            self.evict_key(key.as_slice());
            proof {
                lemma_remove_key_size(m0.entries, key@);
            }
            false
        }
    }

    /// The full-scan expiry sweep: every entry whose age at `now` has reached
    /// the keep-alive bound is removed, and the byte counter follows.
    pub fn expire(&mut self, now: u64)
        requires
            old(self).inv(),
        ensures
            final(self).inv(),
            final(self)@.entries == live_only(old(self)@.entries, old(self)@.keep_alive, now as int),
            final(self)@.capacity == old(self)@.capacity,
            final(self)@.max_value_size == old(self)@.max_value_size,
            final(self)@.keep_alive == old(self)@.keep_alive,
            total_size(final(self)@.entries) <= final(self)@.capacity,
    {
        let ghost s = self@.entries;
        let ghost ka = self@.keep_alive;
        let ghost gnow = now as int;
        let mut kept: Vec<Entry> = Vec::new();
        let mut kept_len: usize = 0;
        let mut i: usize = 0;
        proof {
            assert(kept@.map_values(|e: Entry| e@) =~= live_only(
                s.subrange(0, 0),
                ka,
                gnow,
            ));
        }
        while i < self.entries.len()
            invariant
                i <= self.entries.len(),
                self.inv(),
                s == self@.entries,
                ka == self@.keep_alive,
                gnow == now as int,
                kept@.map_values(|e: Entry| e@) == live_only(s.subrange(0, i as int), ka, gnow),
                kept_len as int == total_size(live_only(s.subrange(0, i as int), ka, gnow)),
            decreases self.entries.len() - i,
        {
            let ghost pre = s.subrange(0, i as int);
            let ghost pre1 = s.subrange(0, i as int + 1);
            proof {
                assert(pre1.drop_last() =~= pre);
                assert(pre1.last() == s[i as int]);
            }
            let e = &self.entries[i];
            proof {
                assert(s[i as int] == self.entries@[i as int]@);
            }
            let expired = e.stamp <= now && now - e.stamp >= self.keep_alive;
            proof {
                assert(e@ == s[i as int]);
                assert(e.stamp as int == s[i as int].stamp);
                assert(ka == self.keep_alive as int);
                assert(live(s[i as int], ka, gnow) == !expired);
            }
            if !expired {
                proof {
                    lemma_live_only_size(pre1, ka, gnow);
                    lemma_total_size_split(s, i as int + 1);
                    lemma_total_size_nonneg(s.subrange(i as int + 1, s.len() as int));
                    lemma_total_size_push(live_only(pre, ka, gnow), s[i as int]);
                    assert(live_only(pre1, ka, gnow) == live_only(pre, ka, gnow).push(
                        s[i as int],
                    ));
                    assert(total_size(pre1) <= total_size(s));
                    assert(total_size(s) <= self.capacity as int);
                    assert(kept_len as int + s[i as int].blob.len() == total_size(
                        live_only(pre1, ka, gnow),
                    ));
                }
                let ne = Entry {
                    key: copy_bytes(e.key.as_slice()),
                    blob: copy_bytes(e.blob.as_slice()),
                    stamp: e.stamp,
                };
                proof {
                    lemma_view_push(kept@, ne);
                }
                kept_len = kept_len + e.blob.len();
                kept.push(ne);
            }
            i += 1;
        }
        proof {
            assert(s.subrange(0, s.len() as int) =~= s);
            lemma_live_only_unique(s, ka, gnow);
            lemma_live_only_size(s, ka, gnow);
        }
        self.entries = kept;
        self.length = kept_len;
    }

    /// The aggregate bytes currently held in the memory cache.
    pub fn cached_bytes(&self) -> (n: usize)
        requires
            self.inv(),
        ensures
            n as int == total_size(self@.entries),
            n as int <= self@.capacity,
    {
        self.length
    }

    /// The configured capacity ceiling.
    pub fn capacity(&self) -> (n: usize)
        ensures
            n as int == self@.capacity,
    {
        self.capacity
    }

    /// The configured per-object cache-eligibility threshold.
    pub fn max_value_size(&self) -> (n: usize)
        ensures
            n as int == self@.max_value_size,
    {
        self.max_value_size
    }

    /// The configured keep-alive duration, in the caller's time unit.
    pub fn keep_alive(&self) -> (n: u64)
        ensures
            n as int == self@.keep_alive,
    {
        self.keep_alive
    }

    /// How many entries the memory cache holds.
    pub fn entry_count(&self) -> (n: usize)
        ensures
            n as int == self@.entries.len(),
    {
        self.entries.len()
    }
}

} // verus!
