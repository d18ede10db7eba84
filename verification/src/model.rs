//! Mathematical model of the cache: ghost state, the specification-level
//! operations, and the lemmas about them that the executable code and the
//! stated laws rely on.

use vstd::prelude::*;

verus! {

/// One cache entry: its key, its bytes, and the moment it was inserted or
/// last refreshed. Timestamps are refreshed on write only, never on read.
#[verifier::ext_equal]
pub ghost struct EntryModel {
    pub key: Seq<u8>,
    pub blob: Seq<u8>,
    pub stamp: int,
}

/// The whole cache: its configuration and its entries, ordered from oldest
/// (front) to newest (back).
#[verifier::ext_equal]
pub ghost struct CacheModel {
    /// Ceiling on the aggregate bytes the cache may hold at once.
    pub capacity: int,
    /// Per-object threshold for memory-cache eligibility.
    pub max_value_size: int,
    /// How long an entry stays live after its stamp.
    pub keep_alive: int,
    pub entries: Seq<EntryModel>,
}

/// Aggregate number of blob bytes held by the entries.
pub open spec fn total_size(s: Seq<EntryModel>) -> int
    decreases s.len(),
{
    if s.len() == 0 {
        0
    } else {
        total_size(s.drop_last()) + s.last().blob.len()
    }
}

/// No two entries share a key.
pub open spec fn keys_unique(s: Seq<EntryModel>) -> bool {
    forall|i: int, j: int| 0 <= i < j < s.len() ==> s[i].key != s[j].key
}

/// Whether some entry holds key `k`.
pub open spec fn has_key(s: Seq<EntryModel>, k: Seq<u8>) -> bool {
    exists|i: int| 0 <= i < s.len() && s[i].key == k
}

/// An entry is live at `now` when its age is still below the keep-alive bound.
pub open spec fn live(e: EntryModel, keep_alive: int, now: int) -> bool {
    now < e.stamp + keep_alive
}

/// The entry holding key `k`, if any; among duplicates the newest wins
/// (under `keys_unique` there is at most one).
pub open spec fn find(s: Seq<EntryModel>, k: Seq<u8>) -> Option<EntryModel>
    decreases s.len(),
{
    if s.len() == 0 {
        None
    } else if s.last().key == k {
        Some(s.last())
    } else {
        find(s.drop_last(), k)
    }
}

/// The entries with key `k` removed, order preserved.
pub open spec fn remove_key(s: Seq<EntryModel>, k: Seq<u8>) -> Seq<EntryModel>
    decreases s.len(),
{
    if s.len() == 0 {
        Seq::empty()
    } else if s.last().key == k {
        remove_key(s.drop_last(), k)
    } else {
        remove_key(s.drop_last(), k).push(s.last())
    }
}

/// The live entries only, order preserved: the full-scan expiry sweep.
pub open spec fn live_only(s: Seq<EntryModel>, keep_alive: int, now: int) -> Seq<EntryModel>
    decreases s.len(),
{
    if s.len() == 0 {
        Seq::empty()
    } else {
        let rest = live_only(s.drop_last(), keep_alive, now);
        if live(s.last(), keep_alive, now) {
            rest.push(s.last())
        } else {
            rest
        }
    }
}

/// The entries left after evicting from the front (oldest first) until
/// `need` more bytes fit under `cap`, or nothing is left.
pub open spec fn evict_for(s: Seq<EntryModel>, need: int, cap: int) -> Seq<EntryModel>
    decreases s.len(),
{
    if s.len() == 0 || total_size(s) + need <= cap {
        s
    } else {
        evict_for(s.drop_first(), need, cap)
    }
}

/// What a cache lookup returns: the blob under `k` when an entry is present
/// and not expired; nothing otherwise.
pub open spec fn spec_get(m: CacheModel, k: Seq<u8>, now: int) -> Option<Seq<u8>> {
    match find(m.entries, k) {
        Some(e) => if live(e, m.keep_alive, now) {
            Some(e.blob)
        } else {
            None
        },
        None => None,
    }
}

/// What admission does: any stale entry under the same key is dropped first;
/// a blob larger than the whole capacity is refused rather than emptying the
/// cache; otherwise the oldest entries are evicted until the blob fits, and
/// it is appended with stamp `now`. Returns the new model and whether the
/// blob was admitted.
pub open spec fn spec_admit(m: CacheModel, k: Seq<u8>, v: Seq<u8>, now: int) -> (CacheModel, bool) {
    let cleared = remove_key(m.entries, k);
    if v.len() > m.capacity {
        (CacheModel { entries: cleared, ..m }, false)
    } else {
        let kept = evict_for(cleared, v.len() as int, m.capacity);
        (
            CacheModel {
                entries: kept.push(EntryModel { key: k, blob: v, stamp: now }),
                ..m
            },
            true,
        )
    }
}

/// Streaming admission state: whether the object is still eligible for the
/// memory cache, the byte budget declared up front, and the bytes buffered
/// so far.
#[verifier::ext_equal]
pub ghost struct SessionModel {
    pub eligible: bool,
    pub limit: int,
    pub buf: Seq<u8>,
}

/// Opening a streaming insert: the object is a cache candidate exactly when
/// its declared length is below the per-object threshold, and the buffer
/// budget is exactly the declared length.
pub open spec fn session_begin(content_length: int, max_value_size: int) -> SessionModel {
    SessionModel {
        eligible: content_length < max_value_size,
        limit: content_length,
        buf: Seq::empty(),
    }
}

/// Consuming one chunk: an ineligible insert stays ineligible and buffers
/// nothing; a chunk that would push the buffer past its declared budget
/// permanently revokes eligibility and discards the buffer; otherwise the
/// chunk is appended.
pub open spec fn session_push(m: SessionModel, chunk: Seq<u8>) -> SessionModel {
    if !m.eligible {
        m
    } else if m.buf.len() + chunk.len() > m.limit {
        SessionModel { eligible: false, buf: Seq::empty(), ..m }
    } else {
        SessionModel { buf: m.buf + chunk, ..m }
    }
}

/// Consuming a whole sequence of chunks, front first.
pub open spec fn session_feed(m: SessionModel, chunks: Seq<Seq<u8>>) -> SessionModel
    decreases chunks.len(),
{
    if chunks.len() == 0 {
        m
    } else {
        session_feed(session_push(m, chunks.first()), chunks.drop_first())
    }
}

/// The concatenation of a sequence of chunks.
pub open spec fn concat_chunks(chunks: Seq<Seq<u8>>) -> Seq<u8>
    decreases chunks.len(),
{
    if chunks.len() == 0 {
        Seq::empty()
    } else {
        chunks.first() + concat_chunks(chunks.drop_first())
    }
}

/// What a whole insert does: the body is admitted exactly when the declared
/// length makes it a cache candidate and the body did not overrun that
/// declared length; otherwise the object stays disk-only, and any stale
/// cached value under the key is dropped so a reader can never see an old
/// version that disagrees with the new disk copy.
pub open spec fn spec_insert(
    m: CacheModel,
    k: Seq<u8>,
    body: Seq<u8>,
    content_length: int,
    now: int,
) -> (CacheModel, bool) {
    let sm = session_push(session_begin(content_length, m.max_value_size), body);
    if sm.eligible {
        spec_admit(m, k, body, now)
    } else {
        (CacheModel { entries: remove_key(m.entries, k), ..m }, false)
    }
}

pub proof fn lemma_total_size_nonneg(s: Seq<EntryModel>)
    ensures
        total_size(s) >= 0,
    decreases s.len(),
{
    if s.len() > 0 {
        lemma_total_size_nonneg(s.drop_last());
    }
}

pub proof fn lemma_total_size_drop_first(s: Seq<EntryModel>)
    requires
        s.len() > 0,
    ensures
        total_size(s.drop_first()) == total_size(s) - s[0].blob.len(),
    decreases s.len(),
{
    if s.len() == 1 {
        assert(s.drop_first() =~= Seq::<EntryModel>::empty());
        assert(s.drop_last() =~= Seq::<EntryModel>::empty());
    } else {
        lemma_total_size_drop_first(s.drop_last());
        assert(s.drop_first().drop_last() =~= s.drop_last().drop_first());
        assert(s.drop_first().last() == s.last());
    }
}

pub proof fn lemma_total_size_push(s: Seq<EntryModel>, e: EntryModel)
    ensures
        total_size(s.push(e)) == total_size(s) + e.blob.len(),
{
    assert(s.push(e).drop_last() =~= s);
    assert(s.push(e).last() == e);
}

pub proof fn lemma_total_size_remove(s: Seq<EntryModel>, i: int)
    requires
        0 <= i < s.len(),
    ensures
        total_size(s.remove(i)) == total_size(s) - s[i].blob.len(),
    decreases s.len(),
{
    if i == s.len() - 1 {
        assert(s.remove(i) =~= s.drop_last());
    } else {
        lemma_total_size_remove(s.drop_last(), i);
        assert(s.remove(i).drop_last() =~= s.drop_last().remove(i));
        assert(s.remove(i).last() == s.last());
    }
}

/// `find` answers `Some` exactly on the keys the entries hold, and what it
/// answers holds that key.
pub proof fn lemma_find_props(s: Seq<EntryModel>, k: Seq<u8>)
    ensures
        match find(s, k) {
            Some(e) => has_key(s, k) && e.key == k,
            None => !has_key(s, k),
        },
    decreases s.len(),
{
    if s.len() > 0 && s.last().key != k {
        lemma_find_props(s.drop_last(), k);
        if has_key(s.drop_last(), k) {
            let j = choose|j: int| 0 <= j < s.drop_last().len() && s.drop_last()[j].key == k;
            assert(s[j].key == k);
        }
        if has_key(s, k) {
            let j = choose|j: int| 0 <= j < s.len() && s[j].key == k;
            assert(s.drop_last()[j].key == k);
        }
    }
}

/// With unique keys, `find` returns the entry standing at any index whose
/// key matches.
pub proof fn lemma_find_at(s: Seq<EntryModel>, k: Seq<u8>, i: int)
    requires
        keys_unique(s),
        0 <= i < s.len(),
        s[i].key == k,
    ensures
        find(s, k) == Some(s[i]),
    decreases s.len(),
{
    if i < s.len() - 1 {
        assert(s[i].key != s[s.len() - 1].key);
        assert(keys_unique(s.drop_last())) by {
            assert(forall|a: int, b: int|
                0 <= a < b < s.drop_last().len() ==> s.drop_last()[a] == s[a]
                    && s.drop_last()[b] == s[b]);
        }
        lemma_find_at(s.drop_last(), k, i);
    }
}

/// Removing an absent key changes nothing.
pub proof fn lemma_remove_key_absent(s: Seq<EntryModel>, k: Seq<u8>)
    requires
        !has_key(s, k),
    ensures
        remove_key(s, k) == s,
    decreases s.len(),
{
    if s.len() > 0 {
        assert(s.last().key != k) by {
            assert(s[s.len() - 1] == s.last());
        }
        assert(!has_key(s.drop_last(), k)) by {
            if has_key(s.drop_last(), k) {
                let j = choose|j: int|
                    0 <= j < s.drop_last().len() && s.drop_last()[j].key == k;
                assert(s[j].key == k);
            }
        }
        lemma_remove_key_absent(s.drop_last(), k);
        assert(remove_key(s, k) =~= s);
    } else {
        assert(remove_key(s, k) =~= s);
    }
}

/// With unique keys, removing key `k` is removing the one entry that holds it.
pub proof fn lemma_remove_key_at(s: Seq<EntryModel>, k: Seq<u8>, i: int)
    requires
        keys_unique(s),
        0 <= i < s.len(),
        s[i].key == k,
    ensures
        remove_key(s, k) == s.remove(i),
    decreases s.len(),
{
    if i == s.len() - 1 {
        assert(!has_key(s.drop_last(), k)) by {
            if has_key(s.drop_last(), k) {
                let j = choose|j: int|
                    0 <= j < s.drop_last().len() && s.drop_last()[j].key == k;
                assert(s[j].key == s[i].key && j < i);
            }
        }
        lemma_remove_key_absent(s.drop_last(), k);
        assert(remove_key(s, k) =~= s.remove(i));
    } else {
        assert(s[i].key != s[s.len() - 1].key);
        assert(keys_unique(s.drop_last())) by {
            assert(forall|a: int, b: int|
                0 <= a < b < s.drop_last().len() ==> s.drop_last()[a] == s[a]
                    && s.drop_last()[b] == s[b]);
        }
        lemma_remove_key_at(s.drop_last(), k, i);
        assert(remove_key(s, k) =~= s.remove(i));
    }
}

/// The eviction pass keeps exactly a suffix of the entries (the newest), the
/// kept suffix leaves room for `need` more bytes unless it is empty, and the
/// cut is minimal: one entry earlier would not have left room.
pub proof fn lemma_evict_for_props(s: Seq<EntryModel>, need: int, cap: int)
    requires
        need >= 0,
    ensures
        exists|c: int|
            {
                let r = #[trigger] s.subrange(c, s.len() as int);
                &&& 0 <= c <= s.len()
                &&& evict_for(s, need, cap) == r
                &&& (r.len() == 0 || total_size(r) + need <= cap)
                &&& (c > 0 ==> total_size(s.subrange(c - 1, s.len() as int)) + need > cap)
            },
    decreases s.len(),
{
    if s.len() == 0 || total_size(s) + need <= cap {
        assert(s.subrange(0, s.len() as int) =~= s);
        if s.len() > 0 {
            assert({
                let r = s.subrange(0, s.len() as int);
                &&& evict_for(s, need, cap) == r
                &&& (r.len() == 0 || total_size(r) + need <= cap)
            });
        }
    } else {
        lemma_evict_for_props(s.drop_first(), need, cap);
        let t = s.drop_first();
        let c0 = choose|c: int|
            {
                let r = #[trigger] t.subrange(c, t.len() as int);
                &&& 0 <= c <= t.len()
                &&& evict_for(t, need, cap) == r
                &&& (r.len() == 0 || total_size(r) + need <= cap)
                &&& (c > 0 ==> total_size(t.subrange(c - 1, t.len() as int)) + need > cap)
            };
        let c = c0 + 1;
        assert(t.subrange(c0, t.len() as int) =~= s.subrange(c, s.len() as int));
        if c0 > 0 {
            assert(t.subrange(c0 - 1, t.len() as int) =~= s.subrange(c - 1, s.len() as int));
        } else {
            assert(s.subrange(0, s.len() as int) =~= s);
        }
        assert({
            let r = s.subrange(c, s.len() as int);
            &&& 0 <= c <= s.len()
            &&& evict_for(s, need, cap) == r
            &&& (r.len() == 0 || total_size(r) + need <= cap)
            &&& (c > 0 ==> total_size(s.subrange(c - 1, s.len() as int)) + need > cap)
        });
    }
}

/// A prefix and the matching suffix account for the whole aggregate.
pub proof fn lemma_total_size_split(s: Seq<EntryModel>, i: int)
    requires
        0 <= i <= s.len(),
    ensures
        total_size(s.subrange(0, i)) + total_size(s.subrange(i, s.len() as int))
            == total_size(s),
    decreases s.len() - i,
{
    if i == s.len() {
        assert(s.subrange(0, i) =~= s);
        assert(s.subrange(i, s.len() as int) =~= Seq::<EntryModel>::empty());
    } else {
        lemma_total_size_split(s, i + 1);
        assert(s.subrange(0, i + 1).drop_last() =~= s.subrange(0, i));
        assert(s.subrange(0, i + 1).last() == s[i]);
        let suf = s.subrange(i, s.len() as int);
        lemma_total_size_drop_first(suf);
        assert(suf.drop_first() =~= s.subrange(i + 1, s.len() as int));
        assert(suf[0] == s[i]);
    }
}

/// Admission never lets the aggregate grow past the capacity.
pub proof fn lemma_admit_capacity(m: CacheModel, k: Seq<u8>, v: Seq<u8>, now: int)
    requires
        keys_unique(m.entries),
        total_size(m.entries) <= m.capacity,
    ensures
        total_size(spec_admit(m, k, v, now).0.entries) <= m.capacity,
{
    let cleared = remove_key(m.entries, k);
    lemma_remove_key_size(m.entries, k);
    lemma_total_size_nonneg(cleared);
    if v.len() > m.capacity {
    } else {
        lemma_evict_for_props(cleared, v.len() as int, m.capacity);
        let r = evict_for(cleared, v.len() as int, m.capacity);
        lemma_total_size_push(r, EntryModel { key: k, blob: v, stamp: now });
        if r.len() == 0 {
            assert(total_size(r) == 0);
        }
    }
}

/// Removing a key never grows the aggregate, and with unique keys it shrinks
/// it by exactly the removed entry's size.
pub proof fn lemma_remove_key_size(s: Seq<EntryModel>, k: Seq<u8>)
    ensures
        total_size(remove_key(s, k)) <= total_size(s),
        keys_unique(s) ==> total_size(remove_key(s, k)) == total_size(s) - match find(s, k) {
            Some(e) => e.blob.len() as int,
            None => 0,
        },
    decreases s.len(),
{
    lemma_total_size_nonneg(s);
    if s.len() > 0 {
        assert(keys_unique(s) ==> keys_unique(s.drop_last())) by {
            if keys_unique(s) {
                assert(forall|a: int, b: int|
                    0 <= a < b < s.drop_last().len() ==> s.drop_last()[a] == s[a]
                        && s.drop_last()[b] == s[b]);
            }
        }
        lemma_remove_key_size(s.drop_last(), k);
        if s.last().key == k {
            if keys_unique(s) {
                assert(!has_key(s.drop_last(), k)) by {
                    if has_key(s.drop_last(), k) {
                        let j = choose|j: int|
                            0 <= j < s.drop_last().len() && s.drop_last()[j].key == k;
                        assert(s[j].key == k && j < s.len() - 1);
                        assert(s[s.len() - 1].key == k);
                    }
                }
                lemma_find_props(s.drop_last(), k);
            }
        } else {
            lemma_total_size_push(remove_key(s.drop_last(), k), s.last());
        }
    }
}

/// No entry under key `k` survives `remove_key(s, k)`.
pub proof fn lemma_remove_key_gone(s: Seq<EntryModel>, k: Seq<u8>)
    ensures
        !has_key(remove_key(s, k), k),
    decreases s.len(),
{
    if s.len() > 0 {
        lemma_remove_key_gone(s.drop_last(), k);
        let rest = remove_key(s.drop_last(), k);
        if s.last().key != k {
            assert(!has_key(rest.push(s.last()), k)) by {
                if has_key(rest.push(s.last()), k) {
                    let j = choose|j: int|
                        0 <= j < rest.push(s.last()).len() && rest.push(s.last())[j].key == k;
                    if j < rest.len() {
                        assert(rest[j].key == k);
                    }
                }
            }
        }
    }
}

/// The expiry sweep never grows the aggregate.
pub proof fn lemma_live_only_size(s: Seq<EntryModel>, keep_alive: int, now: int)
    ensures
        total_size(live_only(s, keep_alive, now)) <= total_size(s),
        total_size(live_only(s, keep_alive, now)) >= 0,
    decreases s.len(),
{
    lemma_total_size_nonneg(live_only(s, keep_alive, now));
    if s.len() > 0 {
        lemma_live_only_size(s.drop_last(), keep_alive, now);
        if live(s.last(), keep_alive, now) {
            lemma_total_size_push(live_only(s.drop_last(), keep_alive, now), s.last());
        }
    }
}

/// Every key held after the expiry sweep was held before.
pub proof fn lemma_live_only_keys(s: Seq<EntryModel>, keep_alive: int, now: int, k: Seq<u8>)
    ensures
        has_key(live_only(s, keep_alive, now), k) ==> has_key(s, k),
    decreases s.len(),
{
    if s.len() > 0 {
        lemma_live_only_keys(s.drop_last(), keep_alive, now, k);
        let rest = live_only(s.drop_last(), keep_alive, now);
        if has_key(live_only(s, keep_alive, now), k) {
            if live(s.last(), keep_alive, now) {
                let j = choose|j: int|
                    0 <= j < rest.push(s.last()).len() && rest.push(s.last())[j].key == k;
                if j < rest.len() {
                    assert(rest[j].key == k);
                }
            }
            if has_key(s.drop_last(), k) {
                let i = choose|i: int| 0 <= i < s.drop_last().len() && s.drop_last()[i].key == k;
                assert(s[i].key == k);
            } else {
                assert(s[s.len() - 1].key == k);
            }
        }
    }
}

/// The expiry sweep keeps the keys unique.
pub proof fn lemma_live_only_unique(s: Seq<EntryModel>, keep_alive: int, now: int)
    requires
        keys_unique(s),
    ensures
        keys_unique(live_only(s, keep_alive, now)),
    decreases s.len(),
{
    if s.len() > 0 {
        assert(keys_unique(s.drop_last())) by {
            assert(forall|a: int, b: int|
                0 <= a < b < s.drop_last().len() ==> s.drop_last()[a] == s[a]
                    && s.drop_last()[b] == s[b]);
        }
        lemma_live_only_unique(s.drop_last(), keep_alive, now);
        let rest = live_only(s.drop_last(), keep_alive, now);
        if live(s.last(), keep_alive, now) {
            assert(!has_key(s.drop_last(), s.last().key)) by {
                if has_key(s.drop_last(), s.last().key) {
                    let j = choose|j: int|
                        0 <= j < s.drop_last().len() && s.drop_last()[j].key == s.last().key;
                    assert(s[j].key == s[s.len() - 1].key && j < s.len() - 1);
                }
            }
            lemma_live_only_keys(s.drop_last(), keep_alive, now, s.last().key);
            assert(keys_unique(rest.push(s.last()))) by {
                assert(forall|a: int, b: int|
                    0 <= a < b < rest.push(s.last()).len() && b < rest.len()
                        ==> rest.push(s.last())[a] == rest[a] && rest.push(s.last())[b] == rest[b]);
                assert(forall|a: int|
                    0 <= a < rest.len() ==> #[trigger] rest.push(s.last())[a] == rest[a]);
                if has_key(rest, s.last().key) {
                    let j = choose|j: int| 0 <= j < rest.len() && rest[j].key == s.last().key;
                }
            }
        }
    }
}

/// An expired entry is gone after the sweep, and the aggregate shrinks by at
/// least its size.
pub proof fn lemma_live_only_drops_dead(
    s: Seq<EntryModel>,
    keep_alive: int,
    now: int,
    k: Seq<u8>,
    e: EntryModel,
)
    requires
        keys_unique(s),
        find(s, k) == Some(e),
        !live(e, keep_alive, now),
    ensures
        find(live_only(s, keep_alive, now), k) == None::<EntryModel>,
        total_size(live_only(s, keep_alive, now)) <= total_size(s) - e.blob.len(),
    decreases s.len(),
{
    lemma_find_props(s, k);
    let rest = live_only(s.drop_last(), keep_alive, now);
    assert(keys_unique(s.drop_last())) by {
        assert(forall|a: int, b: int|
            0 <= a < b < s.drop_last().len() ==> s.drop_last()[a] == s[a]
                && s.drop_last()[b] == s[b]);
    }
    if s.last().key == k {
        assert(e == s.last());
        assert(!has_key(s.drop_last(), k)) by {
            if has_key(s.drop_last(), k) {
                let j = choose|j: int| 0 <= j < s.drop_last().len() && s.drop_last()[j].key == k;
                assert(s[j].key == k && j < s.len() - 1);
                assert(s[s.len() - 1].key == k);
            }
        }
        lemma_live_only_keys(s.drop_last(), keep_alive, now, k);
        lemma_find_props(rest, k);
        lemma_live_only_size(s.drop_last(), keep_alive, now);
    } else {
        lemma_live_only_drops_dead(s.drop_last(), keep_alive, now, k, e);
        if live(s.last(), keep_alive, now) {
            lemma_total_size_push(rest, s.last());
            lemma_find_props(rest, k);
            lemma_find_props(rest.push(s.last()), k);
            if has_key(rest.push(s.last()), k) {
                let j = choose|j: int|
                    0 <= j < rest.push(s.last()).len() && rest.push(s.last())[j].key == k;
                if j < rest.len() {
                    assert(rest[j].key == k);
                }
            }
        }
    }
}

/// Feeding chunks one at a time leaves the session exactly where feeding
/// their concatenation in one piece would: streaming admission and whole-body
/// admission agree.
pub proof fn lemma_feed_matches_batch(m: SessionModel, chunks: Seq<Seq<u8>>)
    requires
        m.eligible ==> m.buf.len() <= m.limit,
    ensures
        session_feed(m, chunks) == session_push(m, concat_chunks(chunks)),
    decreases chunks.len(),
{
    if chunks.len() == 0 {
        assert(m.buf + Seq::<u8>::empty() =~= m.buf);
        if m.eligible {
            assert(session_push(m, concat_chunks(chunks)) =~= m);
        }
    } else {
        let c0 = chunks.first();
        let rest = chunks.drop_first();
        lemma_feed_matches_batch(session_push(m, c0), rest);
        let whole = concat_chunks(chunks);
        assert(whole == c0 + concat_chunks(rest));
        if !m.eligible {
        } else if m.buf.len() + c0.len() > m.limit {
            let f = session_push(m, c0);
            assert(!f.eligible);
            assert(session_push(m, whole) =~= f);
        } else {
            let m1 = session_push(m, c0);
            assert(m1.buf == m.buf + c0);
            if m1.buf.len() + concat_chunks(rest).len() > m1.limit {
                assert(session_push(m1, concat_chunks(rest)) =~= session_push(m, whole));
            } else {
                assert((m.buf + c0) + concat_chunks(rest) =~= m.buf + whole);
                assert(session_push(m1, concat_chunks(rest)) =~= session_push(m, whole));
            }
        }
    }
}

} // verus!
