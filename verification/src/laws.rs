//! The engine's laws, each stated over the specification model and proved
//! once and for all. The executable methods tie themselves to that model in
//! their contracts, so each law carries over to every run.

use vstd::prelude::*;

use crate::model::{
    concat_chunks, evict_for, find, has_key, keys_unique, lemma_admit_capacity,
    lemma_evict_for_props, lemma_feed_matches_batch, lemma_live_only_drops_dead,
    lemma_live_only_size, lemma_remove_key_gone, lemma_remove_key_size, live, live_only,
    remove_key, session_begin, session_feed, session_push, spec_admit, spec_get, spec_insert,
    total_size, CacheModel, EntryModel,
};

verus! {

/// Round trip: a body whose declared length is truthful, below the per-object
/// threshold and no larger than the whole capacity is cached by an insert,
/// and a lookup before its keep-alive runs out returns exactly that body.
/// (A body larger than the whole capacity is the one excluded input: the
/// accountant refuses it rather than emptying the cache for it.)
pub proof fn lemma_round_trip(m: CacheModel, k: Seq<u8>, v: Seq<u8>, t_ins: int, t_get: int)
    requires
        keys_unique(m.entries),
        total_size(m.entries) <= m.capacity,
        v.len() < m.max_value_size,
        v.len() <= m.capacity,
        t_ins <= t_get < t_ins + m.keep_alive,
    ensures
        spec_insert(m, k, v, v.len() as int, t_ins).1 == true,
        spec_get(spec_insert(m, k, v, v.len() as int, t_ins).0, k, t_get) == Some(v),
{
    let sm = session_push(session_begin(v.len() as int, m.max_value_size), v);
    assert(Seq::<u8>::empty() + v =~= v);
    assert(sm.eligible);
    let kept = evict_for(remove_key(m.entries, k), v.len() as int, m.capacity);
    let e = EntryModel { key: k, blob: v, stamp: t_ins };
    let s2 = kept.push(e);
    assert(s2.last() == e);
    assert(find(s2, k) == Some(e));
    assert(live(e, m.keep_alive, t_get));
}

/// Capacity invariant: admission, whole inserts and the expiry sweep all keep
/// the aggregate cached bytes within the capacity, so any sequence of them
/// does.
pub proof fn lemma_capacity_preserved(
    m: CacheModel,
    k: Seq<u8>,
    v: Seq<u8>,
    content_length: int,
    now: int,
)
    requires
        keys_unique(m.entries),
        total_size(m.entries) <= m.capacity,
    ensures
        total_size(spec_admit(m, k, v, now).0.entries) <= m.capacity,
        total_size(spec_insert(m, k, v, content_length, now).0.entries) <= m.capacity,
        total_size(live_only(m.entries, m.keep_alive, now)) <= m.capacity,
{
    lemma_admit_capacity(m, k, v, now);
    lemma_remove_key_size(m.entries, k);
    lemma_live_only_size(m.entries, m.keep_alive, now);
}

/// Oversized objects: a declared length at or above the per-object threshold
/// — in particular a truthful one for an oversized body — means the insert
/// answers false and nothing of it reaches the memory cache. The disk copy is
/// the caller's and is unaffected.
pub proof fn lemma_oversized_not_cached(
    m: CacheModel,
    k: Seq<u8>,
    v: Seq<u8>,
    content_length: int,
    now: int,
)
    requires
        content_length >= m.max_value_size,
    ensures
        spec_insert(m, k, v, content_length, now).1 == false,
        !has_key(spec_insert(m, k, v, content_length, now).0.entries, k),
{
    lemma_remove_key_gone(m.entries, k);
}

/// Declared-length mismatch: a body that overruns its declared length is not
/// cached, however the declared length compares to the threshold.
pub proof fn lemma_understated_length_not_cached(
    m: CacheModel,
    k: Seq<u8>,
    v: Seq<u8>,
    content_length: int,
    now: int,
)
    requires
        v.len() > content_length,
    ensures
        spec_insert(m, k, v, content_length, now).1 == false,
{
}

/// Streaming agrees with batch: feeding a session the chunks one at a time
/// leaves it exactly where feeding their concatenation in one piece would. In
/// particular, chunks whose total overruns the declared length leave the
/// session ineligible, whatever the prefix that first overran.
pub proof fn lemma_stream_matches_batch(chunks: Seq<Seq<u8>>, content_length: int, max_value_size: int)
    requires
        content_length >= 0,
    ensures
        session_feed(session_begin(content_length, max_value_size), chunks) == session_push(
            session_begin(content_length, max_value_size),
            concat_chunks(chunks),
        ),
        concat_chunks(chunks).len() > content_length ==> !session_feed(
            session_begin(content_length, max_value_size),
            chunks,
        ).eligible,
{
    lemma_feed_matches_batch(session_begin(content_length, max_value_size), chunks);
}

/// TTL expiry: once an entry's age reaches the keep-alive bound, its key
/// misses the cache, and the full-scan sweep removes the entry and shrinks
/// the aggregate by at least its size.
pub proof fn lemma_ttl_expiry(m: CacheModel, k: Seq<u8>, e: EntryModel, now: int)
    requires
        keys_unique(m.entries),
        find(m.entries, k) == Some(e),
        now >= e.stamp + m.keep_alive,
    ensures
        spec_get(m, k, now) == None::<Seq<u8>>,
        find(live_only(m.entries, m.keep_alive, now), k) == None::<EntryModel>,
        total_size(live_only(m.entries, m.keep_alive, now)) <= total_size(m.entries)
            - e.blob.len(),
{
    lemma_live_only_drops_dead(m.entries, m.keep_alive, now, k, e);
}

/// Eviction ordering: when an admission must make room, entries leave oldest
/// first. The survivors are exactly a suffix of the prior entries (any
/// same-key entry already dropped), the cut goes no deeper than needed, and
/// the admitted blob then fits.
pub proof fn lemma_eviction_oldest_first(m: CacheModel, k: Seq<u8>, v: Seq<u8>, now: int)
    requires
        v.len() <= m.capacity,
    ensures
        spec_admit(m, k, v, now).1 == true,
        exists|c: int|
            {
                let r = #[trigger] remove_key(m.entries, k).subrange(
                    c,
                    remove_key(m.entries, k).len() as int,
                );
                &&& 0 <= c <= remove_key(m.entries, k).len()
                &&& spec_admit(m, k, v, now).0.entries == r.push(
                    EntryModel { key: k, blob: v, stamp: now },
                )
                &&& (r.len() == 0 || total_size(r) + v.len() <= m.capacity)
                &&& (c > 0 ==> total_size(
                    remove_key(m.entries, k).subrange(c - 1, remove_key(m.entries, k).len() as int),
                ) + v.len() > m.capacity)
            },
{
    let cleared = remove_key(m.entries, k);
    lemma_evict_for_props(cleared, v.len() as int, m.capacity);
    let c = choose|c: int|
        {
            let r = #[trigger] cleared.subrange(c, cleared.len() as int);
            &&& 0 <= c <= cleared.len()
            &&& evict_for(cleared, v.len() as int, m.capacity) == r
            &&& (r.len() == 0 || total_size(r) + v.len() <= m.capacity)
            &&& (c > 0 ==> total_size(cleared.subrange(c - 1, cleared.len() as int)) + v.len()
                > m.capacity)
        };
    assert({
        let r = cleared.subrange(c, cleared.len() as int);
        &&& 0 <= c <= cleared.len()
        &&& spec_admit(m, k, v, now).0.entries == r.push(
            EntryModel { key: k, blob: v, stamp: now },
        )
        &&& (r.len() == 0 || total_size(r) + v.len() <= m.capacity)
        &&& (c > 0 ==> total_size(cleared.subrange(c - 1, cleared.len() as int)) + v.len()
            > m.capacity)
    });
}

} // verus!
