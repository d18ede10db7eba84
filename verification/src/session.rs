//! The streaming half of admission control. A write request's body arrives
//! chunk by chunk; every chunk is the caller's to persist to disk, while the
//! session buffers it in memory only for as long as the object stays
//! eligible for the memory cache.

use vstd::prelude::*;

use crate::model::{session_begin, session_push, SessionModel};

verus! {

/// A streaming insert in progress: whether the object is still a cache
/// candidate, the byte budget its declared length allowed, and the bytes
/// buffered so far.
pub struct InsertSession {
    eligible: bool,
    limit: usize,
    buf: Vec<u8>,
}

impl View for InsertSession {
    type V = SessionModel;

    closed spec fn view(&self) -> SessionModel {
        SessionModel { eligible: self.eligible, limit: self.limit as int, buf: self.buf@ }
    }
}

impl InsertSession {
    /// The buffer never outgrows the declared budget while the object is
    /// eligible.
    pub closed spec fn inv(&self) -> bool {
        self@.eligible ==> self@.buf.len() <= self@.limit
    }

    /// Open a streaming insert: the object is a cache candidate exactly when
    /// its declared length is below the per-object threshold, and the buffer
    /// budget is exactly the declared length.
    pub fn begin(content_length: usize, max_value_size: usize) -> (r: Self)
        ensures
            r.inv(),
            r@ == session_begin(content_length as int, max_value_size as int),
    {
        let r = InsertSession {
            eligible: content_length < max_value_size,
            limit: content_length,
            buf: Vec::new(),
        };
        proof {
            assert(r@ =~= session_begin(content_length as int, max_value_size as int));
        }
        r
    }

    /// Consume one chunk. While the object is eligible and the chunk fits the
    /// declared budget it is buffered; a chunk that would overrun the budget
    /// revokes eligibility for good and discards the buffer. Persistence is
    /// unaffected either way: the chunk is never refused.
    pub fn push_chunk(&mut self, chunk: &[u8])
        requires
            old(self).inv(),
        ensures
            final(self).inv(),
            final(self)@ == session_push(old(self)@, chunk@),
    {
        if self.eligible {
            if chunk.len() > self.limit - self.buf.len() {
                self.eligible = false;
                self.buf = Vec::new();
                proof {
                    assert(self@ =~= session_push(old(self)@, chunk@));
                }
            } else {
                let mut i: usize = 0;
                while i < chunk.len()
                    invariant
                        i <= chunk.len(),
                        self.buf@ == old(self)@.buf + chunk@.subrange(0, i as int),
                        self.eligible == old(self).eligible,
                        self.limit == old(self).limit,
                        old(self)@.buf.len() + chunk@.len() <= self.limit as int,
                    decreases chunk.len() - i,
                {
                    self.buf.push(chunk[i]);
                    proof {
                        assert(self.buf@ =~= old(self)@.buf + chunk@.subrange(0, i as int + 1));
                    }
                    i += 1;
                }
                proof {
                    assert(chunk@.subrange(0, chunk@.len() as int) =~= chunk@);
                    assert(self@ =~= session_push(old(self)@, chunk@));
                }
            }
        }
    }

    /// End of stream: the assembled body, if the object stayed eligible all
    /// the way through.
    pub fn finish(self) -> (r: Option<Vec<u8>>)
        ensures
            match r {
                Some(v) => self@.eligible && v@ == self@.buf,
                None => !self@.eligible,
            },
    {
        if self.eligible {
            Some(self.buf)
        } else {
            None
        }
    }

    /// Whether the object is still a cache candidate.
    pub fn is_eligible(&self) -> (r: bool)
        ensures
            r == self@.eligible,
    {
        self.eligible
    }
}

} // verus!
