//! Key validation: a key names the object both in the memory cache and on
//! disk, so it must be a single relative path segment that cannot traverse
//! outside the storage root.

use vstd::prelude::*;

verus! {

/// Whether `k` is acceptable as an object key: non-empty, free of path
/// separators and NUL, and not the `.` or `..` segments.
pub open spec fn key_safe(k: Seq<u8>) -> bool {
    &&& k.len() > 0
    &&& k != seq![46u8]
    &&& k != seq![46u8, 46u8]
    &&& forall|i: int| 0 <= i < k.len() ==> k[i] != 47u8 && k[i] != 92u8 && k[i] != 0u8
}

/// Check a key before it is used to address the memory cache or the disk.
pub fn key_is_safe(k: &[u8]) -> (r: bool)
    ensures
        r == key_safe(k@),
{
    if k.len() == 0 {
        return false;
    }
    if k.len() == 1 && k[0] == 46 {
        proof {
            assert(k@ =~= seq![46u8]);
        }
        return false;
    }
    if k.len() == 2 && k[0] == 46 && k[1] == 46 {
        proof {
            assert(k@ =~= seq![46u8, 46u8]);
        }
        return false;
    }
    let mut i: usize = 0;
    while i < k.len()
        invariant
            i <= k.len(),
            forall|j: int| 0 <= j < i ==> k@[j] != 47u8 && k@[j] != 92u8 && k@[j] != 0u8,
        decreases k.len() - i,
    {
        let b = k[i];
        if b == 47 || b == 92 || b == 0 {
            return false;
        }
        i += 1;
    }
    proof {
        if k@ == seq![46u8] {
            assert(k@.len() == 1 && k@[0] == 46u8);
        }
        if k@ == seq![46u8, 46u8] {
            assert(k@.len() == 2 && k@[0] == 46u8 && k@[1] == 46u8);
        }
    }
    true
}

} // verus!
