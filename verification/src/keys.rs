//! The order of fingerprints.
//!
//! Buckets are kept in ascending order of their fingerprint, read as a number
//! with its first byte the most significant.

use vstd::prelude::*;

verus! {

/// The number that a sequence of bytes spells, most significant byte first.
pub open spec fn key_value(key: Seq<u8>) -> nat
    decreases key.len(),
{
    if key.len() == 0 {
        0
    } else {
        key_value(key.drop_last()) * 256 + key.last() as nat
    }
}

/// Two keys of one length that spell the same number are the same key.
pub proof fn lemma_key_value_injective(a: Seq<u8>, b: Seq<u8>)
    requires
        a.len() == b.len(),
        key_value(a) == key_value(b),
    ensures
        a == b,
    decreases a.len(),
{
    if a.len() > 0 {
        lemma_key_value_injective(a.drop_last(), b.drop_last());
        assert(a =~= a.drop_last().push(a.last()));
        assert(b =~= b.drop_last().push(b.last()));
    } else {
        assert(a =~= b);
    }
}

/// How two fingerprints compare: `(a < b, a > b)`; both are false exactly
/// when the two are equal.
pub fn key_order(a: &[u8; 32], b: &[u8; 32]) -> (r: (bool, bool))
    ensures
        r.0 == (key_value(a@) < key_value(b@)),
        r.1 == (key_value(a@) > key_value(b@)),
        (!r.0 && !r.1) == (a@ == b@),
{
    let mut less: bool = false;
    let mut greater: bool = false;
    let mut i: usize = 0;
    while i < 32
        invariant
            i <= 32,
            less == (key_value(a@.take(i as int)) < key_value(b@.take(i as int))),
            greater == (key_value(a@.take(i as int)) > key_value(b@.take(i as int))),
        decreases 32 - i,
    {
        proof {
            assert(a@.take(i + 1).drop_last() =~= a@.take(i as int));
            assert(b@.take(i + 1).drop_last() =~= b@.take(i as int));
        }
        let x: u8 = a[i];
        let y: u8 = b[i];
        if !less && !greater {
            less = x < y;
            greater = x > y;
        }
        i = i + 1;
    }
    proof {
        assert(a@.take(32) =~= a@);
        assert(b@.take(32) =~= b@);
        if !less && !greater {
            lemma_key_value_injective(a@, b@);
        }
    }
    (less, greater)
}

} // verus!
