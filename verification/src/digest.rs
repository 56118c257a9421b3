//! The stable 64-bit fingerprint under the gossip digests.
//!
//! Digests are compared across hosts, so the hash must be a documented,
//! process-independent function of the bytes: FNV-1a with the standard
//! 64-bit offset basis and prime. The executable hash returns exactly the
//! spec-level fold, which makes every digest a pure function of the hashed
//! bytes.

use vstd::prelude::*;

verus! {

pub const FNV_OFFSET_BASIS: u64 = 0xcbf29ce484222325;

pub const FNV_PRIME: u64 = 0x100000001b3;

/// One FNV-1a step: fold a byte into the accumulator.
pub open spec fn spec_fnv1a_step(acc: u64, b: u8) -> u64 {
    vstd::wrapping::u64_specs::wrapping_mul(acc ^ (b as u64), FNV_PRIME)
}

/// FNV-1a over a byte sequence, starting from `acc`.
pub open spec fn spec_fnv1a(data: Seq<u8>, acc: u64) -> u64
    decreases data.len(),
{
    if data.len() == 0 {
        acc
    } else {
        spec_fnv1a(data.drop_first(), spec_fnv1a_step(acc, data[0]))
    }
}

/// Hashing a concatenation is hashing the parts in order.
pub proof fn lemma_fnv1a_concat(a: Seq<u8>, b: Seq<u8>, acc: u64)
    ensures
        spec_fnv1a(a + b, acc) == spec_fnv1a(b, spec_fnv1a(a, acc)),
    decreases a.len(),
{
    if a.len() == 0 {
        assert(a + b =~= b);
    } else {
        assert((a + b).drop_first() =~= a.drop_first() + b);
        lemma_fnv1a_concat(a.drop_first(), b, spec_fnv1a_step(acc, a[0]));
    }
}

/// FNV-1a of a whole byte vector, continuing from `acc`.
pub fn fnv1a(data: &Vec<u8>, acc: u64) -> (r: u64)
    ensures
        r == spec_fnv1a(data@, acc),
{
    let n = data.len();
    let mut h: u64 = acc;
    let mut i: usize = 0;
    proof {
        assert(data@.skip(0) =~= data@);
    }
    while i < n
        invariant
            i <= n,
            n == data@.len(),
            spec_fnv1a(data@, acc) == spec_fnv1a(data@.skip(i as int), h),
        decreases n - i,
    {
        h = (h ^ (data[i] as u64)).wrapping_mul(FNV_PRIME);
        proof {
            assert(data@.skip(i as int).drop_first() =~= data@.skip(i + 1));
            assert(data@.skip(i as int)[0] == data@[i as int]);
        }
        i = i + 1;
    }
    proof {
        assert(data@.skip(n as int) =~= Seq::<u8>::empty());
    }
    h
}

} // verus!
