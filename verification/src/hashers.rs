//! Hashers that lay keys out in a plain, predictable way.
use vstd::prelude::*;

use crate::key_store::KeyHasher;

verus! {

/// A hasher that sends every key to the same place: each hash is the number
/// it holds. Collisions then decide the whole layout, which makes it plain.
pub struct ConstantHasher(pub u64);

impl KeyHasher for ConstantHasher {
    open spec fn spec_hash(&self, key: Seq<u8>) -> u64 {
        self.0
    }

    fn hash_key(&self, key: &[u8]) -> (h: u64) {
        self.0
    }
}

/// The number that up to eight bytes spell, least significant byte first.
pub open spec fn little_endian(b: Seq<u8>) -> nat
    decreases b.len(),
{
    if b.len() == 0 {
        0
    } else {
        b[0] as nat + 256 * little_endian(b.drop_first())
    }
}

/// A hasher that hashes a key to the number its first eight bytes spell,
/// least significant byte first; a key that is a number's eight little-endian
/// bytes hashes to that number.
pub struct LittleEndianHasher;

proof fn lemma_little_endian_bound(b: Seq<u8>)
    ensures
        little_endian(b) < pow256(b.len()),
    decreases b.len(),
{
    if b.len() > 0 {
        lemma_little_endian_bound(b.drop_first());
        assert(pow256(b.len()) == 256 * pow256(b.drop_first().len()));
    }
}

/// `256` to the power `n`.
pub open spec fn pow256(n: nat) -> nat
    decreases n,
{
    if n == 0 {
        1
    } else {
        256 * pow256((n - 1) as nat)
    }
}

impl KeyHasher for LittleEndianHasher {
    open spec fn spec_hash(&self, key: Seq<u8>) -> u64 {
        little_endian(key.take(if key.len() < 8 {
            key.len() as int
        } else {
            8
        })) as u64
    }

    fn hash_key(&self, key: &[u8]) -> (h: u64) {
        let n: usize = if key.len() < 8 {
            key.len()
        } else {
            8
        };
        let ghost prefix = key@.take(n as int);
        let mut value: u64 = 0;
        let mut i: usize = n;
        proof {
            assert(prefix.skip(n as int) =~= Seq::<u8>::empty());
        }
        while i > 0
            invariant
                i <= n <= 8,
                n <= key@.len(),
                prefix == key@.take(n as int),
                value == little_endian(prefix.skip(i as int)),
                little_endian(prefix.skip(i as int)) < pow256((n - i) as nat),
            decreases i,
        {
            i -= 1;
            proof {
                assert(prefix.skip(i as int).drop_first() =~= prefix.skip(i + 1));
                assert(prefix.skip(i as int)[0] == key@[i as int]);
                lemma_little_endian_bound(prefix.skip(i as int));
                assert(pow256(8) == 0x1_0000_0000_0000_0000) by {
                    reveal_with_fuel(pow256, 9);
                }
                lemma_pow256_mono((n - i) as nat, 8);
            }
            value = key[i] as u64 + 256 * value;
        }
        proof {
            assert(prefix.skip(0) =~= prefix);
        }
        value
    }
}

proof fn lemma_pow256_mono(a: nat, b: nat)
    requires
        a <= b,
    ensures
        pow256(a) <= pow256(b),
    decreases b,
{
    if a < b {
        lemma_pow256_mono(a, (b - 1) as nat);
    }
}

} // verus!
