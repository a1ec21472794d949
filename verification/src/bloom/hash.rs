//! Hash functions for Bloom filter operations.
use vstd::prelude::*;

verus! {

/// The 64-bit FNV prime.
pub const FNV_PRIME: u64 = 0x0100_0000_01b3;

/// The standard 64-bit FNV-1a offset basis.
pub const FNV_OFFSET_BASIS: u64 = 0xCBF2_9CE4_8422_2325;

/// The offset basis of the alternative FNV-1a variant.
pub const FNV_ALT_OFFSET: u64 = 0x1465_0FB0_739D_0383;

/// FNV-1a over `data`, started from `seed`: for each byte, xor it into the
/// state, then multiply by the FNV prime modulo 2^64.
pub open spec fn fnv1a_from(seed: u64, data: Seq<u8>) -> u64
    decreases data.len(),
{
    if data.len() == 0 {
        seed
    } else {
        (fnv1a_from(seed, data.drop_last()) ^ (data.last() as u64)).wrapping_mul(FNV_PRIME)
    }
}

/// The index that double hashing gives for probe `n`: `(h1 + n * h2) mod 2^64`,
/// reduced modulo `num_bits`.
pub open spec fn nth_hash_spec(h1: u64, h2: u64, n: u32, num_bits: usize) -> int {
    ((h1 as int + (n as int) * (h2 as int)) % 0x1_0000_0000_0000_0000) % (num_bits as int)
}

/// Calls `hashkit::fnv::fnv1a_64`, the standard 64-bit FNV-1a hash
/// (offset basis 0xCBF29CE484222325, prime 0x100000001B3). Its source is the
/// three-line fold that `fnv1a_from` states, which is what is claimed here.
#[verifier::external_body]
fn hashkit_fnv1a_64(data: &[u8]) -> (h: u64)
    ensures
        h == fnv1a_from(FNV_OFFSET_BASIS, data@),
{
    hashkit::fnv::fnv1a_64(data)
}

/// 64-bit FNV-1a hash (delegated to hashkit for consistency).
pub fn hash_fnv1a(data: &[u8]) -> (h: u64)
    ensures
        h == fnv1a_from(FNV_OFFSET_BASIS, data@),
{
    hashkit_fnv1a_64(data)
}

/// 64-bit FNV-1a variant with different offset.
pub fn hash_fnv1a_alt(data: &[u8]) -> (h: u64)
    ensures
        h == fnv1a_from(FNV_ALT_OFFSET, data@),
{
    let mut hash: u64 = FNV_ALT_OFFSET;
    let mut i: usize = 0;
    while i < data.len()
        invariant
            i <= data.len(),
            hash == fnv1a_from(FNV_ALT_OFFSET, data@.take(i as int)),
        decreases data.len() - i,
    {
        let byte = data[i];
        proof {
            assert(data@.take(i + 1).drop_last() =~= data@.take(i as int));
        }
        hash = hash ^ (byte as u64);
        hash = hash.wrapping_mul(FNV_PRIME);
        i = i + 1;
    }
    proof {
        assert(data@.take(data.len() as int) =~= data@);
    }
    hash
}

/// Generate hash pair using two independent 64-bit hashes.
pub fn hash_pair(item: &[u8]) -> (p: (u64, u64))
    ensures
        p.0 == fnv1a_from(FNV_OFFSET_BASIS, item@),
        p.1 == fnv1a_from(FNV_ALT_OFFSET, item@),
{
    (hash_fnv1a(item), hash_fnv1a_alt(item))
}

/// Compute nth hash using double hashing: h1 + n*h2 mod m.
///
/// The sum is reduced modulo the bit count in full 64-bit space before the
/// cast, so the result is always below `num_bits`.
pub fn nth_hash(h1: u64, h2: u64, n: u32, num_bits: usize) -> (idx: usize)
    requires
        num_bits > 0,
    ensures
        idx == nth_hash_spec(h1, h2, n, num_bits),
        idx < num_bits,
{
    let n64 = n as u64;
    let idx = h1.wrapping_add(n64.wrapping_mul(h2));
    let m = num_bits as u64;
    let r = idx % m;
    proof {
        lemma_wrapping_double_hash(h1, h2, n64);
    }
    r as usize
}

proof fn lemma_wrapping_double_hash(h1: u64, h2: u64, n: u64)
    ensures
        h1.wrapping_add(n.wrapping_mul(h2)) as int
            == (h1 as int + (n as int) * (h2 as int)) % 0x1_0000_0000_0000_0000,
{
    let m: int = 0x1_0000_0000_0000_0000;
    let p = (n as int) * (h2 as int);
    assert(n.wrapping_mul(h2) as int == p % m);
    vstd::arithmetic::div_mod::lemma_add_mod_noop(h1 as int, p, m);
    vstd::arithmetic::div_mod::lemma_mod_twice(h1 as int, m);
    vstd::arithmetic::div_mod::lemma_small_mod(h1 as nat, m as nat);
}

/// FNV-1a is a fold over the bytes: hashing `a` then `b` from a seed is
/// hashing `b` from the state that hashing `a` left.
pub proof fn law_fnv1a_is_a_fold(seed: u64, a: Seq<u8>, b: Seq<u8>)
    ensures
        fnv1a_from(seed, a + b) == fnv1a_from(fnv1a_from(seed, a), b),
    decreases b.len(),
{
    if b.len() == 0 {
        assert(a + b =~= a);
    } else {
        law_fnv1a_is_a_fold(seed, a, b.drop_last());
        assert((a + b).drop_last() =~= a + b.drop_last());
        assert((a + b).last() == b.last());
    }
}

} // verus!
