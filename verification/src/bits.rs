use vstd::prelude::*;
use vstd::std_specs::bits::axiom_u64_trailing_zeros;

verus! {

/// What `trailing_zeros` gives: at most 64, 64 only for zero, and otherwise a
/// power of two that does not exceed the number.
pub proof fn lemma_trailing_zeros_facts(x: u64)
    ensures
        x.trailing_zeros() <= 64,
        x == 0 <==> x.trailing_zeros() == 64,
        x != 0 ==> (1u64 << x.trailing_zeros()) <= x,
{
    axiom_u64_trailing_zeros(x);
    if x != 0 {
        let t = x.trailing_zeros();
        assert((x >> (t as u64)) & 1u64 == 1u64);
        assert((x >> (t as u64)) & 1u64 == 1u64 && t < 64 ==> (1u64 << t) <= x) by (bit_vector);
    }
}

/// The mask of the `trailing_zeros(n)` low bits is below `n`.
pub proof fn lemma_low_mask_lt(n: u64, bits: u32)
    requires
        n != 0,
        bits == n.trailing_zeros(),
    ensures
        bits < 64,
        1u64 << bits >= 1,
        ((1u64 << bits) - 1) < n,
{
    lemma_trailing_zeros_facts(n);
    assert(bits < 64 ==> 1u64 << bits >= 1) by (bit_vector);
}

/// Masking never gives more than the mask.
pub proof fn lemma_and_le_mask(x: u64, mask: u64)
    ensures
        x & mask <= mask,
{
    assert(x & mask <= mask) by (bit_vector);
}

/// A number is fixed by its `k` low bits and by what lies above them.
pub proof fn lemma_low_high_determine(a: u64, b: u64, k: u32)
    requires
        k < 64,
        a & (((1u64 << k) - 1) as u64) == b & (((1u64 << k) - 1) as u64),
        a >> k == b >> k,
    ensures
        a == b,
{
    assert(k < 64 && a & (((1u64 << k) - 1) as u64) == b & (((1u64 << k) - 1) as u64) && a >> k == b >> k
        ==> a == b) by (bit_vector);
}

/// The trailing zeros of a power of two count its exponent.
pub proof fn lemma_pow2_trailing_zeros(k: u32)
    requires
        k < 64,
    ensures
        (1u64 << k).trailing_zeros() == k,
{
    let n: u64 = 1u64 << k;
    axiom_u64_trailing_zeros(n);
    let t = n.trailing_zeros();
    assert(k < 64 ==> (1u64 << k) != 0) by (bit_vector);
    assert(t < 64);
    let t64 = t as u64;
    if t < k {
        assert(k < 64 && t64 < k as u64 ==> ((1u64 << k) >> t64) & 1u64 == 0u64) by (bit_vector);
    } else if t > k {
        let k64 = k as u64;
        assert(((n >> k64) & 1u64) == 0u64);
        assert(k < 64 ==> ((1u64 << k) >> (k as u64)) & 1u64 == 1u64) by (bit_vector);
    }
}

/// Masking with the `k` low bits leaves the remainder by `2^k`.
pub proof fn lemma_low_mask_is_mod(x: u64, k: u32)
    requires
        k < 64,
    ensures
        x & (((1u64 << k) - 1) as u64) == x % (1u64 << k),
{
    let k64 = k as u64;
    vstd::bits::lemma_u64_pow2_no_overflow(k as nat);
    vstd::bits::lemma_u64_shl_is_mul(1u64, k64);
    assert((1u64 << k) == (1u64 << k64)) by (bit_vector)
        requires
            k64 == k as u64,
    ;
    vstd::bits::lemma_u64_low_bits_mask_is_mod(x, k as nat);
}

} // verus!
