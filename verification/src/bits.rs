//! Mathematical model of bit sequences.
//!
//! The codec's binary format is specified as a `Seq<bool>` of bits in
//! big-endian order. This module defines the bit pattern of an integer, the
//! integer a bit sequence stands for, and the lemmas connecting the two.

use vstd::prelude::*;

verus! {

use vstd::arithmetic::power2::{pow2, lemma_pow2_unfold, lemma_pow2_pos, lemma2_to64};
use vstd::arithmetic::div_mod::{lemma_mod_breakdown, lemma_small_mod};
use vstd::bits::{lemma_u64_shr_is_div, lemma_u64_low_bits_mask_is_mod};

/// The big-endian bit pattern of the low `n` bits of `v`.
pub open spec fn u64_bits(v: u64, n: nat) -> Seq<bool>
    recommends
        n <= 64,
{
    Seq::new(n, |i: int| (v >> ((n - 1 - i) as u64)) & 1 == 1)
}

/// The natural number a big-endian bit sequence stands for.
pub open spec fn bits_val(s: Seq<bool>) -> nat
    decreases s.len(),
{
    if s.len() == 0 {
        0
    } else {
        (2 * bits_val(s.drop_last()) + if s.last() {
            1nat
        } else {
            0nat
        }) as nat
    }
}

/// Appending one bit doubles the value and adds the bit.
pub proof fn lemma_bits_val_push(s: Seq<bool>, b: bool)
    ensures
        bits_val(s.push(b)) == 2 * bits_val(s) + if b {
            1nat
        } else {
            0nat
        },
{
    assert(s.push(b).drop_last() =~= s);
    assert(s.push(b).last() == b);
}

/// The bit pattern of `v` over `n` bits, dropping its last bit, is the
/// pattern of `v / 2` over `n - 1` bits.
proof fn lemma_u64_bits_unfold(v: u64, n: nat)
    requires
        1 <= n <= 64,
    ensures
        u64_bits(v, n).drop_last() =~= u64_bits(v >> 1u64, (n - 1) as nat),
        u64_bits(v, n).last() == ((v & 1) == 1),
{
    let a = u64_bits(v, n).drop_last();
    let b = u64_bits(v >> 1u64, (n - 1) as nat);
    assert forall|i: int| 0 <= i < n - 1 implies a[i] == b[i] by {
        let sh = (n - 1 - i - 1) as u64;
        assert(sh <= 62 ==> (((v >> 1u64) >> sh) & 1 == (v >> ((sh + 1) as u64)) & 1)) by (bit_vector);
    }
    assert((v >> 0u64) & 1 == v & 1) by (bit_vector);
}

/// A bit pattern of `n` bits decodes back to the encoded value modulo `2^n`.
pub proof fn lemma_bits_val_of_u64_bits(v: u64, n: nat)
    requires
        n <= 64,
    ensures
        bits_val(u64_bits(v, n)) == v as nat % pow2(n),
    decreases n,
{
    if n == 0 {
        assert(pow2(0) == 1) by {
            lemma2_to64();
        }
    } else {
        lemma_u64_bits_unfold(v, n);
        lemma_bits_val_of_u64_bits(v >> 1u64, (n - 1) as nat);
        lemma_u64_shr_is_div(v, 1u64);
        assert(pow2(1) == 2) by {
            lemma2_to64();
        }
        assert(v & 1 == v % 2) by {
            lemma_u64_low_bits_mask_is_mod(v, 1);
            assert(vstd::bits::low_bits_mask(1) == 1) by {
                vstd::bits::lemma_low_bits_mask_values();
            }
        }
        lemma_pow2_pos((n - 1) as nat);
        lemma_pow2_unfold(n);
        lemma_mod_breakdown(v as int, 2, pow2((n - 1) as nat) as int);
        assert(bits_val(u64_bits(v, n)) == 2 * ((v as nat / 2) % pow2((n - 1) as nat)) + (v % 2));
    }
}

/// A value below `2^n` decodes back exactly.
pub proof fn lemma_bits_val_exact(v: u64, n: nat)
    requires
        n <= 64,
        v < pow2(n),
    ensures
        bits_val(u64_bits(v, n)) == v,
{
    lemma_bits_val_of_u64_bits(v, n);
    lemma_small_mod(v as nat, pow2(n));
}

/// `pow2(64)` exceeds every `u64`, so a full-width pattern is always exact.
pub proof fn lemma_u64_lt_pow2_64(v: u64)
    ensures
        v < pow2(64),
{
    lemma2_to64();
    vstd::arithmetic::power2::lemma2_to64_rest();
}

} // verus!
