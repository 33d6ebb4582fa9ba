//! Single-bit views of 64-bit words, and the word-level facts the frame
//! bitmap needs.

use vstd::prelude::*;

verus! {

/// Bit `j` of word `w`, counting from the least-significant end.
pub open spec fn bit_set(w: u64, j: u64) -> bool {
    (w >> j) & 1u64 == 1u64
}

/// The word whose bits below `n` are 1 and whose other bits are 0.
pub open spec fn low_mask(n: u64) -> u64 {
    if n >= 64 {
        0xffff_ffff_ffff_ffffu64
    } else {
        ((1u64 << n) - 1) as u64
    }
}

/// Setting bit `j` makes it 1 and leaves every other bit alone.
pub proof fn lemma_set_bit(w: u64, j: u64, k: u64)
    by (bit_vector)
    requires
        j < 64,
        k < 64,
    ensures
        bit_set(w | (1u64 << j), j),
        k != j ==> bit_set(w | (1u64 << j), k) == bit_set(w, k),
{
}

/// Clearing bit `j` makes it 0 and leaves every other bit alone.
pub proof fn lemma_clear_bit(w: u64, j: u64, k: u64)
    by (bit_vector)
    requires
        j < 64,
        k < 64,
    ensures
        !bit_set(w & !(1u64 << j), j),
        k != j ==> bit_set(w & !(1u64 << j), k) == bit_set(w, k),
{
}

/// A masked-out bit is either 0 or 1.
pub proof fn lemma_bit_is_zero_or_one(w: u64, j: u64)
    by (bit_vector)
    ensures
        (w >> j) & 1u64 == 0u64 || (w >> j) & 1u64 == 1u64,
{
}

/// Every bit of the all-ones word is 1.
pub proof fn lemma_all_ones_bit(k: u64)
    by (bit_vector)
    requires
        k < 64,
    ensures
        bit_set(0xffff_ffff_ffff_ffffu64, k),
{
}

proof fn lemma_low_mask_split(x: u64, n: u64)
    by (bit_vector)
    requires
        n < 64,
    ensures
        x & low_mask((n + 1) as u64) == (x & low_mask(n)) | (x & (1u64 << n)),
{
}

proof fn lemma_equal_bit_equal_and(a: u64, b: u64, n: u64)
    by (bit_vector)
    requires
        n < 64,
        (a >> n) & 1u64 == (b >> n) & 1u64,
    ensures
        a & (1u64 << n) == b & (1u64 << n),
{
}

proof fn lemma_low_eq(a: u64, b: u64, n: u64)
    requires
        n <= 64,
        forall|k: u64| k < n ==> bit_set(a, k) == bit_set(b, k),
    ensures
        a & low_mask(n) == b & low_mask(n),
    decreases n,
{
    if n == 0 {
        assert(a & low_mask(0) == b & low_mask(0)) by (bit_vector);
    } else {
        lemma_low_eq(a, b, (n - 1) as u64);
        assert(bit_set(a, (n - 1) as u64) == bit_set(b, (n - 1) as u64));
        assert((a >> ((n - 1) as u64)) & 1u64 == (b >> ((n - 1) as u64)) & 1u64) by (bit_vector)
            requires
                ((a >> ((n - 1) as u64)) & 1u64 == 1u64) == ((b >> ((n - 1) as u64)) & 1u64
                    == 1u64),
        ;
        lemma_equal_bit_equal_and(a, b, (n - 1) as u64);
        lemma_low_mask_split(a, (n - 1) as u64);
        lemma_low_mask_split(b, (n - 1) as u64);
    }
}

/// Two words that agree on all 64 bits are equal.
pub proof fn lemma_word_eq_from_bits(a: u64, b: u64)
    requires
        forall|k: u64| k < 64 ==> bit_set(a, k) == bit_set(b, k),
    ensures
        a == b,
{
    lemma_low_eq(a, b, 64);
    assert(a & low_mask(64) == a) by (bit_vector);
    assert(b & low_mask(64) == b) by (bit_vector);
}

/// Splitting a flat bit index into a word index and a bit position.
pub proof fn lemma_word_bit_index(w: int, k: int)
    requires
        0 <= w,
        0 <= k < 64,
    ensures
        (w * 64 + k) / 64 == w,
        (w * 64 + k) % 64 == k,
{
    vstd::arithmetic::div_mod::lemma_fundamental_div_mod_converse_div(w * 64 + k, 64, w, k);
    vstd::arithmetic::div_mod::lemma_fundamental_div_mod_converse_mod(w * 64 + k, 64, w, k);
}

} // verus!
