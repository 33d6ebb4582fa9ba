//! Little-endian integer fields inside byte buffers: the fixed-record
//! decoding the ELF64 views rely on, and the encoding the stack image
//! writer uses.

use vstd::prelude::*;

verus! {

/// The little-endian 16-bit value stored at `off`.
pub open spec fn le_u16(s: Seq<u8>, off: int) -> int {
    s[off] + 0x100 * s[off + 1]
}

/// The little-endian 32-bit value stored at `off`.
pub open spec fn le_u32(s: Seq<u8>, off: int) -> int {
    s[off] + 0x100 * s[off + 1] + 0x1_0000 * s[off + 2] + 0x100_0000 * s[off + 3]
}

/// The little-endian 64-bit value stored at `off`.
pub open spec fn le_u64(s: Seq<u8>, off: int) -> int {
    le_u32(s, off) + 0x1_0000_0000 * le_u32(s, off + 4)
}

/// Read the little-endian 16-bit field at `off`.
pub fn read_u16(buf: &[u8], off: usize) -> (r: u16)
    requires
        off + 2 <= buf@.len(),
    ensures
        r == le_u16(buf@, off as int),
{
    let b0: u16 = buf[off] as u16;
    let b1: u16 = buf[off + 1] as u16;
    b0 + b1 * 0x100
}

/// Read the little-endian 32-bit field at `off`.
pub fn read_u32(buf: &[u8], off: usize) -> (r: u32)
    requires
        off + 4 <= buf@.len(),
    ensures
        r == le_u32(buf@, off as int),
{
    let b0: u32 = buf[off] as u32;
    let b1: u32 = buf[off + 1] as u32;
    let b2: u32 = buf[off + 2] as u32;
    let b3: u32 = buf[off + 3] as u32;
    b0 + b1 * 0x100 + b2 * 0x1_0000 + b3 * 0x100_0000
}

/// Read the little-endian 64-bit field at `off`.
pub fn read_u64(buf: &[u8], off: usize) -> (r: u64)
    requires
        off + 8 <= buf@.len(),
    ensures
        r == le_u64(buf@, off as int),
{
    let n: usize = buf.len();
    let lo: u32 = read_u32(buf, off);
    let hi: u32 = read_u32(buf, off + 4);
    proof {
        vstd::arithmetic::mul::lemma_mul_inequality(hi as int, 0xFFFF_FFFF, 0x1_0000_0000);
    }
    (lo as u64) + (hi as u64) * 0x1_0000_0000
}

/// The byte at little-endian position `k` of `val`.
pub open spec fn u64_byte(val: u64, k: int) -> u8 {
    ((val >> (8 * k as u64)) & 0xff) as u8
}

proof fn lemma_u64_bytes_bound(val: u64, sh: u64)
    by (bit_vector)
    ensures
        (val >> sh) & 0xff < 0x100,
{
}

proof fn lemma_u64_from_bytes(val: u64)
    by (bit_vector)
    ensures
        ((val >> 0) & 0xff) + 0x100 * ((val >> 8) & 0xff) + 0x1_0000 * ((val >> 16) & 0xff)
            + 0x100_0000 * ((val >> 24) & 0xff) + 0x1_0000_0000 * (((val >> 32) & 0xff) + 0x100 * ((
        val >> 40) & 0xff) + 0x1_0000 * ((val >> 48) & 0xff) + 0x100_0000 * ((val >> 56) & 0xff))
            == val,
{
}

/// Store `val` as eight little-endian bytes at `off`, leaving every other
/// byte of the buffer unchanged.
pub fn write_u64(buf: &mut Vec<u8>, off: usize, val: u64)
    requires
        off + 8 <= old(buf)@.len(),
    ensures
        final(buf)@.len() == old(buf)@.len(),
        le_u64(final(buf)@, off as int) == val,
        forall|j: int|
            0 <= j < final(buf)@.len() && !(off <= j < off + 8) ==> final(buf)@[j] == old(buf)@[j],
        forall|k: int| 0 <= k < 8 ==> final(buf)@[off + k] == u64_byte(val, k),
{
    let ghost orig = buf@;
    let buf_len: usize = buf.len();
    let mut k: usize = 0;
    while k < 8
        invariant
            k <= 8,
            off + 8 <= orig.len(),
            buf_len == orig.len(),
            buf@.len() == orig.len(),
            forall|j: int| 0 <= j < orig.len() && !(off <= j < off + k) ==> buf@[j] == orig[j],
            forall|x: int| 0 <= x < k ==> buf@[off + x] == u64_byte(val, x),
        decreases 8 - k,
    {
        let sh: u64 = 8 * (k as u64);
        let b: u8 = ((val >> sh) & 0xff) as u8;
        proof {
            lemma_u64_bytes_bound(val, sh);
        }
        buf[off + k] = b;
        k = k + 1;
    }
    proof {
        lemma_u64_from_bytes(val);
        lemma_u64_bytes_bound(val, 0);
        lemma_u64_bytes_bound(val, 8);
        lemma_u64_bytes_bound(val, 16);
        lemma_u64_bytes_bound(val, 24);
        lemma_u64_bytes_bound(val, 32);
        lemma_u64_bytes_bound(val, 40);
        lemma_u64_bytes_bound(val, 48);
        lemma_u64_bytes_bound(val, 56);
        assert(buf@[off + 0] == u64_byte(val, 0));
        assert(buf@[off + 1] == u64_byte(val, 1));
        assert(buf@[off + 2] == u64_byte(val, 2));
        assert(buf@[off + 3] == u64_byte(val, 3));
        assert(buf@[off + 4] == u64_byte(val, 4));
        assert(buf@[off + 5] == u64_byte(val, 5));
        assert(buf@[off + 6] == u64_byte(val, 6));
        assert(buf@[off + 7] == u64_byte(val, 7));
        assert(buf@[off as int] as int == (val >> 0) & 0xff);
        assert(buf@[off + 1] as int == (val >> 8) & 0xff);
        assert(buf@[off + 2] as int == (val >> 16) & 0xff);
        assert(buf@[off + 3] as int == (val >> 24) & 0xff);
        assert(buf@[off + 4] as int == (val >> 32) & 0xff);
        assert(buf@[off + 5] as int == (val >> 40) & 0xff);
        assert(buf@[off + 6] as int == (val >> 48) & 0xff);
        assert(buf@[off + 7] as int == (val >> 56) & 0xff);
    }
}

} // verus!
