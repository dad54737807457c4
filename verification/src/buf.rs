//! Bounds-checked byte-buffer access: every page field is read and written
//! through these helpers, which state exactly which bytes each write touches.

use vstd::prelude::*;
use vstd::bytes::{
    lemma_auto_spec_u32_to_from_le_bytes, spec_u32_from_le_bytes, spec_u32_to_le_bytes,
    u32_from_le_bytes, u32_to_le_bytes,
};

verus! {

/// The little-endian unsigned 32-bit field stored at byte offset `off` of `b`.
pub open spec fn u32_at(b: Seq<u8>, off: int) -> u32 {
    spec_u32_from_le_bytes(b.subrange(off, off + 4))
}

/// Two buffers of equal length that agree on every byte outside `[lo, hi)`.
pub open spec fn bytes_eq_except(a: Seq<u8>, b: Seq<u8>, lo: int, hi: int) -> bool {
    &&& a.len() == b.len()
    &&& forall|i: int| 0 <= i < a.len() && !(lo <= i < hi) ==> a[i] == b[i]
}

/// A 32-bit field wholly outside the changed range is unchanged.
pub proof fn lemma_u32_at_frame(a: Seq<u8>, b: Seq<u8>, lo: int, hi: int, off: int)
    requires
        bytes_eq_except(a, b, lo, hi),
        0 <= off,
        off + 4 <= a.len(),
        off + 4 <= lo || hi <= off,
    ensures
        u32_at(b, off) == u32_at(a, off),
{
    assert(b.subrange(off, off + 4) =~= a.subrange(off, off + 4));
}

/// A byte range wholly outside the changed range is unchanged.
pub proof fn lemma_range_frame(a: Seq<u8>, b: Seq<u8>, lo: int, hi: int, s: int, e: int)
    requires
        bytes_eq_except(a, b, lo, hi),
        0 <= s <= e,
        e <= a.len(),
        e <= lo || hi <= s,
    ensures
        b.subrange(s, e) == a.subrange(s, e),
{
    assert(b.subrange(s, e) =~= a.subrange(s, e));
}

/// Read the little-endian u32 stored at `off`.
pub fn read_u32_at(buf: &Vec<u8>, off: usize) -> (r: u32)
    requires
        off + 4 <= buf.len(),
    ensures
        r == u32_at(buf@, off as int),
{
    let s: &[u8] = &buf.as_slice()[off..off + 4];
    u32_from_le_bytes(s)
}

/// Store `v` at `off` as four little-endian bytes; no other byte changes.
pub fn write_u32_at(buf: &mut Vec<u8>, off: usize, v: u32)
    requires
        off + 4 <= old(buf).len(),
    ensures
        final(buf)@.len() == old(buf)@.len(),
        final(buf)@.subrange(off as int, off as int + 4) == spec_u32_to_le_bytes(v),
        u32_at(final(buf)@, off as int) == v,
        bytes_eq_except(old(buf)@, final(buf)@, off as int, off as int + 4),
{
    proof {
        lemma_auto_spec_u32_to_from_le_bytes();
    }
    let bytes = u32_to_le_bytes(v);
    buf[off] = bytes[0];
    buf[off + 1] = bytes[1];
    buf[off + 2] = bytes[2];
    buf[off + 3] = bytes[3];
    proof {
        assert(buf@.subrange(off as int, off as int + 4) =~= spec_u32_to_le_bytes(v));
    }
}

/// Copy `len` bytes starting at `off` out of `buf` into a fresh buffer.
pub fn read_bytes(buf: &Vec<u8>, off: usize, len: usize) -> (r: Vec<u8>)
    requires
        off + len <= buf.len(),
    ensures
        r@ == buf@.subrange(off as int, off as int + len as int),
{
    let mut r: Vec<u8> = Vec::new();
    let mut i: usize = 0;
    while i < len
        invariant
            off + len <= buf.len(),
            i <= len,
            r@ =~= buf@.subrange(off as int, off as int + i as int),
        decreases len - i,
    {
        r.push(buf[off + i]);
        i = i + 1;
    }
    proof {
        assert(r@ =~= buf@.subrange(off as int, off as int + len as int));
    }
    r
}

/// Copy all of `src` into `buf` starting at `off`; no other byte changes.
pub fn write_bytes_at(buf: &mut Vec<u8>, off: usize, src: &Vec<u8>)
    requires
        off + src.len() <= old(buf).len(),
    ensures
        final(buf)@.len() == old(buf)@.len(),
        final(buf)@.subrange(off as int, off as int + src@.len() as int) == src@,
        bytes_eq_except(old(buf)@, final(buf)@, off as int, off as int + src@.len() as int),
{
    let len = src.len();
    let mut i: usize = 0;
    while i < len
        invariant
            len == src@.len(),
            off + len <= buf.len(),
            buf@.len() == old(buf)@.len(),
            i <= len,
            forall|j: int| 0 <= j < i ==> buf@[off as int + j] == src@[j],
            forall|j: int|
                0 <= j < buf@.len() && !(off <= j < off + len) ==> buf@[j] == old(buf)@[j],
        decreases len - i,
    {
        buf[off + i] = src[i];
        i = i + 1;
    }
    proof {
        assert(buf@.subrange(off as int, off as int + src@.len() as int) =~= src@);
    }
}

} // verus!
