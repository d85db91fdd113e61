//! Little-endian integer fields inside byte buffers.
//!
//! All on-disk multi-byte integers in this format are little-endian; these
//! helpers read a field at a byte offset and append a field to a buffer
//! under construction.

use vstd::prelude::*;
use vstd::bytes::spec_u16_from_le_bytes;
use vstd::bytes::spec_u16_to_le_bytes;
use vstd::bytes::spec_u32_from_le_bytes;
use vstd::bytes::spec_u32_to_le_bytes;
use vstd::bytes::spec_u64_from_le_bytes;
use vstd::bytes::spec_u64_to_le_bytes;
use vstd::bytes::u16_from_le_bytes;
use vstd::bytes::u16_to_le_bytes;
use vstd::bytes::u32_from_le_bytes;
use vstd::bytes::u32_to_le_bytes;
use vstd::bytes::u64_from_le_bytes;
use vstd::bytes::u64_to_le_bytes;
use vstd::slice::slice_subrange;

verus! {

/// Reads the little-endian `u16` at `offset`.
pub fn read_u16(bytes: &[u8], offset: usize) -> (x: u16)
    requires
        offset + 2 <= bytes@.len(),
    ensures
        x == spec_u16_from_le_bytes(bytes@.subrange(offset as int, offset + 2)),
{
    let _blen: usize = bytes.len();
    u16_from_le_bytes(slice_subrange(bytes, offset, offset + 2))
}

/// Reads the little-endian `u32` at `offset`.
pub fn read_u32(bytes: &[u8], offset: usize) -> (x: u32)
    requires
        offset + 4 <= bytes@.len(),
    ensures
        x == spec_u32_from_le_bytes(bytes@.subrange(offset as int, offset + 4)),
{
    let _blen: usize = bytes.len();
    u32_from_le_bytes(slice_subrange(bytes, offset, offset + 4))
}

/// Reads the little-endian `u64` at `offset`.
pub fn read_u64(bytes: &[u8], offset: usize) -> (x: u64)
    requires
        offset + 8 <= bytes@.len(),
    ensures
        x == spec_u64_from_le_bytes(bytes@.subrange(offset as int, offset + 8)),
{
    let _blen: usize = bytes.len();
    u64_from_le_bytes(slice_subrange(bytes, offset, offset + 8))
}

/// Appends the two little-endian bytes of `x`.
pub fn push_u16(out: &mut Vec<u8>, x: u16)
    ensures
        final(out)@ == old(out)@ + spec_u16_to_le_bytes(x),
{
    let mut field: Vec<u8> = u16_to_le_bytes(x);
    out.append(&mut field);
}

/// Appends the four little-endian bytes of `x`.
pub fn push_u32(out: &mut Vec<u8>, x: u32)
    ensures
        final(out)@ == old(out)@ + spec_u32_to_le_bytes(x),
{
    let mut field: Vec<u8> = u32_to_le_bytes(x);
    out.append(&mut field);
}

/// Appends the eight little-endian bytes of `x`.
pub fn push_u64(out: &mut Vec<u8>, x: u64)
    ensures
        final(out)@ == old(out)@ + spec_u64_to_le_bytes(x),
{
    let mut field: Vec<u8> = u64_to_le_bytes(x);
    out.append(&mut field);
}

/// A run of `n` zero bytes.
pub open spec fn zero_bytes(n: nat) -> Seq<u8> {
    Seq::new(n, |i: int| 0u8)
}

/// Appends `n` zero bytes (reserved regions of the on-disk structures).
pub fn push_zeros(out: &mut Vec<u8>, n: usize)
    requires
        old(out)@.len() + n <= usize::MAX,
    ensures
        final(out)@ == old(out)@ + zero_bytes(n as nat),
{
    let mut i: usize = 0;
    while i < n
        invariant
            i <= n,
            out@ == old(out)@ + zero_bytes(i as nat),
        decreases n - i,
    {
        out.push(0u8);
        i = i + 1;
        proof {
            assert(out@ =~= old(out)@ + zero_bytes(i as nat));
        }
    }
    proof {
        assert(out@ =~= old(out)@ + zero_bytes(n as nat));
    }
}

} // verus!
