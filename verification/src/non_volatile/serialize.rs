//! Little-endian reads and writes of raw bytes, done by the `bytes` crate.

use bytes::{Buf, BufMut};
use vstd::bytes::*;
use vstd::prelude::*;

verus! {

/// `bytes::Buf::get_u64_le` on the slice that starts at `pos`: reads the
/// eight bytes there as a little-endian `u64`. It panics when fewer than
/// eight bytes remain, which the precondition leaves out.
#[verifier::external_body]
pub(crate) fn get_u64_le(bytes: &[u8], pos: usize) -> (x: u64)
    requires
        pos + 8 <= bytes@.len(),
    ensures
        x == spec_u64_from_le_bytes(bytes@.subrange(pos as int, pos + 8)),
{
    let mut buf: &[u8] = &bytes[pos..];
    buf.get_u64_le()
}

/// `bytes::Buf::copy_to_slice` into an eight-byte array, from the slice
/// that starts at `pos`: copies the eight bytes there. It panics when fewer
/// than eight bytes remain, which the precondition leaves out.
#[verifier::external_body]
pub(crate) fn copy_to_array8(bytes: &[u8], pos: usize) -> (a: [u8; 8])
    requires
        pos + 8 <= bytes@.len(),
    ensures
        a@ == bytes@.subrange(pos as int, pos + 8),
{
    let mut buf: &[u8] = &bytes[pos..];
    let mut a = [0u8; 8];
    buf.copy_to_slice(&mut a);
    a
}

/// `bytes::BufMut::put_u64_le` on a `Vec<u8>`: appends the eight
/// little-endian bytes of `x`.
#[verifier::external_body]
pub(crate) fn put_u64_le(buf: &mut Vec<u8>, x: u64)
    ensures
        final(buf)@ == old(buf)@ + spec_u64_to_le_bytes(x),
{
    buf.put_u64_le(x)
}

/// `bytes::BufMut::put_slice` on a `Vec<u8>`: appends the bytes of `src`.
#[verifier::external_body]
pub(crate) fn put_slice(buf: &mut Vec<u8>, src: &[u8])
    ensures
        final(buf)@ == old(buf)@ + src@,
{
    buf.put_slice(src)
}

/// Why a writer could not hand out the bytes asked for.
#[derive(Debug, Clone, Copy, PartialEq, Eq, Structural)]
pub enum ZeroCopyError {
    /// Fewer bytes are left in the buffer than asked for.
    WriteZero,
}

/// Where a writer at `position` in a buffer of `buf_len` bytes puts the
/// next `len` bytes: it moves on to `position + len` in any case, and hands
/// out the range from `position` to `position + len` when the buffer holds
/// it, else `WriteZero`. A position past the end of the address space
/// overflows, and is left out by the precondition.
pub fn zero_copy_window(position: u64, len: u64, buf_len: usize) -> (r: (
    u64,
    Result<(usize, usize), ZeroCopyError>,
))
    requires
        position + len <= u64::MAX,
        position + len <= usize::MAX,
    ensures
        r.0 == position + len,
        position + len <= buf_len ==> r.1 == Ok::<(usize, usize), ZeroCopyError>(
            (position as usize, (position + len) as usize),
        ),
        position + len > buf_len ==> r.1 == Err::<(usize, usize), ZeroCopyError>(
            ZeroCopyError::WriteZero,
        ),
{
    let next = position + len;
    let start = position as usize;
    let end = next as usize;
    if end <= buf_len {
        (next, Ok((start, end)))
    } else {
        (next, Err(ZeroCopyError::WriteZero))
    }
}

} // verus!
