//! Little-endian integers in byte buffers.

use scroll::{Pread, Pwrite};
use vstd::prelude::*;

verus! {

/// The 16-bit value whose little-endian encoding starts at `offset`.
pub open spec fn le_u16(bytes: Seq<u8>, offset: int) -> int {
    bytes[offset] as int + 0x100 * (bytes[offset + 1] as int)
}

/// The 32-bit value whose little-endian encoding starts at `offset`.
pub open spec fn le_u32(bytes: Seq<u8>, offset: int) -> int {
    bytes[offset] as int + 0x100 * (bytes[offset + 1] as int) + 0x1_0000 * (bytes[offset
        + 2] as int) + 0x100_0000 * (bytes[offset + 3] as int)
}

/// The two bytes that encode `value`, least significant first.
pub open spec fn le_bytes_u16(value: u16) -> Seq<u8> {
    seq![(value as int % 0x100) as u8, (value as int / 0x100) as u8]
}

/// The four bytes that encode `value`, least significant first.
pub open spec fn le_bytes_u32(value: u32) -> Seq<u8> {
    seq![
        (value as int % 0x100) as u8,
        (value as int / 0x100 % 0x100) as u8,
        (value as int / 0x1_0000 % 0x100) as u8,
        (value as int / 0x100_0000) as u8,
    ]
}

/// `buffer` with `bytes` written over the positions from `offset` on.
pub open spec fn overwritten(buffer: Seq<u8>, offset: int, bytes: Seq<u8>) -> Seq<u8> {
    Seq::new(
        buffer.len(),
        |i: int|
            if offset <= i < offset + bytes.len() {
                bytes[i - offset]
            } else {
                buffer[i]
            },
    )
}

/// Calls scroll's `pread_with::<u16>` with the little-endian context. The
/// read succeeds exactly when two bytes are available at `offset`, and then
/// yields the value those two bytes encode, least significant byte first.
#[verifier::external_body]
pub(crate) fn pread_u16_le(buffer: &[u8], offset: usize) -> (value: Option<u16>)
    ensures
        offset + 2 <= buffer@.len() ==> value == Some(le_u16(buffer@, offset as int) as u16),
        offset + 2 > buffer@.len() ==> value is None,
{
    buffer.pread_with::<u16>(offset, scroll::LE).ok()
}

/// Calls scroll's `pread_with::<u32>` with the little-endian context. The
/// read succeeds exactly when four bytes are available at `offset`, and then
/// yields the value those four bytes encode, least significant byte first.
#[verifier::external_body]
pub(crate) fn pread_u32_le(buffer: &[u8], offset: usize) -> (value: Option<u32>)
    ensures
        offset + 4 <= buffer@.len() ==> value == Some(le_u32(buffer@, offset as int) as u32),
        offset + 4 > buffer@.len() ==> value is None,
{
    buffer.pread_with::<u32>(offset, scroll::LE).ok()
}

/// Calls scroll's `pwrite_with::<u16>` with the little-endian context. When
/// two bytes are available at `offset` they are replaced by the encoding of
/// `value` and the count 2 comes back; otherwise the buffer is left alone.
#[verifier::external_body]
pub(crate) fn pwrite_u16_le(buffer: &mut [u8], value: u16, offset: usize) -> (written: Option<usize>)
    ensures
        offset + 2 <= old(buffer)@.len() ==> written == Some(2usize) && final(buffer)@
            == overwritten(old(buffer)@, offset as int, le_bytes_u16(value)),
        offset + 2 > old(buffer)@.len() ==> written is None && final(buffer)@ == old(buffer)@,
{
    buffer.pwrite_with::<u16>(value, offset, scroll::LE).ok()
}

/// Calls scroll's `pwrite_with::<u32>` with the little-endian context. When
/// four bytes are available at `offset` they are replaced by the encoding of
/// `value` and the count 4 comes back; otherwise the buffer is left alone.
#[verifier::external_body]
pub(crate) fn pwrite_u32_le(buffer: &mut [u8], value: u32, offset: usize) -> (written: Option<usize>)
    ensures
        offset + 4 <= old(buffer)@.len() ==> written == Some(4usize) && final(buffer)@
            == overwritten(old(buffer)@, offset as int, le_bytes_u32(value)),
        offset + 4 > old(buffer)@.len() ==> written is None && final(buffer)@ == old(buffer)@,
{
    buffer.pwrite_with::<u32>(value, offset, scroll::LE).ok()
}

} // verus!
