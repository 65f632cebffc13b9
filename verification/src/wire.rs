//! Little-endian encoding of 32-bit words into a byte buffer.

use vstd::prelude::*;
use byteorder::{ByteOrder, LittleEndian};

verus! {

/// The four bytes of `n`, least significant first.
pub open spec fn le_bytes(n: u32) -> Seq<u8> {
    seq![
        (n % 256) as u8,
        ((n / 256) % 256) as u8,
        ((n / 65536) % 256) as u8,
        ((n / 16777216) % 256) as u8,
    ]
}

/// Calls `byteorder::LittleEndian::write_u32` on the tail of `buf` that
/// starts at `pos`. The contract claims what that function's source shows:
/// the four bytes at `pos` become the little-endian bytes of `n`, and every
/// other byte of the buffer stays as it was. The call panics on a tail
/// shorter than four bytes, which the precondition leaves out.
#[verifier::external_body]
pub(crate) fn write_u32_le(buf: &mut Vec<u8>, pos: usize, n: u32)
    requires
        pos + 4 <= old(buf)@.len(),
    ensures
        final(buf)@ == old(buf)@.subrange(0, pos as int) + le_bytes(n) + old(buf)@.subrange(
            pos + 4,
            old(buf)@.len() as int,
        ),
{
    LittleEndian::write_u32(&mut buf[pos..], n)
}

} // verus!
