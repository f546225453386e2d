//! The rolling-hash chunker that declares where blocks end.

use vstd::prelude::*;

verus! {

#[verifier::external_type_specification]
#[verifier::external_body]
pub struct ExBup(rollsum::Bup);

/// Chunk-bits parameter of the chunker: blocks average 8 KiB.
pub const CHUNK_BITS: u32 = 13;

/// Size of the window that drives the scan.
pub const WINDOW: usize = 1024;

/// Makes a chunker with `rollsum::Bup::new_with_chunk_bits`, which refuses
/// 32 bits and more.
#[verifier::external_body]
pub(crate) fn bup_with_chunk_bits(bits: u32) -> (r: rollsum::Bup)
    requires
        bits < 32,
{
    rollsum::Bup::new_with_chunk_bits(bits)
}

/// Rolls the window through the chunker with `rollsum::Bup::find_chunk_edge`
/// and gives the position behind the first edge, if the window holds one.
/// Not proved: that the position counts at least one byte and lies inside
/// the window. Where the edges fall is the chunker's matter and is not
/// stated.
#[verifier::external_body]
pub(crate) fn find_chunk_edge(chunker: &mut rollsum::Bup, window: &Vec<u8>) -> (r: Option<usize>)
    ensures
        r matches Some(count) ==> 1 <= count <= window@.len(),
{
    match chunker.find_chunk_edge(window.as_slice()) {
        Some((count, _)) => Some(count),
        None => None,
    }
}

} // verus!
