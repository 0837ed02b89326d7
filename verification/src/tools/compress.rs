//! The data of one block as it passes through the compression stages.
use vstd::prelude::*;

verus! {

/// One block of data and what the compression stages record about it.
pub struct Block {
    /// The block data (RLE1 data, then BWT data, then MTF indexes).
    pub data: Vec<u8>,
    /// The RLE2 symbols of the block.
    pub temp_vec: Vec<u16>,
    /// Number of bytes of data in the block.
    pub end: u32,
    /// The BWT key (origin pointer).
    pub key: u32,
    /// Symbol frequencies.
    pub freqs: Vec<u32>,
    /// The symbol map of the bytes used in the block.
    pub sym_map: Vec<u16>,
    /// The end-of-block symbol.
    pub eob: u16,
    /// Sequence number of the block.
    pub seq: u32,
    /// CRC of the block.
    pub block_crc: u32,
    /// CRC of the stream up to and including this block.
    pub stream_crc: u32,
    /// Work budget of the sorting algorithm.
    pub budget: i32,
    /// Whether this is the last block.
    pub is_last: bool,
}

} // verus!
