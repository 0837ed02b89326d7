//! A block-sorting file compressor in the bzip2 format: bit streams, run-length
//! and move-to-front transforms, the Burrows-Wheeler transform and Huffman coding.
pub mod bits;
pub mod cli;
pub mod options;
pub mod sort;
pub mod ss3;
pub mod bitstream;
pub mod compression;
pub mod crc;
pub mod huffman;
pub mod huffman_coding;
pub mod text;
pub mod tools;

use vstd::prelude::*;

verus! {

} // verus!
