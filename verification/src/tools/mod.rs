//! The stages of the compressor and decompressor: bit-level reading and writing,
//! run-length coding, the move-to-front transform, the symbol map, the
//! Burrows-Wheeler transform and Huffman code construction.
pub mod bitwriter;
pub mod bitreader;
pub mod bitty;
pub mod symbol_map;
pub mod rle1;
pub mod compress;
pub mod mtf;
pub mod rle2;
pub mod rle2_mtf_decode;
pub mod bwt;
pub mod bwt_inverse;
pub mod bwt_ds;
pub mod bwt_laws;
pub mod udata;
pub mod bwt_decode_2x1;
