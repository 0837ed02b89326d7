//! Huffman coding of the RLE2 symbols of a block: trees, code lengths, coding tables.
pub mod tree;
pub mod code_lengths;
pub mod tables;
pub mod codes;
pub mod huffman;
