//! Writing of the compressed bit stream: each block is packed on its own by a
//! [`bitpacker::BitPacker`], and the packed blocks are joined into one stream by a
//! [`bitwriter::BitWriter`].
pub mod bitpacker;
pub mod bitwriter;

