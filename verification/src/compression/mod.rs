//! Block coding: one block compressed, and the tables read from a compressed block.
pub mod compress_block;
pub mod compress_stream;
pub mod decode_tables;
pub mod decompress;
