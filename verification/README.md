# bzip2_rust

A bzip2 compressor and decompressor whose library is verified with Verus.

- `src/` is the library. Each public function states in `requires`/`ensures` what it
  does, over spec functions on sequences and integers, and Verus proves it:
  - the first run-length encoding (RLE1) with its round trip,
  - the Burrows-Wheeler transform (several sorts) and its inverse,
  - the move-to-front and RLE2 transforms,
  - the Huffman code lengths, canonical codes and table selection,
  - the bit packing of blocks and streams,
  - block compression, stream compression (`compression::compress_stream`) and
    stream decompression (`compression::decompress`, tied to `decompress_spec`).
- `app/` is the command-line program: argument parsing with clap, logging, and file
  reading and writing around the library.
- `tests/` runs the library on concrete inputs.

A few standard library sorts are called through small trusted wrappers whose contracts
state what the standard library documents (see `sort_by_length`, `sort_by_weight_desc`,
`sort_rotations_stable`), `format!` builds the location strings, and rayon's
`par_windows` packs the words of long blocks in `tools::udata`.
