//! A whole stream compressed: the input cut into blocks by the RLE1 encoder, each block
//! compressed on its own and added to the stream with its header and, after the last,
//! the footer and the stream CRC.
use vstd::prelude::*;
use crate::bits::{bytes_bits, bits_of, zero_bits};
use crate::bitstream::bitwriter::{block_bits, block_crc_of, footer_magic, header_bytes, pad_to_byte, BitWriter};
use crate::compression::compress_block::{coded_symbols, compress_block, compressed_as, compressed_with, lemma_block_content_decodes};
use crate::compression::decompress::block_decoded;
use crate::tools::bwt::{bwt_out, row_of};
use crate::tools::mtf::{mtf_spec, present_symbols};
use crate::tools::rle2::max_symbol;
use crate::tools::symbol_map::{decode_spec, sym_map_spec};
use crate::crc::{crc_spec, do_crc, stream_crc_spec};
use crate::tools::rle1::{lemma_rle1_roundtrip, lemma_rle_encode_sizes, rle1_decode_spec, rle_encode, rle_encode_spec};

verus! {

/// Why a stream could not be compressed.
#[derive(Debug, PartialEq, Eq)]
pub enum CompressError {
    /// There is no data to compress.
    NoData,
}

/// The input taken by each block, with block `k` holding `blocks[k].0` bytes of the input
/// compressed to the bytes `blocks[k].1` with `blocks[k].2` bits of padding: the position
/// in `data` that the blocks reach, or -1 where a block is not what the input gives at
/// its place (the bytes the RLE1 encoder consumes there, at least one, compressed with
/// their CRC).
pub open spec fn blocks_end(data: Seq<u8>, size: nat, blocks: Seq<(nat, Seq<u8>, u8)>) -> int
    decreases blocks.len(),
{
    if blocks.len() == 0 {
        0
    } else {
        let p = blocks_end(data, size, blocks.drop_last());
        let b = blocks.last();
        let (n, enc) = rle_encode_spec(data.skip(p), size);
        if p >= 0 && b.0 == n && n >= 1 && b.2 < 8 && compressed_as(
            enc,
            crc_spec(0, data.subrange(p, p + n)),
            b.1,
            b.2,
        ) {
            p + n
        } else {
            -1
        }
    }
}

/// The blocks never reach past the input.
proof fn lemma_blocks_end_bound(data: Seq<u8>, size: nat, blocks: Seq<(nat, Seq<u8>, u8)>)
    requires
        blocks_end(data, size, blocks) >= 0,
    ensures
        blocks_end(data, size, blocks) <= data.len(),
    decreases blocks.len(),
{
    if blocks.len() > 0 {
        lemma_blocks_end_bound(data, size, blocks.drop_last());
        let p = blocks_end(data, size, blocks.drop_last());
        lemma_rle1_roundtrip(data.skip(p), size);
    }
}

/// Where the blocks reach the input, so do the blocks before the last.
proof fn lemma_blocks_end_prefix(data: Seq<u8>, size: nat, blocks: Seq<(nat, Seq<u8>, u8)>, k: int)
    requires
        blocks_end(data, size, blocks) >= 0,
        0 <= k <= blocks.len(),
    ensures
        blocks_end(data, size, blocks.take(k)) >= 0,
    decreases blocks.len() - k,
{
    if k < blocks.len() {
        assert(blocks.drop_last() =~= blocks.take(blocks.len() - 1));
        lemma_blocks_end_prefix(data, size, blocks.drop_last(), k);
        assert(blocks.drop_last().take(k) =~= blocks.take(k));
    } else {
        assert(blocks.take(k) =~= blocks);
    }
}

/// The blocks of a stream take the input in order: block `k` starts where the blocks
/// before it end, and is compressed from the RLE1 encoding of what it takes, which expands
/// back to exactly that part of the input. (With
/// [`crate::compression::compress_block::lemma_block_content_decodes`], what each block
/// carries decodes to its part of the input.)
pub proof fn lemma_blocks_take_input(data: Seq<u8>, size: nat, blocks: Seq<(nat, Seq<u8>, u8)>, k: int)
    requires
        blocks_end(data, size, blocks) >= 0,
        0 <= k < blocks.len(),
    ensures
        ({
            let pos = blocks_end(data, size, blocks.take(k));
            let (n, enc) = rle_encode_spec(data.skip(pos), size);
            &&& 0 <= pos
            &&& blocks[k].0 == n >= 1
            &&& blocks_end(data, size, blocks.take(k + 1)) == pos + n
            &&& pos + n <= data.len()
            &&& rle1_decode_spec(enc) == data.subrange(pos, pos + n)
            &&& compressed_as(enc, crc_spec(0, data.subrange(pos, pos + n)), blocks[k].1, blocks[k].2)
        }),
{
    lemma_blocks_end_prefix(data, size, blocks, k + 1);
    let b = blocks.take(k + 1);
    assert(b.drop_last() =~= blocks.take(k));
    assert(b.last() == blocks[k]);
    let pos = blocks_end(data, size, blocks.take(k));
    lemma_blocks_end_prefix(data, size, blocks, k);
    lemma_blocks_end_bound(data, size, blocks.take(k));
    lemma_rle1_roundtrip(data.skip(pos), size);
    let (n, enc) = rle_encode_spec(data.skip(pos), size);
    assert(blocks_end(data, size, b) == pos + n);
    assert(data.skip(pos).take(n as int) =~= data.subrange(pos, pos + n));
}

/// What block `k` of a stream carries decodes to the part of the input it took: for the
/// sorting `p`, tables and selectors it was compressed with, its coded symbols, the
/// bytes its symbol map names and its key are what [`block_decoded`] turns into that
/// part, wherever its transformed block holds more than one byte value.
pub proof fn lemma_stream_block_decodes(
    data: Seq<u8>,
    size: nat,
    blocks: Seq<(nat, Seq<u8>, u8)>,
    k: int,
    p: Seq<usize>,
    tables: Seq<Seq<u32>>,
    sels: Seq<usize>,
)
    requires
        1 <= size <= 899_981,
        blocks_end(data, size, blocks) >= 0,
        0 <= k < blocks.len(),
        ({
            let pos = blocks_end(data, size, blocks.take(k));
            let (n, enc) = rle_encode_spec(data.skip(pos), size);
            &&& compressed_with(enc, crc_spec(0, data.subrange(pos, pos + n)), blocks[k].1, blocks[k].2, p, tables, sels)
            &&& max_symbol(mtf_spec(present_symbols(bwt_out(enc, p)), bwt_out(enc, p))) >= 1
        }),
    ensures
        ({
            let pos = blocks_end(data, size, blocks.take(k));
            let (n, enc) = rle_encode_spec(data.skip(pos), size);
            let l = bwt_out(enc, p);
            block_decoded(
                coded_symbols(l),
                decode_spec(sym_map_spec(l)),
                row_of(p, 0) as int,
                data.subrange(pos, pos + n),
            )
        }),
{
    lemma_blocks_take_input(data, size, blocks, k);
    let pos = blocks_end(data, size, blocks.take(k));
    let (n, enc) = rle_encode_spec(data.skip(pos), size);
    lemma_rle_encode_sizes(data.skip(pos), size);
    lemma_block_content_decodes(
        enc,
        crc_spec(0, data.subrange(pos, pos + n)),
        blocks[k].1,
        blocks[k].2,
        p,
        tables,
        sels,
    );
}

/// The bits of a stream of block size `bs` holding `blocks`, before its footer, and the
/// running stream CRC: each block's bits, after the stream header wherever the stream
/// CRC before the block is 0.
pub open spec fn stream_state(bs: u8, blocks: Seq<(nat, Seq<u8>, u8)>) -> (Seq<bool>, u32)
    decreases blocks.len(),
{
    if blocks.len() == 0 {
        (Seq::empty(), 0)
    } else {
        let (bits, c) = stream_state(bs, blocks.drop_last());
        let b = blocks.last();
        let head = if c == 0 {
            bytes_bits(header_bytes(bs))
        } else {
            Seq::empty()
        };
        (bits + head + block_bits(b.1, b.2), stream_crc_spec(c, block_crc_of(b.1)))
    }
}

/// The bits of a whole stream: the blocks, the footer magic and the stream CRC.
pub open spec fn stream_total(bs: u8, blocks: Seq<(nat, Seq<u8>, u8)>) -> Seq<bool> {
    let (bits, c) = stream_state(bs, blocks);
    bits + bytes_bits(footer_magic()) + bits_of(c as nat, 32)
}

proof fn lemma_stream_push(bs: u8, blocks: Seq<(nat, Seq<u8>, u8)>, b: (nat, Seq<u8>, u8))
    ensures
        ({
            let (bits, c) = stream_state(bs, blocks);
            let head = if c == 0 {
                bytes_bits(header_bytes(bs))
            } else {
                Seq::empty()
            };
            stream_state(bs, blocks.push(b)) == (bits + head + block_bits(b.1, b.2), stream_crc_spec(
                c,
                block_crc_of(b.1),
            ))
        }),
{
    assert(blocks.push(b).drop_last() =~= blocks);
}

proof fn lemma_concat(a: Seq<bool>, q0: Seq<bool>, w: Seq<bool>, q1: Seq<bool>, mid: Seq<bool>, state: Seq<bool>)
    requires
        a + q0 == state,
        w + q1 == q0 + mid,
    ensures
        a + w + q1 == state + mid,
{
    assert(a + w + q1 =~= a + (w + q1));
    assert(state + mid =~= a + (q0 + mid));
}

proof fn lemma_pad_shift(k: nat, x: nat)
    ensures
        pad_to_byte(8 * k + x) == pad_to_byte(x),
{
    vstd::arithmetic::div_mod::lemma_mod_multiples_vanish(k as int, x as int, 8);
    assert((8 * k + x) as int == 8 * (k as int) + x as int);
}

/// Compress `data` into a bzip2 stream with block size `block_size` (100k units): the
/// RLE1 encoder cuts a block of up to `block_size * 100000 - 19` bytes from what is
/// left, the block is compressed with the CRC of the bytes it took, and added to the
/// stream, until the input is used up.
#[verifier::spinoff_prover]
#[verifier::rlimit(40)]
pub fn compress_stream(data: &[u8], block_size: u8) -> (res: Result<Vec<u8>, CompressError>)
    requires
        1 <= block_size <= 9,
    ensures
        data@.len() == 0 ==> res == Err::<Vec<u8>, CompressError>(CompressError::NoData),
        data@.len() > 0 ==> res is Ok,
        res matches Ok(s) ==> exists|blocks: Seq<(nat, Seq<u8>, u8)>|
            #[trigger] blocks_end(data@, (block_size * 100000 - 19) as nat, blocks) == data@.len()
                && bytes_bits(s@) == stream_total(block_size, blocks) + zero_bits(
                pad_to_byte(stream_total(block_size, blocks).len()),
            ),
{
    if data.len() == 0 {
        return Err(CompressError::NoData);
    }
    let size: usize = block_size as usize * 100000 - 19;
    let ghost gsize: nat = (block_size * 100000 - 19) as nat;
    let mut bw = BitWriter::new("", block_size);
    let mut stream: Vec<u8> = Vec::new();
    let mut pos: usize = 0;
    let ghost mut blocks: Seq<(nat, Seq<u8>, u8)> = Seq::empty();
    proof {
        assert(bytes_bits(stream@) + bw.queued() =~= stream_state(block_size, blocks).0);
    }
    loop
        invariant
            1 <= block_size <= 9,
            size == gsize,
            gsize == block_size * 100000 - 19,
            pos < data@.len(),
            blocks_end(data@, gsize, blocks) == pos,
            bw.wf(),
            bw.block_size == block_size,
            bw.output@ == Seq::<u8>::empty(),
            bw.stream_crc == stream_state(block_size, blocks).1,
            bytes_bits(stream@) + bw.queued() == stream_state(block_size, blocks).0,
        decreases data@.len() - pos,
    {
        let rest = vstd::slice::slice_subrange(data, pos, data.len());
        proof {
            assert(rest@ =~= data@.skip(pos as int));
        }
        let (consumed, block) = rle_encode(rest, size);
        proof {
            lemma_rle_encode_sizes(rest@, size as nat);
        }
        let taken = vstd::slice::slice_subrange(data, pos, pos + consumed);
        let crc = do_crc(0, taken);
        let (out, valid) = compress_block(&block, crc);
        let padding = 8 - valid;
        let ghost b = (consumed as nat, out@, padding);
        let ghost nb = blocks.push(b);
        proof {
            assert(nb.drop_last() =~= blocks);
            assert(taken@ =~= data@.subrange(pos as int, pos + consumed));
            assert(blocks_end(data@, gsize, nb) == pos + consumed);
        }
        let ghost old_bits = bytes_bits(stream@);
        let ghost bw0 = bw;
        pos = pos + consumed;
        let last = pos >= data.len();
        let written = bw.add_block(last, &out, padding);
        let ghost s0 = stream@;
        let mut k: usize = 0;
        while k < written.len()
            invariant
                k <= written@.len(),
                stream@ == s0 + written@.take(k as int),
            decreases written@.len() - k,
        {
            stream.push(written[k]);
            proof {
                assert(s0 + written@.take(k + 1) =~= (s0 + written@.take(k as int)).push(written@[k as int]));
            }
            k = k + 1;
        }
        proof {
            assert(written@.take(written@.len() as int) =~= written@);
            crate::bits::lemma_bytes_bits_append(s0, written@);
            assert(bytes_bits(bw0.output@) =~= Seq::<bool>::empty());
            assert(bw0.bit_view() =~= bw0.queued());
            lemma_stream_push(block_size, blocks, b);
            blocks = nb;
        }
        let ghost head = if bw0.stream_crc == 0 {
            bytes_bits(header_bytes(block_size))
        } else {
            Seq::empty()
        };
        let ghost mid = head + block_bits(out@, padding);
        if last {
            proof {
                let tail = bytes_bits(footer_magic()) + bits_of(bw.stream_crc as nat, 32);
                let total = stream_total(block_size, blocks);
                let st = bw0.bit_view() + head + block_bits(out@, padding) + tail;
                let z = zero_bits(pad_to_byte(st.len()));
                assert(bytes_bits(written@) + Seq::<bool>::empty() =~= bw0.queued() + (mid + tail + z));
                lemma_concat(bytes_bits(s0), bw0.queued(), bytes_bits(written@), Seq::empty(), mid + tail + z, stream_state(block_size, nb.drop_last()).0);
                crate::bits::lemma_bytes_bits_len(s0);
                lemma_pad_shift(s0.len(), st.len());
                assert(total =~= stream_state(block_size, nb.drop_last()).0 + (mid + tail));
                assert(total.len() == 8 * s0.len() + st.len());
                assert(bytes_bits(stream@) =~= total + zero_bits(pad_to_byte(total.len())));
                assert(blocks_end(data@, (block_size * 100000 - 19) as nat, blocks) == data@.len());
            }
            return Ok(stream);
        }
        proof {
            assert(bw0.bit_view() + head + block_bits(out@, padding) =~= bw0.queued() + mid);
            lemma_concat(bytes_bits(s0), bw0.queued(), bytes_bits(written@), bw.queued(), mid, stream_state(block_size, nb.drop_last()).0);
            assert(stream_state(block_size, blocks).0 =~= stream_state(block_size, nb.drop_last()).0 + mid);
        }
    }
}

} // verus!
