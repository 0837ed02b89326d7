//! Compress one block: its header, the Burrows-Wheeler transform, the move-to-front and
//! RLE2 transforms, and the Huffman coding, packed into bytes.
use vstd::prelude::*;
use crate::bits::{bits_of, bytes_bits, lemma_bits_of_len, lemma_bytes_bits_len, zero_bits};
use crate::bitstream::bitpacker::BitPacker;
use crate::huffman_coding::codes::lengths_in_range;
use crate::huffman_coding::huffman::{huf_encode, huf_layout, huf_written};
use crate::huffman_coding::tables::table_count_spec;
use crate::huffman_coding::tables::freq_sum;
use crate::tools::bwt::{bwt_out, is_perm, row_of, sorted_rotations, ties_ascending};
use crate::tools::bwt_ds::bwt_encode;
use crate::tools::compress::Block;
use crate::tools::mtf::{mtf_encode, mtf_spec, present_symbols};
use crate::tools::rle2::{
    lemma_max_symbol, lemma_rle2_small, lemma_run_digits_len, max_symbol, rle2_encode, rle2_from,
    rle2_spec,
};
use crate::tools::symbol_map::{decode_spec, lemma_sym_map_roundtrip, sym_map_spec};
use crate::compression::decompress::block_decoded;
use crate::tools::bwt_laws::lemma_bwt_ds_roundtrip;
use crate::tools::rle2_mtf_decode::lemma_rle2_mtf_roundtrip;
use crate::tools::rle1::rle1_decode_spec;

verus! {

/// The number of times `v` occurs in `r`.
pub open spec fn occurs(r: Seq<u16>, v: int) -> nat
    decreases r.len(),
{
    if r.len() == 0 {
        0
    } else {
        occurs(r.drop_last(), v) + if r.last() as int == v {
            1nat
        } else {
            0nat
        }
    }
}

proof fn lemma_freq_sum_update(f: Seq<u32>, k: int, s: int, v: u32)
    requires
        0 <= s < f.len(),
        0 <= k <= f.len(),
    ensures
        freq_sum(f.update(s, v), k) == freq_sum(f, k) + if s < k {
            v - f[s]
        } else {
            0
        },
    decreases k,
{
    if k > 0 {
        lemma_freq_sum_update(f, k - 1, s, v);
    }
}

/// How often each of the 258 symbols occurs.
fn symbol_freqs(r: &Vec<u16>) -> (freqs: Vec<u32>)
    requires
        forall|i: int| 0 <= i < r@.len() ==> r@[i] < 258,
        r@.len() < u32::MAX,
    ensures
        freqs@.len() == 258,
        forall|v: int| 0 <= v < 258 ==> freqs@[v] == occurs(r@, v),
        freq_sum(freqs@, 258) == r@.len(),
{
    let mut freqs: Vec<u32> = Vec::with_capacity(258);
    let mut k: usize = 0;
    while k < 258
        invariant
            k <= 258,
            freqs@.len() == k,
            forall|v: int| 0 <= v < k ==> freqs@[v] == 0,
            freq_sum(freqs@, k as int) == 0,
        decreases 258 - k,
    {
        freqs.push(0);
        proof {
            assert(freqs@.take(k as int) =~= freqs@.take(k as int));
            lemma_freq_sum_prefix(freqs@, k as int);
        }
        k = k + 1;
    }
    let mut i: usize = 0;
    while i < r.len()
        invariant
            i <= r@.len(),
            r@.len() < u32::MAX,
            forall|q: int| 0 <= q < r@.len() ==> r@[q] < 258,
            freqs@.len() == 258,
            forall|v: int| 0 <= v < 258 ==> freqs@[v] == occurs(r@.take(i as int), v),
            freq_sum(freqs@, 258) == i,
        decreases r@.len() - i,
    {
        let s = r[i] as usize;
        proof {
            assert(r@.take(i + 1).drop_last() =~= r@.take(i as int));
            lemma_occurs_le(r@.take(i as int), s as int);
            lemma_freq_sum_update(freqs@, 258, s as int, (freqs@[s as int] + 1) as u32);
        }
        freqs.set(s, freqs[s] + 1);
        i = i + 1;
    }
    proof {
        assert(r@.take(r@.len() as int) =~= r@);
    }
    freqs
}

proof fn lemma_freq_sum_prefix(f: Seq<u32>, k: int)
    requires
        0 <= k < f.len(),
        forall|v: int| 0 <= v < f.len() ==> f[v] == 0,
    ensures
        freq_sum(f, k + 1) == 0,
    decreases k,
{
    if k > 0 {
        lemma_freq_sum_prefix(f, k - 1);
    } else {
        assert(freq_sum(f, 0) == 0);
    }
    assert(f[k] == 0);
}

proof fn lemma_occurs_le(r: Seq<u16>, v: int)
    ensures
        occurs(r, v) <= r.len(),
    decreases r.len(),
{
    if r.len() > 0 {
        lemma_occurs_le(r.drop_last(), v);
    }
}

proof fn lemma_mtf_len(ix: Seq<u8>, s: Seq<u8>)
    ensures
        mtf_spec(ix, s).len() == s.len(),
    decreases s.len(),
{
    if s.len() > 0 {
        lemma_mtf_len(ix, s.drop_last());
    }
}

proof fn lemma_rle2_len(s: Seq<u8>, z: nat)
    ensures
        rle2_from(s, z).len() <= s.len() + z,
    decreases s.len(),
{
    if z > 0 {
        lemma_run_digits_len((z - 1) as nat);
    }
    if s.len() > 0 {
        if s[0] == 0 {
            lemma_rle2_len(s.drop_first(), z + 1);
        } else {
            lemma_rle2_len(s.drop_first(), 0);
        }
    }
}

/// The symbols that the Huffman coder receives for the transformed block `l`: the
/// RLE2 symbols of its move-to-front transform, then the end-of-block symbol.
pub open spec fn coded_symbols(l: Seq<u8>) -> Seq<u16> {
    let m = mtf_spec(present_symbols(l), l);
    rle2_spec(m) + seq![(max_symbol(m) + 1) as u16]
}

/// The end-of-block symbol of the transformed block `l`.
pub open spec fn coded_eob(l: Seq<u8>) -> u16 {
    (max_symbol(mtf_spec(present_symbols(l), l)) + 1) as u16
}

/// The block header: the block magic, the block CRC, the randomised bit (zero) and the
/// 24-bit key.
pub open spec fn block_header(crc: u32, key: u32) -> Seq<bool> {
    bits_of(0x18_314159, 24) + bits_of(0x18_265359, 24) + bits_of(crc as nat, 32) + bits_of(
        0x01_000000,
        1,
    ) + bits_of((0x18_000000 + key) as nat, 24)
}

/// The bits of a compressed block: the header, then the Huffman layout of the coded
/// symbols of the transform `l`, with code lengths `tables` and selectors `sels`.
pub open spec fn block_bits(
    crc: u32,
    key: u32,
    l: Seq<u8>,
    tables: Seq<Seq<u32>>,
    sels: Seq<usize>,
) -> Seq<bool> {
    let r = coded_symbols(l);
    block_header(crc, key) + huf_layout(
        sym_map_spec(present_symbols(l)),
        table_count_spec(r.len()) as int,
        sels,
        tables,
        r,
        coded_eob(l) + 1,
    )
}

/// The bytes `out`, with `pad` bits of padding, hold the block `data` sorted by `p`
/// and coded with the code lengths `tables` and the selectors `sels`.
pub open spec fn compressed_with(
    data: Seq<u8>,
    crc: u32,
    out: Seq<u8>,
    pad: u8,
    p: Seq<usize>,
    tables: Seq<Seq<u32>>,
    sels: Seq<usize>,
) -> bool {
    let l = bwt_out(data, p);
    let r = coded_symbols(l);
    let tc = table_count_spec(r.len()) as int;
    &&& is_perm(p, data.len())
    &&& sorted_rotations(data, p)
    &&& ties_ascending(data, p)
    &&& sels.len() == r.len() / 50 + 1
    &&& forall|i: int| 0 <= i < sels.len() ==> (sels[i] as int) < tc
    &&& forall|t: int| 0 <= t < tc ==> lengths_in_range(#[trigger] tables[t], coded_eob(l) + 1)
    &&& bytes_bits(out) == block_bits(crc, row_of(p, 0) as u32, l, tables, sels) + zero_bits(
        pad as nat,
    )
}

/// What a compressed block holds: for some stable sorting of the rotations of `data`,
/// tables of code lengths in range and selectors naming them, the bytes are the block's
/// bits followed by `pad` zero bits that fill the last byte.
pub open spec fn compressed_as(data: Seq<u8>, crc: u32, out: Seq<u8>, pad: u8) -> bool {
    exists|p: Seq<usize>, tables: Seq<Seq<u32>>, sels: Seq<usize>|
        #[trigger] compressed_with(data, crc, out, pad, p, tables, sels)
}

proof fn lemma_row_bound(p: Seq<usize>)
    ensures
        row_of(p, 0) == 0 || row_of(p, 0) < p.len(),
{
}

/// The last stages of the decoder undo the first stages of the encoder: what a block
/// compressed from `data` carries, its coded symbols, the bytes its symbol map names
/// and its key, is what [`block_decoded`] turns into the RLE1 expansion of `data`,
/// wherever the transformed block holds more than one byte value (a block of one byte
/// value gets an end-of-block symbol of 1, which the decoder does not take).
pub proof fn lemma_block_content_decodes(
    data: Seq<u8>,
    crc: u32,
    out: Seq<u8>,
    pad: u8,
    p: Seq<usize>,
    tables: Seq<Seq<u32>>,
    sels: Seq<usize>,
)
    requires
        compressed_with(data, crc, out, pad, p, tables, sels),
        1 <= data.len() <= 900_000,
        max_symbol(mtf_spec(present_symbols(bwt_out(data, p)), bwt_out(data, p))) >= 1,
    ensures
        decode_spec(sym_map_spec(bwt_out(data, p))) == present_symbols(bwt_out(data, p)),
        block_decoded(
            coded_symbols(bwt_out(data, p)),
            decode_spec(sym_map_spec(bwt_out(data, p))),
            row_of(p, 0) as int,
            rle1_decode_spec(data),
        ),
{
    let l = bwt_out(data, p);
    assert(l.len() == data.len());
    lemma_sym_map_roundtrip(l);
    lemma_bwt_ds_roundtrip(data, p);
    lemma_rle2_mtf_roundtrip(l);
    let ix = present_symbols(l);
    let m = mtf_spec(ix, l);
    let r = rle2_spec(m).push((max_symbol(m) + 1) as u16);
    assert(coded_symbols(l) =~= r);
}

/// Called by Compress, this handles one block and returns a vec of packed huffman data
/// and the valid bit count of the last byte (1 to 8; the rest of that byte is padding).
pub fn compress_block(block: &[u8], block_crc: u32) -> (res: (Vec<u8>, u8))
    requires
        1 <= block@.len() <= 900_000,
    ensures
        1 <= res.1 <= 8,
        compressed_as(block@, block_crc, res.0@, (8 - res.1) as u8),
        res.0@.len() >= 14,
{
    let mut bp = BitPacker::new(block.len());
    bp.out24(0x18_314159);
    bp.out24(0x18_265359);
    bp.out32(block_crc);
    bp.out24(0x01_000000);
    let (key, bwt_data) = bwt_encode(block);
    let ghost p = choose|p: Seq<usize>|
        {
            &&& is_perm(p, block@.len())
            &&& sorted_rotations(block@, p)
            &&& ties_ascending(block@, p)
            &&& key == row_of(p, 0)
            &&& bwt_data@ == bwt_out(block@, p)
        };
    proof {
        lemma_row_bound(p);
        assert(0x18_000000u32 | key == 0x18_000000u32 + key) by (bit_vector)
            requires
                key < 0x1000000u32,
        ;
    }
    bp.out24(0x18_000000 | key);
    proof {
        assert(bp.bit_view() =~= block_header(block_crc, key));
    }
    let ghost head = bp.bit_view();
    let n = block.len();
    let ghost l = bwt_data@;
    let mut blk = Block {
        data: bwt_data,
        temp_vec: Vec::new(),
        end: n as u32,
        key,
        freqs: Vec::new(),
        sym_map: Vec::new(),
        eob: 0,
        seq: 0,
        block_crc,
        stream_crc: 0,
        budget: 0,
        is_last: false,
    };
    mtf_encode(&mut blk);
    let ghost m = mtf_spec(present_symbols(l), l);
    proof {
        lemma_mtf_len(present_symbols(l), l);
        assert(l.take(n as int) =~= l);
        assert(l.skip(n as int) =~= Seq::<u8>::empty());
        assert(blk.data@ =~= m);
    }
    rle2_encode(&mut blk);
    proof {
        lemma_max_symbol(m);
        lemma_rle2_small(m, 0, max_symbol(m) + 1);
        lemma_rle2_len(m, 0);
        assert(blk.temp_vec@ =~= coded_symbols(l));
        assert(blk.eob == coded_eob(l));
    }
    blk.freqs = symbol_freqs(&blk.temp_vec);
    let res = huf_encode(&mut bp, &mut blk, 4);
    let ghost mid = bp.bit_view();
    let ghost (tables, sels) = choose|tables: Seq<Seq<u32>>, sels: Seq<usize>|
        #[trigger] huf_written(head, mid, blk, (blk.temp_vec@.len() / 50 + 1) as int, tables, sels);
    proof {
        bp.lemma_bit_view();
        assert(mid =~= block_bits(block_crc, key, l, tables, sels));
        lemma_bits_of_len(0x18_314159, 24);
        lemma_bits_of_len(0x18_265359, 24);
        lemma_bits_of_len(block_crc as nat, 32);
        lemma_bits_of_len(0x01_000000, 1);
        lemma_bits_of_len((0x18_000000 + key) as nat, 24);
        assert(head.len() == 105);
        assert(mid.len() >= 105);
    }
    bp.flush();
    proof {
        bp.lemma_bit_view();
        if bp.padding == 0 {
            assert(zero_bits(0) =~= Seq::<bool>::empty());
        }
        assert(compressed_with(block@, block_crc, bp.output@, bp.padding, p, tables, sels));
        lemma_bytes_bits_len(bp.output@);
    }
    let valid = 8 - bp.padding;
    proof {
        assert((8 - valid) as u8 == bp.padding);
    }
    (bp.output, valid)
}

} // verus!
