//! The bzip2 checksums: the CRC-32 of each block (MSB-first, polynomial 0x04c11db7,
//! with the usual inversions) and the combination of block CRCs into the stream CRC.
use vstd::prelude::*;

verus! {

/// The stream CRC after one more block: the old value rotated left by one bit,
/// exclusive-or the block CRC.
pub open spec fn stream_crc_spec(stream_crc: u32, block_crc: u32) -> u32 {
    ((stream_crc << 1u32) | (stream_crc >> 31u32)) ^ block_crc
}

/// How the stream CRC takes in a block: all 32 bits of the block CRC enter it by
/// exclusive-or (two block CRCs give stream CRCs that differ exactly where they do),
/// the old value is rotated left by one bit (its top bit comes round to the bottom, the
/// rest move up one), and the first block's stream CRC is that block's CRC.
pub proof fn lemma_stream_crc_laws(stream_crc: u32, block_crc: u32, other: u32)
    ensures
        stream_crc_spec(0, block_crc) == block_crc,
        stream_crc_spec(stream_crc, block_crc) ^ stream_crc_spec(stream_crc, other) == block_crc ^ other,
        stream_crc_spec(stream_crc, block_crc) == stream_crc_spec(stream_crc, 0) ^ block_crc,
        stream_crc_spec(stream_crc, block_crc) ^ stream_crc_spec(stream_crc, 0) == block_crc,
        stream_crc_spec(stream_crc, 0) & 1u32 == stream_crc >> 31u32,
        stream_crc_spec(stream_crc, 0) >> 1u32 == stream_crc & 0x7fff_ffffu32,
{
    assert({
        &&& ((0u32 << 1u32) | (0u32 >> 31u32)) ^ block_crc == block_crc
        &&& (((stream_crc << 1u32) | (stream_crc >> 31u32)) ^ block_crc) ^ (((stream_crc << 1u32) | (stream_crc
            >> 31u32)) ^ other) == block_crc ^ other
        &&& ((stream_crc << 1u32) | (stream_crc >> 31u32)) ^ block_crc == (((stream_crc << 1u32) | (stream_crc
            >> 31u32)) ^ 0u32) ^ block_crc
        &&& (((stream_crc << 1u32) | (stream_crc >> 31u32)) ^ block_crc) ^ (((stream_crc << 1u32) | (stream_crc
            >> 31u32)) ^ 0u32) == block_crc
        &&& (((stream_crc << 1u32) | (stream_crc >> 31u32)) ^ 0u32) & 1u32 == stream_crc >> 31u32
        &&& (((stream_crc << 1u32) | (stream_crc >> 31u32)) ^ 0u32) >> 1u32 == stream_crc & 0x7fff_ffffu32
    }) by (bit_vector);
}

/// Combine a block CRC into the running stream CRC.
pub fn do_stream_crc(stream_crc: u32, block_crc: u32) -> (r: u32)
    ensures
        r == stream_crc_spec(stream_crc, block_crc),
        stream_crc == 0 ==> r == block_crc,
        r ^ stream_crc_spec(stream_crc, 0) == block_crc,
{
    proof {
        lemma_stream_crc_laws(stream_crc, block_crc, 0);
    }
    ((stream_crc << 1u32) | (stream_crc >> 31u32)) ^ block_crc
}

/// The CRC polynomial of bzip2, most significant bit first.
pub const CRC_POLY: u32 = 0x04c11db7;

/// One bit of the CRC register shifted out.
pub open spec fn crc_shift(c: u32) -> u32 {
    if c & 0x80000000u32 != 0 {
        ((c << 1u32) ^ CRC_POLY) as u32
    } else {
        (c << 1u32) as u32
    }
}

/// `n` bits shifted out of the CRC register.
pub open spec fn crc_shifts(c: u32, n: nat) -> u32
    decreases n,
{
    if n == 0 {
        c
    } else {
        crc_shifts(crc_shift(c), (n - 1) as nat)
    }
}

/// The CRC register after one more byte.
pub open spec fn crc_byte(c: u32, b: u8) -> u32 {
    crc_shifts(c ^ ((b as u32) << 24u32), 8)
}

/// The CRC register after a run of bytes.
pub open spec fn crc_register(c: u32, s: Seq<u8>) -> u32
    decreases s.len(),
{
    if s.len() == 0 {
        c
    } else {
        crc_byte(crc_register(c, s.drop_last()), s.last())
    }
}

/// The block CRC of `s`, continuing from the CRC `crc` of the data before it
/// (0 for the start of a block).
pub open spec fn crc_spec(crc: u32, s: Seq<u8>) -> u32 {
    !crc_register(!crc, s)
}

/// Continue the block CRC `crc` over the bytes of `data`.
pub fn do_crc(crc: u32, data: &[u8]) -> (r: u32)
    ensures
        r == crc_spec(crc, data@),
{
    let mut c: u32 = !crc;
    let mut i: usize = 0;
    while i < data.len()
        invariant
            i <= data.len(),
            c == crc_register(!crc, data@.take(i as int)),
        decreases data.len() - i,
    {
        let ghost before = c;
        let b = data[i];
        c = c ^ ((b as u32) << 24u32);
        let mut k: u32 = 0;
        while k < 8
            invariant
                k <= 8,
                crc_shifts(c, (8 - k) as nat) == crc_byte(before, b),
            decreases 8 - k,
        {
            if c & 0x80000000u32 != 0 {
                c = (c << 1u32) ^ CRC_POLY;
            } else {
                c = c << 1u32;
            }
            k = k + 1;
        }
        proof {
            assert(data@.take(i + 1).drop_last() =~= data@.take(i as int));
        }
        i = i + 1;
    }
    proof {
        assert(data@.take(data.len() as int) =~= data@);
    }
    !c
}

} // verus!
