//! Assembles the blocks packed by BitPacker into one bzip2 stream: the stream header,
//! the blocks (with their zero padding removed), and the stream footer with the stream CRC.
use crate::bits::{
    bits_of, bytes_bits, lemma_bits_of_len, lemma_bits_of_mod, lemma_bits_of_split,
    lemma_bits_of_zero, lemma_bytes_bits_len, lemma_bytes_bits_push, lemma_small_pow2, zero_bits,
};
use crate::bitstream::bitpacker::{drain_queue, lemma_push_bits};
use crate::crc::{do_stream_crc, stream_crc_spec};
use vstd::arithmetic::power2::{lemma_pow2_adds, lemma_pow2_pos, pow2};
use vstd::bits::{lemma_u64_shr_is_div, lemma_u8_shr_is_div};
use vstd::prelude::*;

verus! {

/// Writes a bitstream for output. Takes the blocks packed by BitPacker and assembles them with
/// the stream header and footer, calculating the stream CRC as it processes the blocks.
pub struct BitWriter {
    /// Output buffer used to write the bitstream.
    pub output: Vec<u8>,
    /// Queue holding bits that are waiting to be put as bytes into the output buffer.
    pub queue: u64,
    /// Count of valid bits in the queue.
    pub q_bits: u8,
    /// Path of the file that the stream is written to.
    pub path: String,
    /// Block size, needed to create the header.
    pub block_size: u8,
    /// Stream CRC, calculated from each block crc and added to the stream footer.
    pub stream_crc: u32,
}

/// The stream header: the signature "BZh" followed by the block size digit.
pub open spec fn header_bytes(block_size: u8) -> Seq<u8> {
    seq![0x42u8, 0x5au8, 0x68u8, (block_size + 0x30) as u8]
}

/// The end-of-stream magic number (the square root of pi).
pub open spec fn footer_magic() -> Seq<u8> {
    seq![0x17u8, 0x72u8, 0x45u8, 0x38u8, 0x50u8, 0x90u8]
}

/// The CRC of a packed block, stored big-endian at bytes 6 to 9.
pub open spec fn block_crc_of(data: Seq<u8>) -> u32 {
    (data[6] as nat * 0x1000000 + data[7] as nat * 0x10000 + data[8] as nat * 0x100
        + data[9] as nat) as u32
}

/// The bits a block contributes: all its bits but the trailing padding.
pub open spec fn block_bits(data: Seq<u8>, padding: u8) -> Seq<bool> {
    bytes_bits(data).take(bytes_bits(data).len() - padding)
}

/// Number of zero bits that complete a stream of `n` bits to whole bytes.
pub open spec fn pad_to_byte(n: nat) -> nat {
    ((8 - n % 8) % 8) as nat
}

impl BitWriter {
    pub open spec fn wf(&self) -> bool {
        self.q_bits <= 64 && self.queue < pow2(self.q_bits as nat)
    }

    /// The bits written but not yet moved to the output buffer.
    pub open spec fn queued(&self) -> Seq<bool> {
        bits_of(self.queue as nat, self.q_bits as nat)
    }

    /// Every bit written so far, in order.
    pub open spec fn bit_view(&self) -> Seq<bool> {
        bytes_bits(self.output@) + self.queued()
    }

    /// Create a new BitWriter for the file at `filepath`. Block sizes above 9 are taken as 9.
    /// Use add_block() to add each block to the stream.
    pub fn new(filepath: &str, block_size: u8) -> (bw: Self)
        ensures
            bw.wf(),
            bw.output@ == Seq::<u8>::empty(),
            bw.queued() == Seq::<bool>::empty(),
            bw.path@ == filepath@,
            bw.block_size == if block_size > 9 {
                9
            } else {
                block_size
            },
            bw.stream_crc == 0,
    {
        proof {
            lemma_small_pow2();
        }
        let mut block_size = block_size;
        if block_size > 9 {
            block_size = 9;
        }
        Self {
            output: Vec::with_capacity(block_size as usize * 100000),
            queue: 0,
            q_bits: 0,
            path: filepath.to_owned(),
            block_size,
            stream_crc: 0,
        }
    }

    /// Appends the low `depth` bits of `m`, moving whole bytes to the output first if the
    /// queue would overflow.
    fn append(&mut self, m: u64, depth: u8)
        requires
            old(self).wf(),
            1 <= depth <= 32,
            m < pow2(depth as nat),
        ensures
            final(self).wf(),
            final(self).bit_view() == old(self).bit_view() + bits_of(m as nat, depth as nat),
            final(self).q_bits >= depth,
            final(self).path == old(self).path,
            final(self).block_size == old(self).block_size,
            final(self).stream_crc == old(self).stream_crc,
    {
        if self.q_bits as u32 + depth as u32 > 64 {
            let (q, b) = drain_queue(&mut self.output, self.queue, self.q_bits);
            self.queue = q;
            self.q_bits = b;
        }
        proof {
            lemma_push_bits(self.queue, self.q_bits as nat, m, depth as nat);
        }
        let ghost before = self.bit_view();
        self.queue = (self.queue << (depth as u64)) | m;
        self.q_bits = self.q_bits + depth;
        proof {
            assert(self.bit_view() =~= before + bits_of(m as nat, depth as nat));
        }
    }

    /// Put a byte of pre-packed binary encoded data on the stream.
    pub fn out8(&mut self, data: u8)
        requires
            old(self).wf(),
        ensures
            final(self).wf(),
            final(self).bit_view() == old(self).bit_view() + bits_of(data as nat, 8),
            final(self).q_bits >= 8,
            final(self).path == old(self).path,
            final(self).block_size == old(self).block_size,
            final(self).stream_crc == old(self).stream_crc,
    {
        proof {
            lemma_small_pow2();
        }
        self.append(data as u64, 8);
    }

    /// Puts a run of bytes on the stream.
    fn out_bytes(&mut self, data: &[u8])
        requires
            old(self).wf(),
        ensures
            final(self).wf(),
            final(self).bit_view() == old(self).bit_view() + bytes_bits(data@),
            data@.len() > 0 ==> final(self).q_bits >= 8,
            final(self).path == old(self).path,
            final(self).block_size == old(self).block_size,
            final(self).stream_crc == old(self).stream_crc,
    {
        let mut i: usize = 0;
        while i < data.len()
            invariant
                i <= data.len(),
                self.wf(),
                self.bit_view() == old(self).bit_view() + bytes_bits(data@.take(i as int)),
                i > 0 ==> self.q_bits >= 8,
                self.path == old(self).path,
                self.block_size == old(self).block_size,
                self.stream_crc == old(self).stream_crc,
            decreases data.len() - i,
        {
            let ghost before = self.bit_view();
            self.out8(data[i]);
            proof {
                assert(data@.take(i + 1) =~= data@.take(i as int).push(data@[i as int]));
                lemma_bytes_bits_push(data@.take(i as int), data@[i as int]);
                assert(self.bit_view() =~= old(self).bit_view() + bytes_bits(
                    data@.take(i + 1),
                ));
            }
            i = i + 1;
        }
        proof {
            assert(data@.take(data.len() as int) =~= data@);
        }
    }

    /// Push the stream header to output buffer.
    fn push_header(&mut self)
        requires
            old(self).wf(),
            old(self).block_size <= 9,
        ensures
            final(self).wf(),
            final(self).bit_view() == old(self).bit_view() + bytes_bits(
                header_bytes(old(self).block_size),
            ),
            final(self).path == old(self).path,
            final(self).block_size == old(self).block_size,
            final(self).stream_crc == old(self).stream_crc,
    {
        let magic: [u8; 4] = [0x42, 0x5a, 0x68, self.block_size + 0x30];
        proof {
            assert(magic@ =~= header_bytes(self.block_size));
        }
        self.out_bytes(&magic);
    }

    /// Flushes the remaining bits (1-7) from the buffer, padding with 0s in the least
    /// signficant bits.
    pub fn flush(&mut self)
        requires
            old(self).wf(),
        ensures
            final(self).wf(),
            final(self).queued() == Seq::<bool>::empty(),
            bytes_bits(final(self).output@) == old(self).bit_view() + zero_bits(
                pad_to_byte(old(self).bit_view().len()),
            ),
            final(self).path == old(self).path,
            final(self).block_size == old(self).block_size,
            final(self).stream_crc == old(self).stream_crc,
    {
        let (q, b) = drain_queue(&mut self.output, self.queue, self.q_bits);
        self.queue = q;
        self.q_bits = b;
        proof {
            lemma_bits_of_len(self.queue as nat, self.q_bits as nat);
            lemma_bytes_bits_len(self.output@);
            lemma_bits_of_len(old(self).queue as nat, old(self).q_bits as nat);
            lemma_bytes_bits_len(old(self).output@);
        }
        let ghost mid = self.bit_view();
        if self.q_bits > 0 {
            let shift: u8 = 8 - self.q_bits;
            proof {
                lemma_small_pow2();
                lemma_u8_shr_is_div(0xff, shift);
                lemma_pow2_pos(shift as nat);
                lemma_pow2_adds(self.q_bits as nat, shift as nat);
                assert(self.q_bits as nat + shift as nat == 8);
                vstd::arithmetic::mul::lemma_mul_is_distributive_sub_other_way(
                    pow2(shift as nat) as int,
                    pow2(self.q_bits as nat) as int,
                    1,
                );
                assert((pow2(self.q_bits as nat) - 1) * pow2(shift as nat) + (pow2(shift as nat) - 1) == 0xff);
                vstd::arithmetic::div_mod::lemma_fundamental_div_mod_converse(
                    0xff,
                    pow2(shift as nat) as int,
                    pow2(self.q_bits as nat) - 1,
                    pow2(shift as nat) - 1,
                );
                vstd::bits::lemma_u64_low_bits_mask_is_mod(self.queue, self.q_bits as nat);
                vstd::bits::lemma_u64_pow2_no_overflow(self.q_bits as nat);
            }
            let low: u8 = 0xff >> shift;
            proof {
                assert(low == vstd::bits::low_bits_mask(self.q_bits as nat));
                assert((self.queue & low as u64) == self.queue % (pow2(self.q_bits as nat) as u64));
            }
            let low_byte = (self.queue & low as u64) as u8;
            proof {
                lemma_bits_of_mod(self.queue as nat, self.q_bits as nat);
                assert(low_byte as nat == self.queue as nat % pow2(self.q_bits as nat));
                vstd::arithmetic::div_mod::lemma_mod_pos_bound(self.queue as int, pow2(self.q_bits as nat) as int);
                lemma_push_bits(low_byte as u64, self.q_bits as nat, 0, shift as nat);
                vstd::arithmetic::mul::lemma_mul_inequality(low_byte as int, pow2(self.q_bits as nat) - 1, pow2(shift as nat) as int);
                vstd::bits::lemma_u8_shl_is_mul(low_byte, shift);
                lemma_bits_of_zero(shift as nat);
            }
            let byte = low_byte << shift;
            proof {
                assert(byte as nat == low_byte as nat * pow2(shift as nat) + 0);
                assert(bits_of(byte as nat, 8) == bits_of(low_byte as nat, self.q_bits as nat) + bits_of(0, shift as nat));
                assert(bits_of(low_byte as nat, self.q_bits as nat) == bits_of(self.queue as nat, self.q_bits as nat));
            }
            let ghost before = self.output@;
            self.output.push(byte);
            self.queue = 0;
            self.q_bits = 0;
            proof {
                lemma_bytes_bits_push(before, byte);
                assert(self.queued() =~= Seq::<bool>::empty());
                assert(bytes_bits(self.output@) =~= mid + zero_bits(shift as nat));
            }
        } else {
            proof {
                assert(self.queued() =~= Seq::<bool>::empty());
                assert(zero_bits(0) =~= Seq::<bool>::empty());
                assert(bytes_bits(self.output@) =~= mid + zero_bits(0));
            }
        }
    }

    /// Add a block of data to the output. The block is assumed to be packed by BitPacker. "last"
    /// indicates if the block is the last block in the file. "padding" indicates how many
    /// trailing zeros were added to the last byte of the block to make it a multiple of 8 bits.
    /// Returns the bytes of the stream that are complete, for the caller to write out.
    pub fn add_block(&mut self, last: bool, data: &[u8], padding: u8) -> (written: Vec<u8>)
        requires
            old(self).wf(),
            old(self).block_size <= 9,
            data@.len() >= 10,
            padding <= 8,
        ensures
            final(self).wf(),
            final(self).output@ == Seq::<u8>::empty(),
            final(self).stream_crc == stream_crc_spec(old(self).stream_crc, block_crc_of(data@)),
            final(self).path == old(self).path,
            final(self).block_size == old(self).block_size,
            ({
                let stream = old(self).bit_view() + (if old(self).stream_crc == 0 {
                    bytes_bits(header_bytes(old(self).block_size))
                } else {
                    Seq::empty()
                }) + block_bits(data@, padding) + (if last {
                    bytes_bits(footer_magic()) + bits_of(final(self).stream_crc as nat, 32)
                } else {
                    Seq::empty()
                });
                if last {
                    &&& final(self).queued() == Seq::<bool>::empty()
                    &&& bytes_bits(written@) == stream + zero_bits(pad_to_byte(stream.len()))
                } else {
                    bytes_bits(written@) + final(self).queued() == stream
                }
            }),
    {
        let ghost start = self.bit_view();
        // If this is the first block, write the header
        if self.stream_crc == 0 {
            self.push_header();
        }
        let ghost after_header = self.bit_view();
        // Get the CRC from this block
        let block_crc: u32 = ((data[6] as u32) << 24u32) | ((data[7] as u32) << 16u32) | ((
        data[8] as u32) << 8u32) | (data[9] as u32);
        proof {
            let (a, b, c, d) = (data[6], data[7], data[8], data[9]);
            assert(((a as u32) << 24u32) | ((b as u32) << 16u32) | ((c as u32) << 8u32) | (
            d as u32) == a as u32 * 0x1000000 + b as u32 * 0x10000 + c as u32 * 0x100
                + d as u32) by (bit_vector);
        }
        // Update the stream crc
        self.stream_crc = do_stream_crc(self.stream_crc, block_crc);

        // Write all the block data
        self.out_bytes(data);

        // Back up the queue to remove any padding on the last byte
        let ghost with_data = self.bit_view();
        proof {
            lemma_bytes_bits_len(data@);
            assert(with_data == after_header + bytes_bits(data@));
        }
        if padding > 0 {
            let ghost old_q = self.queue;
            let ghost old_b = self.q_bits;
            proof {
                lemma_u64_shr_is_div(self.queue, padding as u64);
                lemma_bits_of_split(self.queue as nat, (self.q_bits - padding) as nat, padding as nat);
                lemma_pow2_pos(padding as nat);
                lemma_pow2_adds((self.q_bits - padding) as nat, padding as nat);
                vstd::arithmetic::div_mod::lemma_div_is_ordered(
                    self.queue as int,
                    (pow2((self.q_bits - padding) as nat) * pow2(padding as nat) - 1) as int,
                    pow2(padding as nat) as int,
                );
                vstd::arithmetic::mul::lemma_mul_is_distributive_sub_other_way(
                    pow2(padding as nat) as int,
                    pow2((self.q_bits - padding) as nat) as int,
                    1,
                );
                vstd::arithmetic::div_mod::lemma_fundamental_div_mod_converse(
                    (pow2((self.q_bits - padding) as nat) * pow2(padding as nat) - 1) as int,
                    pow2(padding as nat) as int,
                    pow2((self.q_bits - padding) as nat) - 1,
                    pow2(padding as nat) - 1,
                );
                lemma_bits_of_len(self.queue as nat, self.q_bits as nat);
                lemma_bits_of_len(self.queue as nat / pow2(padding as nat), (self.q_bits - padding) as nat);
                lemma_bits_of_len(self.queue as nat, padding as nat);
                assert((self.q_bits - padding) as nat + padding as nat == self.q_bits as nat);
            }
            self.queue = self.queue >> (padding as u64);
            self.q_bits = self.q_bits - padding;
            proof {
                let out = bytes_bits(self.output@);
                let full = bits_of(old_q as nat, old_b as nat);
                assert(full == self.queued() + bits_of(old_q as nat, padding as nat));
                assert(self.queued() =~= full.take(full.len() - padding));
                assert(self.bit_view() =~= with_data.take(with_data.len() - padding));
                assert(self.bit_view() =~= after_header + block_bits(data@, padding));
            }
        } else {
            proof {
                assert(bytes_bits(data@).take(bytes_bits(data@).len() - 0) =~= bytes_bits(data@));
            }
        }
        let ghost after_block = self.bit_view();
        assert(after_block == after_header + block_bits(data@, padding));
        if last {
            // First the stream footer magic, then the stream crc
            let magic: [u8; 6] = [0x17, 0x72, 0x45, 0x38, 0x50, 0x90];
            proof {
                assert(magic@ =~= footer_magic());
            }
            self.out_bytes(&magic);
            proof {
                lemma_small_pow2();
            }
            self.append(self.stream_crc as u64, 32);
            // Now flush the queue
            self.flush();
        }
        let mut written = Vec::new();
        std::mem::swap(&mut written, &mut self.output);
        proof {
            lemma_bytes_bits_len(Seq::<u8>::empty());
            assert(bytes_bits(self.output@) =~= Seq::<bool>::empty());
            if start == old(self).bit_view() {
            }
        }
        written
    }
}

} // verus!
