//! BitPacker builds a packed bitstream for the block-oriented construction of BZIP2 compressed files.
//!
//! The packed blocks are padded at the end with zeros to reach a full byte. In order for the
//! final aggregator to know how much padding was added, the BitPacker makes both the output and
//! the padding value available publicly. The padding is always a number between 0 and 7 bits.
use crate::bits::{
    bits_of, bytes_bits, lemma_append_bits, lemma_bits_of_len, lemma_bits_of_mod, lemma_bits_of_zero,
    lemma_bytes_bits_len, lemma_bytes_bits_push, lemma_small_pow2, lemma_take_top_byte, zero_bits,
};
use crate::text::{format_loc, loc_text};
use vstd::arithmetic::power2::*;
use vstd::bits::*;
use vstd::prelude::*;

verus! {

/// Creates a huffman-encoded, packed bitstream of one block of data. The final byte of the block
/// is padded with zeros to reach a full byte.
pub struct BitPacker {
    /// The output buffer which can be read externally.
    pub output: Vec<u8>,
    /// The number of zero bits padded to the last byte of the output buffer.
    pub padding: u8,
    /// The queue holds bits temporarily until we can put full bytes on the output buffer
    pub queue: u64,
    /// q_bits is the number of valid bits in the queue
    pub q_bits: u8,
}

/// Moves whole bytes from the top of a queue of `q_bits` bits onto `output`.
/// Returns the queue and its bit count after the move (fewer than 8 bits remain).
pub(crate) fn drain_queue(output: &mut Vec<u8>, queue0: u64, q_bits0: u8) -> (res: (u64, u8))
    requires
        q_bits0 <= 64,
        queue0 < pow2(q_bits0 as nat),
    ensures
        res.1 <= 7,
        res.0 < pow2(res.1 as nat),
        bytes_bits(final(output)@) + bits_of(res.0 as nat, res.1 as nat) == bytes_bits(
            old(output)@,
        ) + bits_of(queue0 as nat, q_bits0 as nat),
{
    let mut queue = queue0;
    let mut q_bits = q_bits0;
    while q_bits > 7
        invariant
            q_bits <= 64,
            queue < pow2(q_bits as nat),
            bytes_bits(output@) + bits_of(queue as nat, q_bits as nat) == bytes_bits(old(output)@)
                + bits_of(queue0 as nat, q_bits0 as nat),
        decreases q_bits,
    {
        let k: u8 = q_bits - 8;
        proof {
            lemma_take_top_byte(queue as nat, k as nat);
            lemma_u64_shr_is_div(queue, k as u64);
            lemma_u64_pow2_no_overflow(k as nat);
            lemma_u64_shl_is_mul(1, k as u64);
            lemma_u64_low_bits_mask_is_mod(queue, k as nat);
        }
        let byte = (queue >> (k as u64)) as u8;
        let ghost before = output@;
        output.push(byte);
        let mask: u64 = (1u64 << (k as u64)) - 1;
        proof {
            assert(mask == low_bits_mask(k as nat));
        }
        let new_queue = queue & mask;
        proof {
            lemma_bytes_bits_push(before, byte);
            assert((k + 8) as nat == k as nat + 8);
            assert(bytes_bits(output@) + bits_of(new_queue as nat, k as nat) =~= bytes_bits(before)
                + bits_of(queue as nat, q_bits as nat));
        }
        queue = new_queue;
        q_bits = k;
    }
    (queue, q_bits)
}

/// Puts `depth` more bits, the low bits of `m`, below the queue.
pub(crate) proof fn lemma_push_bits(queue: u64, q_bits: nat, m: u64, depth: nat)
    requires
        q_bits + depth <= 64,
        queue < pow2(q_bits),
        1 <= depth <= 32,
        m < pow2(depth),
    ensures
        (queue << depth as u64) | m == queue as nat * pow2(depth) + m as nat,
        queue as nat * pow2(depth) + (m as nat) < pow2(q_bits + depth),
        bits_of(queue as nat * pow2(depth) + m as nat, q_bits + depth) == bits_of(
            queue as nat,
            q_bits,
        ) + bits_of(m as nat, depth),
{
    lemma_append_bits(queue as nat, q_bits, m as nat, depth);
    lemma_pow2_pos(depth);
    lemma_pow2_adds(q_bits, depth);
    if q_bits + depth < 64 {
        lemma_pow2_strictly_increases(q_bits + depth, 64);
    }
    lemma2_to64_rest();
    lemma_u64_pow2_no_overflow(depth);
    vstd::arithmetic::mul::lemma_mul_inequality(queue as int, pow2(q_bits) - 1, pow2(depth) as int);
    vstd::arithmetic::mul::lemma_mul_is_distributive_sub_other_way(pow2(depth) as int, pow2(q_bits) as int, 1);
    lemma_u64_shl_is_mul(queue, depth as u64);
    lemma_u64_shl_is_mul(1, depth as u64);
    let d = depth as u64;
    let sh = queue << d;
    assert(m < (1u64 << d));
    assert((sh | m) == sh + m) by (bit_vector)
        requires
            sh == queue << d,
            m < (1u64 << d),
            d < 64,
    ;
}

impl BitPacker {
    /// The queue holds fewer than eight bits, and nothing above them.
    pub open spec fn wf(&self) -> bool {
        self.q_bits <= 7 && self.queue < pow2(self.q_bits as nat)
    }

    /// The bits written but not yet moved to the output buffer.
    pub open spec fn queued(&self) -> Seq<bool> {
        bits_of(self.queue as nat, self.q_bits as nat)
    }

    /// Every bit written so far, in order.
    pub open spec fn bit_view(&self) -> Seq<bool> {
        bytes_bits(self.output@) + self.queued()
    }

    /// The bits written so far are those of the output buffer followed by the queue.
    pub proof fn lemma_bit_view(&self)
        ensures
            self.bit_view() == bytes_bits(self.output@) + self.queued(),
            self.wf() ==> self.queued().len() < 8,
    {
        lemma_bits_of_len(self.queue as nat, self.q_bits as nat);
    }

    /// Create a new BitPacker with an output buffer with the capacity specified in size.
    pub fn new(size: usize) -> (bp: Self)
        ensures
            bp.wf(),
            bp.output@ == Seq::<u8>::empty(),
            bp.queued() == Seq::<bool>::empty(),
            bp.padding == 0,
    {
        proof {
            lemma_small_pow2();
        }
        Self { output: Vec::with_capacity(size), padding: 0, queue: 0, q_bits: 0 }
    }

    /// Internal bitstream write function common to all out.XX functions. Keeps the queue short.
    fn write_stream(&mut self)
        requires
            old(self).q_bits < 64,
            old(self).queue < pow2(old(self).q_bits as nat),
        ensures
            final(self).wf(),
            final(self).bit_view() == old(self).bit_view(),
            final(self).padding == old(self).padding,
    {
        let (q, b) = drain_queue(&mut self.output, self.queue, self.q_bits);
        self.queue = q;
        self.q_bits = b;
    }

    /// Writes 0-24 bits encoded with the number of bits to write in the most
    /// significant byte of a 32 bit word: the low `depth` bits of `data`, most
    /// significant first, where `depth` is the top byte of `data`.
    pub fn out24(&mut self, data: u32)
        requires
            old(self).wf(),
            data / 0x1000000 <= 24,
        ensures
            final(self).wf(),
            final(self).bit_view() == old(self).bit_view() + bits_of(
                data as nat,
                data as nat / 0x1000000,
            ),
            final(self).padding == old(self).padding,
    {
        proof {
            lemma_u32_shr_is_div(data, 24);
            lemma_small_pow2();
        }
        let depth = (data >> 24) as u8;
        if depth == 0 {
            proof {
                assert(old(self).bit_view() + bits_of(data as nat, 0) =~= old(self).bit_view());
            }
            return;
        }
        let sh: u32 = 32 - depth as u32;
        let mask: u32 = 0xffffffff >> sh;
        proof {
            lemma_u32_shr_is_div(0xffffffff, sh);
            lemma_pow2_adds(depth as nat, sh as nat);
            lemma_pow2_pos(sh as nat);
            lemma_pow2_pos(depth as nat);
            assert(depth as nat + sh as nat == 32);
            vstd::arithmetic::mul::lemma_mul_is_distributive_sub_other_way(
                pow2(sh as nat) as int,
                pow2(depth as nat) as int,
                1,
            );
            assert((pow2(depth as nat) - 1) * pow2(sh as nat) + (pow2(sh as nat) - 1)
                == 0xffffffff);
            vstd::arithmetic::div_mod::lemma_fundamental_div_mod_converse(
                0xffffffff,
                pow2(sh as nat) as int,
                pow2(depth as nat) - 1,
                pow2(sh as nat) - 1,
            );
            assert(mask == low_bits_mask(depth as nat));
            lemma_u32_low_bits_mask_is_mod(data, depth as nat);
            lemma_u32_pow2_no_overflow(depth as nat);
            assert(mask == low_bits_mask(depth as nat) as u32);
            assert((data & mask) as nat == (data as nat) % pow2(depth as nat));
            lemma_bits_of_mod(data as nat, depth as nat);
        }
        let m = (data & mask) as u64;
        proof {
            lemma_push_bits(self.queue, self.q_bits as nat, m, depth as nat);
        }
        let ghost old_view = self.bit_view();
        self.queue = (self.queue << (depth as u64)) | m;
        self.q_bits = self.q_bits + depth;
        proof {
            assert(depth as nat == data as nat / 0x1000000);
            assert(bits_of(m as nat, depth as nat) == bits_of(data as nat, depth as nat));
            assert(self.bit_view() =~= old_view + bits_of(data as nat, depth as nat));
        }
        self.write_stream();
    }

    /// Puts a 32 bit word of pre-packed binary encoded data on the stream.
    pub fn out32(&mut self, data: u32)
        requires
            old(self).wf(),
        ensures
            final(self).wf(),
            final(self).bit_view() == old(self).bit_view() + bits_of(data as nat, 32),
            final(self).padding == old(self).padding,
    {
        proof {
            lemma_small_pow2();
            lemma_push_bits(self.queue, self.q_bits as nat, data as u64, 32);
        }
        self.queue = (self.queue << 32u64) | (data as u64);
        self.q_bits = self.q_bits + 32;
        self.write_stream();
    }

    /// Puts a 16 bit word  of pre-packed binary encoded data on the stream.
    pub fn out16(&mut self, data: u16)
        requires
            old(self).wf(),
        ensures
            final(self).wf(),
            final(self).bit_view() == old(self).bit_view() + bits_of(data as nat, 16),
            final(self).padding == old(self).padding,
    {
        proof {
            lemma_small_pow2();
            lemma_push_bits(self.queue, self.q_bits as nat, data as u64, 16);
        }
        self.queue = (self.queue << 16u64) | (data as u64);
        self.q_bits = self.q_bits + 16;
        self.write_stream();
    }

    /// Flushes the remaining bits (1-7) from the buffer, padding with 0s in the least
    /// signficant bits; with nothing queued no bits are padded and the padding is 0. Flush MUST be called before reading the output or data may be
    /// left in the private queue.
    pub fn flush(&mut self)
        requires
            old(self).wf(),
        ensures
            final(self).wf(),
            final(self).queued() == Seq::<bool>::empty(),
            old(self).queued().len() == 0 ==> final(self).output@ == old(self).output@
                && final(self).padding == 0,
            old(self).queued().len() > 0 ==> final(self).padding == 8 - old(self).queued().len()
                && bytes_bits(final(self).output@) == old(self).bit_view() + zero_bits(
                (8 - old(self).queued().len()) as nat,
            ),
    {
        proof {
            lemma_bits_of_len(self.queue as nat, self.q_bits as nat);
        }
        if self.q_bits > 0 {
            self.padding = 8 - self.q_bits % 8;
            let p = self.padding;
            proof {
                lemma_small_pow2();
                lemma_pow2_pos(p as nat);
                lemma_push_bits(self.queue, self.q_bits as nat, 0, p as nat);
                lemma_bits_of_zero(p as nat);
            }
            self.queue = self.queue << (p as u64);
            proof {
                assert(self.queue == self.queue | 0u64) by (bit_vector);
            }
            self.q_bits = self.q_bits + p;
            proof {
                lemma_bits_of_len(self.queue as nat, self.q_bits as nat);
                lemma_bytes_bits_len(self.output@);
            }
            let ghost mid_len = self.bit_view().len();
            assert(mid_len == 8 * self.output@.len() + 8);
            self.write_stream();
            proof {
                lemma_bits_of_len(self.queue as nat, self.q_bits as nat);
                lemma_bytes_bits_len(self.output@);
                assert(self.q_bits == 0);
                assert(self.queued() =~= Seq::<bool>::empty());
            }
        } else {
            self.padding = 0;
            proof {
                assert(self.queued() =~= Seq::<bool>::empty());
            }
        }
    }

    /// Debugging function to return the number of bytes.bits output so far
    pub fn loc(&self) -> (s: String)
        requires
            self.wf(),
            self.output@.len() * 8 + 8 <= usize::MAX,
        ensures
            s@ == loc_text(self.output@.len(), self.queued().len()),
    {
        proof {
            lemma_bits_of_len(self.queue as nat, self.q_bits as nat);
        }
        let total = self.output.len() * 8 + self.q_bits as usize;
        format_loc(total / 8, total % 8)
    }
}

} // verus!
