//! A bitstream for output. Although output is accessible at any time, it
//! is best to call flush before reading the "final" output.
use crate::bits::{
    bits_of, bytes_bits, lemma_bits_of_len, lemma_bits_of_mod, lemma_bits_of_zero,
    lemma_bytes_bits_len, lemma_small_pow2, zero_bits,
};
use crate::bitstream::bitpacker::{drain_queue, lemma_push_bits};
use vstd::arithmetic::power2::{lemma_pow2_pos, pow2};
use vstd::prelude::*;

verus! {

/// Creates a bitstream for output.
pub struct BitWriter {
    pub output: Vec<u8>,
    pub queue: u64,
    pub q_bits: u8,
}

impl BitWriter {
    pub open spec fn wf(&self) -> bool {
        self.q_bits <= 7 && self.queue < pow2(self.q_bits as nat)
    }

    /// The bits written but not yet moved to the output buffer.
    pub open spec fn queued(&self) -> Seq<bool> {
        bits_of(self.queue as nat, self.q_bits as nat)
    }

    /// Every bit written so far, in order.
    pub open spec fn bit_view(&self) -> Seq<bool> {
        bytes_bits(self.output@) + self.queued()
    }

    /// Called to create a new bitwriter
    pub fn new() -> (bw: Self)
        ensures
            bw.wf(),
            bw.output@ == Seq::<u8>::empty(),
            bw.queued() == Seq::<bool>::empty(),
    {
        proof {
            lemma_small_pow2();
        }
        Self { output: Vec::new(), queue: 0, q_bits: 0 }
    }

    /// Appends `depth` bits, the value `m`, below the queue and moves whole bytes out.
    fn push(&mut self, m: u64, depth: u8)
        requires
            old(self).wf(),
            1 <= depth <= 32,
            m < pow2(depth as nat),
        ensures
            final(self).wf(),
            final(self).bit_view() == old(self).bit_view() + bits_of(m as nat, depth as nat),
    {
        proof {
            lemma_push_bits(self.queue, self.q_bits as nat, m, depth as nat);
        }
        let ghost before = self.bit_view();
        self.queue = (self.queue << (depth as u64)) | m;
        self.q_bits = self.q_bits + depth;
        proof {
            assert(self.bit_view() =~= before + bits_of(m as nat, depth as nat));
        }
        let (q, b) = drain_queue(&mut self.output, self.queue, self.q_bits);
        self.queue = q;
        self.q_bits = b;
    }

    /// Takes a 32 bit word in the format of a u8 as bit count in the most
    /// significant bits of the word plus 0-24 bits of right aligned
    /// binary encoded data and puts it on the stream.
    /// The data bits are merged into the queue as they stand: when they fit in the bit
    /// count, exactly those bits are appended.
    pub fn out24(&mut self, data: u32)
        requires
            old(self).wf(),
            data / 0x1000000 <= 24,
        ensures
            final(self).wf(),
            ({
                let depth = data as nat / 0x1000000;
                let merged = ((old(self).queue << depth as u64) | ((data % 0x1000000) as u64)) as nat;
                &&& final(self).bit_view() == bytes_bits(old(self).output@) + bits_of(
                    merged,
                    old(self).q_bits as nat + depth,
                )
                &&& data % 0x1000000 < pow2(depth) ==> final(self).bit_view() == old(
                    self,
                ).bit_view() + bits_of(data as nat, depth)
            }),
    {
        proof {
            vstd::bits::lemma_u32_shr_is_div(data, 24);
            lemma_small_pow2();
            assert(data & 0x00ffffffu32 == data % 0x1000000) by (bit_vector);
        }
        let depth = (data >> 24) as u8;
        let payload = (data & 0x00ffffff) as u64;
        let ghost before = self.bit_view();
        let merged = (self.queue << (depth as u64)) | payload;
        let total: u8 = self.q_bits + depth;
        proof {
            vstd::bits::lemma_u64_pow2_no_overflow(total as nat);
            vstd::bits::lemma_u64_shl_is_mul(1, total as u64);
            vstd::bits::lemma_u64_low_bits_mask_is_mod(merged, total as nat);
        }
        let mask: u64 = (1u64 << (total as u64)) - 1;
        proof {
            assert(mask == vstd::bits::low_bits_mask(total as nat));
            lemma_bits_of_mod(merged as nat, total as nat);
            vstd::arithmetic::div_mod::lemma_mod_pos_bound(merged as int, pow2(total as nat) as int);
            if payload < pow2(depth as nat) {
                if depth >= 1 {
                    lemma_push_bits(self.queue, self.q_bits as nat, payload, depth as nat);
                } else {
                    assert(payload == 0);
                    let q0 = self.queue;
                    assert(merged == q0) by (bit_vector)
                        requires
                            merged == (q0 << 0u64) | payload,
                            payload == 0,
                    ;
                    assert(bits_of(data as nat, 0) =~= Seq::<bool>::empty());
                }
                lemma_bits_of_mod(data as nat, depth as nat);
                lemma_pow2_pos(depth as nat);
                vstd::arithmetic::power2::lemma_pow2_adds(depth as nat, (24 - depth) as nat);
                lemma_pow2_pos((24 - depth) as nat);
                vstd::arithmetic::div_mod::lemma_mod_mod(
                    data as int,
                    pow2(depth as nat) as int,
                    pow2((24 - depth) as nat) as int,
                );
                vstd::arithmetic::div_mod::lemma_small_mod(payload as nat, pow2(depth as nat));
                assert(bits_of(payload as nat, depth as nat) == bits_of(data as nat, depth as nat));
                assert(bytes_bits(self.output@) + bits_of(merged as nat, total as nat) =~= before
                    + bits_of(data as nat, depth as nat));
            }
        }
        self.queue = merged & mask;
        self.q_bits = total;
        let (q, b) = drain_queue(&mut self.output, self.queue, self.q_bits);
        self.queue = q;
        self.q_bits = b;
    }

    /// Takes a 32 bit word of pre-packed binary encoded data and puts it on the stream.
    pub fn out32(&mut self, data: u32)
        requires
            old(self).wf(),
        ensures
            final(self).wf(),
            final(self).bit_view() == old(self).bit_view() + bits_of(data as nat, 32),
    {
        proof {
            lemma_small_pow2();
        }
        self.push(data as u64, 32);
    }

    /// Takes a 16 bit word  of pre-packed binary encoded data and puts it on the stream.
    pub fn out16(&mut self, data: u16)
        requires
            old(self).wf(),
        ensures
            final(self).wf(),
            final(self).bit_view() == old(self).bit_view() + bits_of(data as nat, 16),
    {
        proof {
            lemma_small_pow2();
        }
        self.push(data as u64, 16);
    }

    /// Takes an 8 bit word  of pre-packed binary encoded data and puts it on the stream.
    pub fn out8(&mut self, data: u8)
        requires
            old(self).wf(),
        ensures
            final(self).wf(),
            final(self).bit_view() == old(self).bit_view() + bits_of(data as nat, 8),
    {
        proof {
            lemma_small_pow2();
        }
        self.push(data as u64, 8);
    }

    /// Flushes the remaining bits (1-7) from the buffer, padding with 0s in the least
    /// signficant bits
    pub fn flush(&mut self)
        requires
            old(self).wf(),
        ensures
            final(self).wf(),
            final(self).queued() == Seq::<bool>::empty(),
            bytes_bits(final(self).output@) == old(self).bit_view() + zero_bits(
                (if old(self).queued().len() == 0 {
                    0
                } else {
                    8 - old(self).queued().len()
                }) as nat,
            ),
    {
        proof {
            lemma_bits_of_len(self.queue as nat, self.q_bits as nat);
        }
        if self.q_bits > 0 {
            let p: u8 = 8 - self.q_bits;
            proof {
                lemma_small_pow2();
                lemma_pow2_pos(p as nat);
                lemma_bits_of_zero(p as nat);
                lemma_bits_of_len(0, p as nat);
                lemma_bytes_bits_len(self.output@);
            }
            self.push(0, p);
            proof {
                lemma_bits_of_len(self.queue as nat, self.q_bits as nat);
                lemma_bytes_bits_len(self.output@);
                lemma_bytes_bits_len(old(self).output@);
                assert(old(self).bit_view().len() == 8 * old(self).output@.len() + old(self).q_bits);
                assert(self.bit_view().len() == old(self).bit_view().len() + p);
                assert(self.bit_view().len() == 8 * self.output@.len() + self.q_bits);
                assert(self.q_bits == 0);
                assert(self.queued() =~= Seq::<bool>::empty());
                assert(bytes_bits(self.output@) =~= old(self).bit_view() + zero_bits(p as nat));
            }
        } else {
            proof {
                assert(self.queued() =~= Seq::<bool>::empty());
                assert(zero_bits(0) =~= Seq::<bool>::empty());
                assert(bytes_bits(self.output@) =~= old(self).bit_view() + zero_bits(0));
            }
        }
    }
}

} // verus!
