//! A bit reader over data held in memory. A set bit reads as true, a clear bit as false.
//! Requests for more bits than remain return None and leave the position unchanged.
use crate::bits::{bits_value, bytes_bits, lemma_bytes_bits_len};
use crate::tools::bitreader::BitReader as ByteBitReader;
use crate::tools::bitreader::bit_at;
use vstd::prelude::*;

verus! {

/// BitReader accepts input from slices &[u8] and returns bits, bytes and u32 values as requested.
pub struct BitReader {
    pub reader: ByteBitReader,
}

impl BitReader {
    pub open spec fn wf(&self) -> bool {
        self.reader.wf()
    }

    /// The reading position, in bits.
    pub open spec fn pos(&self) -> nat {
        self.reader.pos()
    }

    /// Number of bits in the data.
    pub open spec fn total(&self) -> nat {
        self.reader.total()
    }

    /// The data being read.
    pub open spec fn data(&self) -> Seq<u8> {
        self.reader.buffer@
    }

    /// The bits not yet read.
    pub open spec fn rest(&self) -> Seq<bool> {
        self.reader.rest()
    }

    /// Creates a new BitReader over the bytes of `data`.
    pub fn new(data: &[u8]) -> (br: Self)
        requires
            data@.len() * 8 + 8 <= usize::MAX,
        ensures
            br.wf(),
            br.data() == data@,
            br.pos() == 0,
    {
        Self { reader: ByteBitReader::new(data) }
    }

    /// Returns Some(true) if next bit is set, false if clear, None if no data is available
    pub fn bit(&mut self) -> (res: Option<bool>)
        requires
            old(self).wf(),
        ensures
            final(self).wf(),
            final(self).data() == old(self).data(),
            old(self).pos() < old(self).total() ==> res == Some(
                bit_at(old(self).data(), old(self).pos() as int),
            ) && final(self).pos() == old(self).pos() + 1,
            old(self).pos() >= old(self).total() ==> res is None && final(self).pos() == old(
                self,
            ).pos(),
    {
        self.reader.bool_bit()
    }

    /// The next bit; the same as [`BitReader::bit`].
    pub fn next(&mut self) -> (res: Option<bool>)
        requires
            old(self).wf(),
        ensures
            final(self).wf(),
            final(self).data() == old(self).data(),
            old(self).pos() < old(self).total() ==> res == Some(
                bit_at(old(self).data(), old(self).pos() as int),
            ) && final(self).pos() == old(self).pos() + 1,
            old(self).pos() >= old(self).total() ==> res is None,
    {
        self.bit()
    }

    /// Returns n bits as Option Vec, None if not enough data
    pub fn bits(&mut self, n: usize) -> (res: Option<Vec<bool>>)
        requires
            old(self).wf(),
        ensures
            final(self).wf(),
            final(self).data() == old(self).data(),
            old(self).pos() + n <= old(self).total() ==> (res matches Some(v) && v@ == old(
                self,
            ).rest().take(n as int) && final(self).pos() == old(self).pos() + n),
            old(self).pos() + n > old(self).total() ==> res is None && final(self).pos() == old(
                self,
            ).pos(),
    {
        if self.reader.buffer.len() * 8 - (self.reader.byte_index * 8 + self.reader.bit_index)
            < n {
            return None;
        }
        proof {
            lemma_bytes_bits_len(self.reader.buffer@);
        }
        let mut v: Vec<bool> = Vec::with_capacity(n);
        let mut i: usize = 0;
        while i < n
            invariant
                self.wf(),
                self.data() == old(self).data(),
                i <= n,
                old(self).pos() + n <= old(self).total(),
                self.pos() == old(self).pos() + i,
                v@ == old(self).rest().take(i as int),
                bytes_bits(self.data()).len() == self.total(),
            decreases n - i,
        {
            let b = self.bit();
            proof {
                let r = old(self).rest();
                assert(r.take(i + 1) =~= r.take(i as int).push(
                    bit_at(self.data(), (old(self).pos() + i) as int),
                ));
            }
            v.push(b.unwrap());
            i = i + 1;
        }
        Some(v)
    }

    /// Returns Some<u8> from the bit stream, irregardless of the current position of the index
    pub fn byte(&mut self) -> (res: Option<u8>)
        requires
            old(self).wf(),
        ensures
            final(self).wf(),
            final(self).data() == old(self).data(),
            old(self).pos() + 8 <= old(self).total() ==> res == Some(
                bits_value(old(self).rest().take(8)) as u8,
            ) && final(self).pos() == old(self).pos() + 8,
            old(self).pos() + 8 > old(self).total() ==> res is None && final(self).pos() == old(
                self,
            ).pos(),
    {
        if self.reader.buffer.len() * 8 - (self.reader.byte_index * 8 + self.reader.bit_index)
            < 8 {
            return None;
        }
        self.reader.byte()
    }

    /// Return Some(Vec) of n bytes, if available
    pub fn bytes(&mut self, n: usize) -> (res: Option<Vec<u8>>)
        requires
            old(self).wf(),
        ensures
            final(self).wf(),
            final(self).data() == old(self).data(),
            old(self).pos() + 8 * n <= old(self).total() ==> (res matches Some(v) && bytes_bits(
                v@,
            ) == old(self).rest().take(8 * n) && final(self).pos() == old(self).pos() + 8 * n),
            old(self).pos() + 8 * n > old(self).total() ==> res is None && final(self).pos()
                == old(self).pos(),
    {
        let avail = self.reader.buffer.len() - self.reader.byte_index;
        if avail < n || (avail == n && self.reader.bit_index > 0) {
            return None;
        }
        self.reader.bytes(n)
    }

    /// Returns Some<u32> from the bit stream: the next n bits as a number (kept to its low
    /// 32 bits), irregardless of the current position of the index.
    pub fn bint(&mut self, n: usize) -> (res: Option<u32>)
        requires
            old(self).wf(),
        ensures
            final(self).wf(),
            final(self).data() == old(self).data(),
            old(self).pos() + n <= old(self).total() ==> res == Some(
                (bits_value(old(self).rest().take(n as int)) % 0x100000000) as u32,
            ) && final(self).pos() == old(self).pos() + n,
            old(self).pos() + n > old(self).total() ==> res is None && final(self).pos() == old(
                self,
            ).pos(),
    {
        if self.reader.buffer.len() * 8 - (self.reader.byte_index * 8 + self.reader.bit_index)
            < n {
            return None;
        }
        proof {
            lemma_bytes_bits_len(self.reader.buffer@);
            assert(old(self).rest().take(0) =~= Seq::<bool>::empty());
        }
        let mut acc: u32 = 0;
        let mut i: usize = 0;
        while i < n
            invariant
                self.wf(),
                self.data() == old(self).data(),
                i <= n,
                old(self).pos() + n <= old(self).total(),
                self.pos() == old(self).pos() + i,
                acc == bits_value(old(self).rest().take(i as int)) % 0x100000000,
                bytes_bits(self.data()).len() == self.total(),
            decreases n - i,
        {
            let b = self.bit();
            let bit: u32 = if b.unwrap() {
                1
            } else {
                0
            };
            proof {
                let r = old(self).rest();
                assert(r.take(i + 1).drop_last() =~= r.take(i as int));
                let v = bits_value(r.take(i as int));
                vstd::arithmetic::div_mod::lemma_mul_mod_noop_right(2, v as int, 0x100000000);
                vstd::arithmetic::div_mod::lemma_add_mod_noop(2 * v as int, bit as int, 0x100000000);
                vstd::arithmetic::div_mod::lemma_add_mod_noop(2 * (v % 0x100000000) as int, bit as int, 0x100000000);
                assert(((acc << 1u32) | bit) == ((2 * acc as int + bit as int) % 0x100000000) as u32) by (bit_vector)
                    requires
                        bit <= 1,
                ;
                assert((2 * v as int) % 0x100000000 == (2 * (v % 0x100000000) as int) % 0x100000000);
            }
            acc = (acc << 1u32) | bit;
            i = i + 1;
        }
        Some(acc)
    }

    /// Return the number of bytes not yet read (a partly read byte counts).
    pub fn len(&mut self) -> (n: usize)
        requires
            old(self).wf(),
        ensures
            *final(self) == *old(self),
            n == old(self).data().len() - old(self).reader.byte_index,
    {
        self.reader.buffer.len() - self.reader.byte_index
    }

    /// Determines if the data is exhausted
    pub fn is_empty(&mut self) -> (b: bool)
        requires
            old(self).wf(),
        ensures
            *final(self) == *old(self),
            b == (old(self).reader.byte_index >= old(self).data().len()),
    {
        self.reader.byte_index >= self.reader.buffer.len()
    }
}

} // verus!
