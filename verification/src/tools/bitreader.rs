//! Reads a bzip2 stream held in memory and allows reading a specified number of bits.
use crate::bits::{bits_value, bytes_bits, lemma_bytes_bits_len, lemma_bytes_bits_skip, bits_of, lemma_bits_of_len};
use crate::text::{format_loc, loc_text};
use vstd::arithmetic::power2::pow2;
use vstd::prelude::*;

verus! {

/// The bit at position `pos` of a byte buffer, most significant bit of each byte first.
pub open spec fn bit_at(buffer: Seq<u8>, pos: int) -> bool {
    bytes_bits(buffer)[pos]
}

/// Reads a Bzip2 stream and allows reading a specified number of bits
pub struct BitReader {
    pub buffer: Vec<u8>,
    pub byte_index: usize,
    pub bit_index: usize,
}

/// Bit `k` (from the most significant) of a byte.
proof fn lemma_byte_bit(buffer: Seq<u8>, byte: int, k: int)
    requires
        0 <= byte < buffer.len(),
        0 <= k < 8,
    ensures
        bit_at(buffer, byte * 8 + k) == (((buffer[byte] >> (7 - k) as u8) & 1u8) == 1u8),
{
    lemma_bytes_bits_skip(buffer, byte);
    lemma_bytes_bits_len(buffer);
    lemma_bytes_bits_len(buffer.take(byte));
    assert(buffer =~= buffer.take(byte) + buffer.skip(byte));
    crate::bits::lemma_bytes_bits_append(buffer.take(byte), buffer.skip(byte));
    lemma_bits_of_len(buffer[byte] as nat, 8);
    assert(buffer.take(byte).len() == byte);
    assert(bytes_bits(buffer) == bytes_bits(buffer.take(byte)) + bits_of(buffer[byte] as nat, 8)
        + bytes_bits(buffer.skip(byte + 1)));
    assert(bytes_bits(buffer)[byte * 8 + k] == bits_of(buffer[byte] as nat, 8)[k]);
    lemma_bits_of_byte(buffer[byte], k);
}

/// The bits of a byte, one at a time.
proof fn lemma_bits_of_byte(b: u8, k: int)
    requires
        0 <= k < 8,
    ensures
        bits_of(b as nat, 8)[k] == (((b >> (7 - k) as u8) & 1u8) == 1u8),
{
    reveal_with_fuel(bits_of, 9);
    let s = (7 - k) as u8;
    assert(((b >> 0u8) & 1u8 == 1u8) == (b % 2 == 1)) by (bit_vector);
    assert(((b >> 1u8) & 1u8 == 1u8) == ((b / 2) % 2 == 1)) by (bit_vector);
    assert(((b >> 2u8) & 1u8 == 1u8) == ((b / 2 / 2) % 2 == 1)) by (bit_vector);
    assert(((b >> 3u8) & 1u8 == 1u8) == ((b / 2 / 2 / 2) % 2 == 1)) by (bit_vector);
    assert(((b >> 4u8) & 1u8 == 1u8) == ((b / 2 / 2 / 2 / 2) % 2 == 1)) by (bit_vector);
    assert(((b >> 5u8) & 1u8 == 1u8) == ((b / 2 / 2 / 2 / 2 / 2) % 2 == 1)) by (bit_vector);
    assert(((b >> 6u8) & 1u8 == 1u8) == ((b / 2 / 2 / 2 / 2 / 2 / 2) % 2 == 1)) by (bit_vector);
    assert(((b >> 7u8) & 1u8 == 1u8) == ((b / 2 / 2 / 2 / 2 / 2 / 2 / 2) % 2 == 1)) by (bit_vector);
}

impl BitReader {
    /// The reading position, in bits from the start of the buffer.
    pub open spec fn pos(&self) -> nat {
        (self.byte_index * 8 + self.bit_index) as nat
    }

    /// Number of bits in the buffer.
    pub open spec fn total(&self) -> nat {
        (self.buffer@.len() * 8) as nat
    }

    pub open spec fn wf(&self) -> bool {
        &&& self.bit_index < 8
        &&& self.pos() <= self.total()
        &&& self.buffer@.len() * 8 + 8 <= usize::MAX
    }

    /// The bits not yet read.
    pub open spec fn rest(&self) -> Seq<bool> {
        bytes_bits(self.buffer@).skip(self.pos() as int)
    }

    /// Called to create a new BitReader over the bytes of `source`.
    pub fn new(source: &[u8]) -> (br: Self)
        requires
            source@.len() * 8 + 8 <= usize::MAX,
        ensures
            br.wf(),
            br.buffer@ == source@,
            br.pos() == 0,
    {
        Self { buffer: vstd::slice::slice_to_vec(source), byte_index: 0, bit_index: 0 }
    }

    /// Return one bit
    pub fn bit(&mut self) -> (res: Option<usize>)
        requires
            old(self).wf(),
        ensures
            final(self).wf(),
            final(self).buffer@ == old(self).buffer@,
            old(self).pos() < old(self).total() ==> res == Some(
                if bit_at(old(self).buffer@, old(self).pos() as int) {
                    1usize
                } else {
                    0usize
                },
            ) && final(self).pos() == old(self).pos() + 1,
            old(self).pos() >= old(self).total() ==> res is None && final(self).pos() == old(
                self,
            ).pos(),
    {
        if self.byte_index >= self.buffer.len() {
            return None;
        }
        proof {
            lemma_byte_bit(self.buffer@, self.byte_index as int, self.bit_index as int);
        }
        let raw = self.buffer[self.byte_index] >> (7 - self.bit_index) as u8;
        let bit = raw & 1u8;
        self.bit_index = self.bit_index + 1;
        if self.bit_index == 8 {
            self.bit_index = 0;
            self.byte_index = self.byte_index + 1;
        }
        proof {
            assert(bit == 0u8 || bit == 1u8) by (bit_vector)
                requires
                    bit == (raw & 1u8),
            ;
        }
        Some(bit as usize)
    }

    /// Return the next bit as `Some(true)` if it is 1 and `Some(false)` if it is 0.
    pub fn bool_bit(&mut self) -> (res: Option<bool>)
        requires
            old(self).wf(),
        ensures
            final(self).wf(),
            final(self).buffer@ == old(self).buffer@,
            old(self).pos() < old(self).total() ==> res == Some(
                bit_at(old(self).buffer@, old(self).pos() as int),
            ) && final(self).pos() == old(self).pos() + 1,
            old(self).pos() >= old(self).total() ==> res is None && final(self).pos() == old(
                self,
            ).pos(),
    {
        match self.bit() {
            Some(b) => Some(b == 1),
            None => None,
        }
    }

    /// The next bit; the same as [`BitReader::bit`].
    pub fn next(&mut self) -> (res: Option<usize>)
        requires
            old(self).wf(),
        ensures
            final(self).wf(),
            final(self).buffer@ == old(self).buffer@,
            old(self).pos() < old(self).total() ==> res == Some(
                if bit_at(old(self).buffer@, old(self).pos() as int) {
                    1usize
                } else {
                    0usize
                },
            ) && final(self).pos() == old(self).pos() + 1,
            old(self).pos() >= old(self).total() ==> res is None,
    {
        self.bit()
    }

    /// Return the next n bits as a number, most significant first. When fewer than n bits
    /// remain, returns None and leaves the reader at the end of the buffer.
    pub fn bint(&mut self, n: usize) -> (res: Option<usize>)
        requires
            old(self).wf(),
            n <= 32,
        ensures
            final(self).wf(),
            final(self).buffer@ == old(self).buffer@,
            old(self).pos() + n <= old(self).total() ==> res == Some(
                bits_value(old(self).rest().take(n as int)) as usize,
            ) && final(self).pos() == old(self).pos() + n,
            old(self).pos() + n > old(self).total() ==> res is None && final(self).pos()
                == old(self).total(),
    {
        let mut result: usize = 0;
        let mut i: usize = 0;
        proof {
            lemma_bytes_bits_len(self.buffer@);
            crate::bits::lemma_small_pow2();
            assert(old(self).rest().take(0) =~= Seq::<bool>::empty());
        }
        while i < n
            invariant
                self.wf(),
                self.buffer@ == old(self).buffer@,
                i <= n <= 32,
                self.pos() == old(self).pos() + i,
                self.pos() <= self.total(),
                result == bits_value(old(self).rest().take(i as int)),
                result < pow2(i as nat),
                bytes_bits(self.buffer@).len() == self.total(),
            decreases n - i,
        {
            let b = self.bit();
            match b {
                Some(v) => {
                    proof {
                        let r = old(self).rest();
                        assert(r.take(i + 1).drop_last() =~= r.take(i as int));
                        assert(r.take(i + 1).last() == bit_at(self.buffer@, (old(self).pos() + i) as int));
                        vstd::arithmetic::power2::lemma_pow2_unfold((i + 1) as nat);
                        vstd::arithmetic::power2::lemma_pow2_strictly_increases((i + 1) as nat, 33);
                        crate::bits::lemma_small_pow2();
                        vstd::arithmetic::power2::lemma2_to64();
                        vstd::arithmetic::power2::lemma2_to64_rest();
                    }
                    result = result * 2 + v;
                },
                None => {
                    return None;
                },
            }
            i = i + 1;
        }
        Some(result)
    }

    /// Read and return a bytes as an Option<u8>
    pub fn byte(&mut self) -> (res: Option<u8>)
        requires
            old(self).wf(),
        ensures
            final(self).wf(),
            final(self).buffer@ == old(self).buffer@,
            old(self).pos() + 8 <= old(self).total() ==> res == Some(
                bits_value(old(self).rest().take(8)) as u8,
            ) && final(self).pos() == old(self).pos() + 8,
            old(self).pos() + 8 > old(self).total() ==> res is None && final(self).pos()
                == old(self).total(),
    {
        proof {
            lemma_bytes_bits_len(self.buffer@);
        }
        match self.bint(8) {
            Some(b) => {
                proof {
                    crate::bits::lemma_small_pow2();
                    crate::bits::lemma_bits_of_value(old(self).rest().take(8));
                }
                Some(b as u8)
            },
            None => None,
        }
    }

    /// Read and return a vec of n bytes, or None (reading nothing) when fewer than n
    /// bytes remain.
    pub fn bytes(&mut self, n: usize) -> (res: Option<Vec<u8>>)
        requires
            old(self).wf(),
        ensures
            final(self).wf(),
            final(self).buffer@ == old(self).buffer@,
            old(self).pos() + 8 * n <= old(self).total() ==> res is Some && final(self).pos()
                == old(self).pos() + 8 * n && bytes_bits(res.unwrap()@) == old(self).rest().take(8 * n),
            old(self).pos() + 8 * n > old(self).total() ==> res is None && final(self).pos()
                == old(self).pos(),
    {
        let avail = (self.buffer.len() * 8 - (self.byte_index * 8 + self.bit_index)) / 8;
        if n > avail {
            return None;
        }
        let mut result: Vec<u8> = Vec::with_capacity(n);
        let mut k: usize = 0;
        while k < n
            invariant
                self.wf(),
                self.buffer@ == old(self).buffer@,
                k <= n,
                old(self).pos() + 8 * n <= old(self).total(),
                self.pos() == old(self).pos() + 8 * k,
                bytes_bits(result@) == old(self).rest().take(8 * k),
            decreases n - k,
        {
            let ghost pre = self.rest();
            proof {
                lemma_bytes_bits_len(self.buffer@);
            }
            let b = self.byte();
            let byte = b.unwrap();
            proof {
                let r = old(self).rest();
                let piece = r.skip(8 * k).take(8);
                assert(piece =~= r.take(8 * k + 8).skip(8 * k));
                assert(pre =~= r.skip(8 * k));
                assert(pre.take(8) == piece);
                crate::bits::lemma_small_pow2();
                crate::bits::lemma_bits_of_value(piece);
                crate::bits::lemma_bytes_bits_push(result@, byte);
                assert(r.take(8 * k + 8) =~= r.take(8 * k) + piece);
            }
            result.push(byte);
            k = k + 1;
        }
        Some(result)
    }

    /// Debugging function. Report current position.
    pub fn loc(&self) -> (s: String)
        ensures
            s@ == loc_text(self.byte_index as nat, self.bit_index as nat),
    {
        format_loc(self.byte_index, self.bit_index)
    }
}

} // verus!
