//! Huffman decoding from a self-describing table, and the small encoders of the
//! tree-selection fields of a block.
use std::collections::HashMap;
use vstd::prelude::*;
use vstd::arithmetic::power2::pow2;

verus! {

broadcast use vstd::std_specs::hash::group_hash_axioms;

/// The little-endian 32-bit number at `p`.
pub open spec fn le_u32(d: Seq<u8>, p: int) -> u32 {
    (d[p] as int + 256 * d[p + 1] + 65536 * d[p + 2] + 16777216 * d[p + 3]) as u32
}

/// The number of code entries at the head of encoded data.
pub open spec fn code_count(d: Seq<u8>) -> nat {
    le_u32(d, 0) as nat
}

/// Where the encoded bits start: after the count and five bytes for each entry.
pub open spec fn data_start(d: Seq<u8>) -> int {
    4 + 5 * (code_count(d) as int)
}

/// The table of the first `k` code entries: each entry is a symbol byte followed by its
/// code (a little-endian word holding the code's length in its top bits); a later
/// entry for the same code replaces an earlier one.
pub open spec fn code_table(d: Seq<u8>, k: nat) -> Map<u32, u8>
    decreases k,
{
    if k == 0 {
        Map::empty()
    } else {
        let p = 4 + 5 * (k - 1);
        code_table(d, (k - 1) as nat).insert(le_u32(d, p + 1), d[p])
    }
}

/// Bit `j` of `b`, counting from the most significant.
pub open spec fn byte_bit(b: u8, j: int) -> bool {
    (b >> ((7 - j) as u8)) & 1u8 == 1u8
}

/// The bits of `d`, most significant first.
pub open spec fn data_bits(d: Seq<u8>) -> Seq<bool> {
    Seq::new(8 * d.len(), |k: int| byte_bit(d[k / 8], k % 8))
}

/// The lookup word for a code of `depth` bits with value `curr`.
pub open spec fn code_key(curr: u32, depth: u32) -> u32 {
    curr | (depth << 26u32)
}

/// The decoder after one more bit: the bit joins the current code, and when the
/// table knows the code its symbol is written and a new code starts.
pub open spec fn decode_step(table: Map<u32, u8>, st: (Seq<u8>, u32, u32), bit: bool) -> (
    Seq<u8>,
    u32,
    u32,
) {
    let depth = (st.2 + 1) as u32;
    let curr = ((st.1 << 1u32) | (if bit {
        1u32
    } else {
        0u32
    })) as u32;
    if table.contains_key(code_key(curr, depth)) {
        (st.0.push(table[code_key(curr, depth)]), 0u32, 0u32)
    } else {
        (st.0, curr, depth)
    }
}

/// The decoder after the bits `bits`: the symbols written, the current code and its length.
pub open spec fn decode_bits(table: Map<u32, u8>, bits: Seq<bool>) -> (Seq<u8>, u32, u32)
    decreases bits.len(),
{
    if bits.len() == 0 {
        (Seq::empty(), 0u32, 0u32)
    } else {
        decode_step(table, decode_bits(table, bits.drop_last()), bits.last())
    }
}

/// The symbols that [`huf_decode`] reads from `d`.
pub open spec fn huf_decode_spec(d: Seq<u8>) -> Seq<u8> {
    decode_bits(code_table(d, code_count(d)), data_bits(d.skip(data_start(d)))).0
}

/// The code length never exceeds the bits read.
proof fn lemma_decode_depth(table: Map<u32, u8>, bits: Seq<bool>)
    ensures
        decode_bits(table, bits).2 <= bits.len(),
    decreases bits.len(),
{
    if bits.len() > 0 {
        lemma_decode_depth(table, bits.drop_last());
    }
}

/// Reads the little-endian word at `p`.
fn read_le_u32(data: &[u8], p: usize) -> (v: u32)
    requires
        p + 4 <= data@.len(),
    ensures
        v == le_u32(data@, p as int),
{
    let b0 = data[p] as u32;
    let b1 = data[p + 1] as u32;
    let b2 = data[p + 2] as u32;
    let b3 = data[p + 3] as u32;
    b0 + 256 * b1 + 65536 * b2 + 16777216 * b3
}

/// For decoding, store codes and bitdepth in a hashmap. This should allow for fast decoding.
/// The data starts with the number of code entries, then the entries, then the coded bits.
pub fn huf_decode(data: &[u8]) -> (data_out: Vec<u8>)
    requires
        data@.len() >= 4,
        data_start(data@) <= data@.len(),
        data@.len() < 0x2000_0000,
    ensures
        data_out@ == huf_decode_spec(data@),
{
    let ghost d = data@;
    let count = read_le_u32(data, 0) as usize;
    let mut codes: HashMap<u32, u8> = HashMap::new();
    let mut pos: usize = 4;
    let mut i: usize = 1;
    while i <= count
        invariant
            d == data@,
            count == code_count(d),
            4 + 5 * count <= d.len(),
            1 <= i <= count + 1,
            count < 0x2000_0000,
            pos == 4 + 5 * (i - 1),
            codes@ == code_table(d, (i - 1) as nat),
        decreases count + 1 - i,
    {
        let symbol = data[pos];
        let code = read_le_u32(data, pos + 1);
        pos = i * 5 + 4;
        codes.insert(code, symbol);
        proof {
            assert(codes@ == code_table(d, i as nat));
        }
        i = i + 1;
    }
    let ghost table = codes@;
    let ghost bits = data_bits(d.skip(pos as int));
    let mut curr_code: u32 = 0;
    let mut data_out: Vec<u8> = Vec::new();
    let mut depth: u32 = 0;
    let start = pos;
    let mut i: usize = start;
    while i < data.len()
        invariant
            d == data@,
            d.len() < 0x2000_0000,
            start <= i <= d.len(),
            table == codes@,
            bits == data_bits(d.skip(start as int)),
            (data_out@, curr_code, depth) == decode_bits(table, bits.take(8 * (i - start))),
        decreases d.len() - i,
    {
        let orig = data[i];
        let mut byte = orig;
        let mut j: u8 = 0;
        proof {
            assert(((orig as u32) << 0u32) as u8 == orig) by (bit_vector);
        }
        while j < 8
            invariant
                d == data@,
                d.len() < 0x2000_0000,
                start <= i < d.len(),
                orig == d[i as int],
                j <= 8,
                byte == ((orig as u32) << (j as u32)) as u8,
                table == codes@,
                bits == data_bits(d.skip(start as int)),
                (data_out@, curr_code, depth) == decode_bits(table, bits.take(8 * (i - start) + j)),
            decreases 8 - j,
        {
            let ghost k = 8 * (i - start) + j;
            proof {
                lemma_decode_depth(table, bits.take(k));
                assert(bits.take(k + 1).drop_last() =~= bits.take(k));
                assert(k / 8 == i - start && k % 8 == j) by (nonlinear_arith)
                    requires
                        k == 8 * (i - start) + j,
                        j < 8,
                ;
                assert(bits[k] == byte_bit(orig, j as int));
                assert((byte >> 7u8) as u32 == (if byte_bit(orig, j as int) {
                    1u32
                } else {
                    0u32
                })) by (bit_vector)
                    requires
                        byte == ((orig as u32) << (j as u32)) as u8,
                        j < 8,
                ;
            }
            depth = depth + 1;
            curr_code = curr_code << 1;
            curr_code = curr_code | (byte >> 7) as u32;
            let ghost ob = byte;
            byte = byte << 1;
            proof {
                assert(byte == ((orig as u32) << ((j + 1) as u32)) as u8) by (bit_vector)
                    requires
                        ob == ((orig as u32) << (j as u32)) as u8,
                        byte == ob << 1u8,
                        j < 8,
                ;
            }
            if codes.contains_key(&(curr_code | (depth << 26))) {
                let c = *codes.get(&(curr_code | (depth << 26))).unwrap();
                data_out.push(c);
                curr_code = 0;
                depth = 0;
            }
            j = j + 1;
        }
        i = i + 1;
    }
    proof {
        assert(bits.take(8 * (d.len() - start)) =~= bits);
    }
    data_out
}

/// The tree-use byte for `h` trees: `h - 1` set bits, followed by two clear bits,
/// truncated to eight bits.
pub open spec fn tree_use_spec(h: u8) -> u8 {
    if h <= 1 {
        0
    } else {
        ((pow2((h + 1) as nat) - 4) % 256) as u8
    }
}

/// Converts the number of trees into a u8 with bits set for the maps used.
fn map_h_tree_use(h_trees: u8) -> (treecode: u8)
    ensures
        treecode == tree_use_spec(h_trees),
{
    let mut treecode: u8 = 0;
    let mut k: u8 = 1;
    proof {
        vstd::arithmetic::power2::lemma2_to64();
    }
    while k < h_trees
        invariant
            1 <= k,
            k <= h_trees || k == 1,
            treecode == ((pow2(k as nat) - 2) % 256) as u8,
        decreases h_trees - k,
    {
        let ghost t = treecode;
        proof {
            lemma_tree_step(k as nat, t);
            assert(((t | 1u8) << 1u8) == ((2 * t + 2) % 256) as u8) by (bit_vector)
                requires
                    t % 2 == 0,
            ;
        }
        treecode = treecode | 0x01;
        treecode = treecode << 1;
        k = k + 1;
    }
    let ghost t = treecode;
    proof {
        lemma_tree_step(k as nat, t);
        vstd::arithmetic::power2::lemma2_to64();
        assert((t << 1u8) == ((2 * t) % 256) as u8) by (bit_vector);
        if h_trees >= 2 {
            assert(k == h_trees);
            assert((k + 1) as nat == (h_trees + 1) as nat);
        } else {
            assert(k == 1);
            assert(pow2(2) == 4);
        }
    }
    treecode = treecode << 1;
    treecode
}

/// One more set bit: twice the word plus two.
proof fn lemma_tree_step(k: nat, t: u8)
    requires
        k >= 1,
        t == ((pow2(k) - 2) % 256) as u8,
    ensures
        t % 2 == 0,
        (2 * t + 2) % 256 == (pow2(k + 1) - 2) % 256,
        (2 * t) % 256 == (pow2(k + 1) - 4) % 256,
{
    vstd::arithmetic::power2::lemma_pow2_unfold(k);
    vstd::arithmetic::power2::lemma_pow2_unfold(k + 1);
    vstd::arithmetic::power2::lemma_pow2_pos((k - 1) as nat);
    let p = pow2(k) as int;
    assert(p == 2 * pow2((k - 1) as nat));
    assert(pow2(k + 1) == 2 * p);
    assert(t as int == (p - 2) % 256);
    assert(t % 2 == 0 && (2 * t + 2) % 256 == (2 * p - 2) % 256 && (2 * t) % 256 == (2 * p - 4)
        % 256) by (nonlinear_arith)
        requires
            p >= 2,
            p % 2 == 0,
            t as int == (p - 2) % 256,
    ;
}

/// The selector code for table `i`: `i` ones followed by a zero, as read in hex.
pub open spec fn sel_code(i: u8) -> u32 {
    if i == 0 {
        0x0
    } else if i == 1 {
        0x10
    } else if i == 2 {
        0x110
    } else if i == 3 {
        0x1110
    } else if i == 4 {
        0x11110
    } else {
        0x111110
    }
}

/// The selector codes of `v`, each shifted in after the ones before it.
pub open spec fn num_sels_spec(v: Seq<u8>) -> u32
    decreases v.len(),
{
    if v.len() == 0 {
        0
    } else {
        ((num_sels_spec(v.drop_last()) << ((v.last() + 1) as u32)) | sel_code(v.last())) as u32
    }
}

/// The total of `i + 1` over the tables of `v`.
pub open spec fn sels_total(v: Seq<u8>) -> nat
    decreases v.len(),
{
    if v.len() == 0 {
        0
    } else {
        sels_total(v.drop_last()) + (v.last() as nat) + 1
    }
}

/// Encode NumSels (num_sels) vec into BZIP 15 bit codes, returned as u32
/// (Seems like this returns bad info if more than 3 tables are used.) Currently not developed
fn num_sels_encode(v: Vec<u8>) -> (num_sels_encoded: u32)
    requires
        forall|k: int| 0 <= k < v@.len() ==> v@[k] < 31,
        sels_total(v@) <= 255,
    ensures
        num_sels_encoded == num_sels_spec(v@),
{
    let mut num_sels_encoded: u32 = 0;
    let mut total: u8 = 0;
    let mut k: usize = 0;
    while k < v.len()
        invariant
            k <= v@.len(),
            forall|m: int| 0 <= m < v@.len() ==> v@[m] < 31,
            sels_total(v@) <= 255,
            total == sels_total(v@.take(k as int)),
            num_sels_encoded == num_sels_spec(v@.take(k as int)),
        decreases v@.len() - k,
    {
        let i = v[k];
        proof {
            assert(v@.take(k + 1).drop_last() =~= v@.take(k as int));
            lemma_sels_total_prefix(v@, k + 1);
        }
        let code: u32 = if i == 0 {
            0x0
        } else if i == 1 {
            0x10
        } else if i == 2 {
            0x110
        } else if i == 3 {
            0x1110
        } else if i == 4 {
            0x11110
        } else {
            0x111110
        };
        num_sels_encoded = num_sels_encoded << (i + 1) as u32;
        num_sels_encoded = num_sels_encoded | code;
        total = total + i + 1;
        k = k + 1;
    }
    proof {
        assert(v@.take(v@.len() as int) =~= v@);
    }
    num_sels_encoded
}

/// The total over a prefix is at most the total.
proof fn lemma_sels_total_prefix(v: Seq<u8>, k: int)
    requires
        0 <= k <= v.len(),
    ensures
        sels_total(v.take(k)) <= sels_total(v),
    decreases v.len() - k,
{
    if k < v.len() {
        lemma_sels_total_prefix(v, k + 1);
        assert(v.take(k + 1).drop_last() =~= v.take(k));
    } else {
        assert(v.take(k) =~= v);
    }
}

} // verus!
