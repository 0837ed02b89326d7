//! Decompression of a bzip2 stream held in memory.
use vstd::prelude::*;
use crate::compression::decode_tables::{
    huf_decode_map, lengths_ok, levels_spec, selector_mtf_decode, selectors_spec, table_list, Level,
};
use crate::crc::{do_crc, do_stream_crc};
use crate::bits::{bits_of, bits_value, bytes_bits};
use crate::tools::bitreader::{bit_at, BitReader};
use crate::tools::bwt_ds::bwt_decode;
use crate::tools::rle1::rle1_decode;
use crate::tools::rle1::rle1_decode_spec;
use crate::tools::rle2::{drop_eob, rle2_undo};
use crate::tools::rle2_mtf_decode::{mtf_undo, rle2_mtf_check, rle2_mtf_decode, rle2_mtf_ready};
use crate::tools::bwt_inverse::inverse_bwt;
use crate::tools::bwt_ds::first_row;
use crate::tools::symbol_map::{decode_spec, decode_sym_map, groups_before};

verus! {

broadcast use vstd::seq_lib::group_to_multiset_ensures;

/// Why a stream could not be decompressed.
#[derive(PartialEq, Eq, Debug, Structural)]
pub enum DecompressError {
    /// The stream does not start with "BZh".
    BadSignature,
    /// The block size digit is not 1 to 9.
    BadBlockSize,
    /// Six bytes that are neither a block header nor the stream footer.
    BadBlockHeader,
    /// The stream ends in the middle of a block or before its footer.
    UnexpectedEnd,
    /// The origin pointer lies outside the block.
    BadKey,
    /// The table count is not 2 to 6.
    BadTableCount,
    /// The selectors are missing, too many, or name a table that does not exist.
    BadSelectors,
    /// A code length lies outside 1 to 20.
    BadCodeLengths,
    /// The Huffman-coded data does not decode to a block.
    BadData,
    /// The end-of-block symbol came before the last selector's chunk.
    EarlyEndOfBlock,
}

/// What a block decodes to: the RLE2 symbols `r`, read against the symbol list
/// `set`, give the transform `l`; its inverse from the origin pointer `key`, with the
/// RLE1 runs expanded, is `data`.
pub open spec fn block_decoded(r: Seq<u16>, set: Seq<u8>, key: int, data: Seq<u8>) -> bool {
    let l = drop_eob(mtf_undo(set.push(0), rle2_undo(r, Seq::empty())));
    &&& rle2_mtf_ready(r, set.len() + 1int, 900019)
    &&& 0 <= key < l.len()
    &&& data == rle1_decode_spec(inverse_bwt(l, first_row(l, key + 1)))
}

/// Whether `data` is what some block decodes to.
pub open spec fn is_decoded_block(data: Seq<u8>) -> bool {
    exists|r: Seq<u16>, set: Seq<u8>, key: int| #[trigger] block_decoded(r, set, key, data)
}

/// The blocks, one after another.
pub open spec fn joined(blocks: Seq<Seq<u8>>) -> Seq<u8>
    decreases blocks.len(),
{
    if blocks.len() == 0 {
        Seq::empty()
    } else {
        joined(blocks.drop_last()) + blocks.last()
    }
}

/// Symbols per selector.
pub const CHUNK_SIZE: usize = 50;

/// Whether the stream starts with "BZh".
pub open spec fn has_signature(d: Seq<u8>) -> bool {
    d.len() >= 3 && d[0] == 0x42 && d[1] == 0x5a && d[2] == 0x68
}

/// Whether the byte after the signature is a block size digit, 1 to 9.
pub open spec fn has_block_size(d: Seq<u8>) -> bool {
    d.len() >= 4 && 0x31 <= d[3] <= 0x39
}

/// The pairs of `s` whose length is `l`, in their order in `s`.
pub open spec fn of_length(s: Seq<(u16, u32)>, l: int) -> Seq<(u16, u32)> {
    s.filter(|x: (u16, u32)| x.1 == l)
}

/// The pairs of `s` with lengths `1..=m`, by ascending length, and pairs of equal length
/// in their order in `s`: what a stable sort by length gives.
pub open spec fn by_length(s: Seq<(u16, u32)>, m: int) -> Seq<(u16, u32)>
    decreases m,
{
    if m <= 0 {
        Seq::empty()
    } else {
        by_length(s, m - 1) + of_length(s, m)
    }
}

/// Sorts the code lengths by length with `slice::sort_by`, which the standard library
/// documents as a stable sort: the result holds the same pairs, by ascending length, and
/// the pairs of each length in the order they had.
#[verifier::external_body]
fn sort_by_length(map: &mut Vec<(u16, u32)>)
    ensures
        final(map)@.to_multiset() == old(map)@.to_multiset(),
        final(map)@.len() == old(map)@.len(),
        forall|i: int, j: int| 0 <= i <= j < final(map)@.len() ==> final(map)@[i].1 <= final(map)@[j].1,
        forall|l: int| #[trigger] of_length(final(map)@, l) == of_length(old(map)@, l),
{
    map.sort_by(|a, b| a.1.cmp(&b.1));
}

proof fn lemma_of_length_push(s: Seq<(u16, u32)>, x: (u16, u32), l: int)
    ensures
        of_length(s.push(x), l) == (if x.1 == l {
            of_length(s, l).push(x)
        } else {
            of_length(s, l)
        }),
{
    reveal(Seq::filter);
    assert(s.push(x).drop_last() =~= s);
}

proof fn lemma_of_length_none(s: Seq<(u16, u32)>, l: int)
    requires
        forall|i: int| 0 <= i < s.len() ==> s[i].1 != l,
    ensures
        of_length(s, l) == Seq::<(u16, u32)>::empty(),
    decreases s.len(),
{
    reveal(Seq::filter);
    if s.len() > 0 {
        lemma_of_length_none(s.drop_last(), l);
    }
}

proof fn lemma_by_length_below(s: Seq<(u16, u32)>, x: (u16, u32), m: int)
    requires
        m < x.1,
    ensures
        by_length(s.push(x), m) == by_length(s, m),
    decreases m,
{
    if m > 0 {
        lemma_by_length_below(s, x, m - 1);
        lemma_of_length_push(s, x, m);
    }
}

proof fn lemma_by_length_push(s: Seq<(u16, u32)>, x: (u16, u32), m: int)
    requires
        1 <= x.1 <= m,
        forall|i: int| 0 <= i < s.len() ==> s[i].1 <= x.1,
    ensures
        by_length(s.push(x), m) == by_length(s, m).push(x),
    decreases m,
{
    lemma_of_length_push(s, x, m);
    if m == x.1 {
        lemma_by_length_below(s, x, m - 1);
        assert(by_length(s, m - 1) + of_length(s, m).push(x) =~= (by_length(s, m - 1) + of_length(s, m)).push(x));
    } else {
        lemma_by_length_push(s, x, m - 1);
        lemma_of_length_none(s, m);
        assert(by_length(s, m - 1).push(x) + Seq::<(u16, u32)>::empty() =~= (by_length(s, m - 1)
            + Seq::<(u16, u32)>::empty()).push(x));
    }
}

proof fn lemma_by_length_empty(m: int)
    ensures
        by_length(Seq::<(u16, u32)>::empty(), m) == Seq::<(u16, u32)>::empty(),
    decreases m,
{
    if m > 0 {
        lemma_by_length_empty(m - 1);
        lemma_of_length_none(Seq::<(u16, u32)>::empty(), m);
        assert(Seq::<(u16, u32)>::empty() + Seq::<(u16, u32)>::empty() =~= Seq::<(u16, u32)>::empty());
    }
}

/// A sequence sorted by length, with lengths `1..=m`, is its own stable sort.
#[verifier::spinoff_prover]
#[verifier::rlimit(60)]
proof fn lemma_by_length_sorted(s: Seq<(u16, u32)>, m: int)
    requires
        forall|i: int, j: int| 0 <= i <= j < s.len() ==> s[i].1 <= s[j].1,
        forall|i: int| 0 <= i < s.len() ==> 1 <= (#[trigger] s[i]).1 <= m,
    ensures
        by_length(s, m) == s,
    decreases s.len(),
{
    if s.len() == 0 {
        lemma_by_length_empty(m);
        assert(s =~= Seq::<(u16, u32)>::empty());
    } else {
        let t = s.drop_last();
        let x = s.last();
        assert forall|i: int, j: int| 0 <= i <= j < t.len() implies t[i].1 <= t[j].1 by {
            assert(t[i] == s[i] && t[j] == s[j]);
        }
        assert forall|i: int| 0 <= i < t.len() implies 1 <= (#[trigger] t[i]).1 <= m && t[i].1 <= x.1 by {
            assert(t[i] == s[i]);
            assert(s[i].1 <= s[s.len() - 1].1);
        }
        assert(1 <= s[s.len() - 1].1 <= m);
        lemma_by_length_sorted(t, m);
        lemma_by_length_push(t, x, m);
        assert(t.push(x) =~= s);
    }
}

/// The stable sort by length depends only on the pairs of each length.
proof fn lemma_by_length_same(a: Seq<(u16, u32)>, b: Seq<(u16, u32)>, m: int)
    requires
        forall|l: int| #[trigger] of_length(a, l) == of_length(b, l),
    ensures
        by_length(a, m) == by_length(b, m),
    decreases m,
{
    if m > 0 {
        lemma_by_length_same(a, b, m - 1);
        assert(of_length(a, m) == of_length(b, m));
    }
}

/// Reads `n` bits, or reports the end of the stream.
fn read_bits(br: &mut BitReader, n: usize) -> (res: Result<usize, DecompressError>)
    requires
        old(br).wf(),
        n <= 32,
    ensures
        final(br).wf(),
        final(br).buffer@ == old(br).buffer@,
        final(br).pos() >= old(br).pos(),
        res is Ok ==> final(br).pos() == old(br).pos() + n && res->Ok_0 < pow2_usize(n),
        old(br).pos() + n <= old(br).total() ==> res == Ok::<usize, DecompressError>(
            bits_value(old(br).rest().take(n as int)) as usize,
        ),
        old(br).pos() + n > old(br).total() ==> res == Err::<usize, DecompressError>(
            DecompressError::UnexpectedEnd,
        ) && final(br).pos() == old(br).total(),
{
    match br.bint(n) {
        Some(v) => {
            proof {
                crate::bits::lemma_bytes_bits_len(old(br).buffer@);
                crate::bits::lemma_bits_of_value(old(br).rest().take(n as int));
            }
            Ok(v)
        },
        None => Err(DecompressError::UnexpectedEnd),
    }
}

/// 2 to the `n`.
pub open spec fn pow2_usize(n: usize) -> nat {
    vstd::arithmetic::power2::pow2(n as nat)
}

/// Reads one bit, or reports the end of the stream.
fn read_bit(br: &mut BitReader) -> (res: Result<bool, DecompressError>)
    requires
        old(br).wf(),
    ensures
        final(br).wf(),
        final(br).buffer@ == old(br).buffer@,
        res is Ok ==> final(br).pos() == old(br).pos() + 1,
        res is Err ==> final(br).pos() == old(br).pos(),
        old(br).pos() < old(br).total() ==> res == Ok::<bool, DecompressError>(
            bit_at(old(br).buffer@, old(br).pos() as int),
        ),
        old(br).pos() >= old(br).total() ==> res == Err::<bool, DecompressError>(
            DecompressError::UnexpectedEnd,
        ),
{
    match br.bool_bit() {
        Some(b) => Ok(b),
        None => Err(DecompressError::UnexpectedEnd),
    }
}

/// Whether the six bytes `v` are `m`.
fn same_bytes(v: &Vec<u8>, m: &Vec<u8>) -> (r: bool)
    ensures
        r == (v@ == m@),
{
    if v.len() != m.len() {
        return false;
    }
    let mut i: usize = 0;
    while i < v.len()
        invariant
            i <= v@.len(),
            v@.len() == m@.len(),
            forall|k: int| 0 <= k < i ==> v@[k] == m@[k],
        decreases v@.len() - i,
    {
        if v[i] != m[i] {
            return false;
        }
        i = i + 1;
    }
    proof {
        assert(v@ =~= m@);
    }
    true
}

/// The 16-bit word `k` of the bits `r`.
pub open spec fn word_at(r: Seq<bool>, k: int) -> u16 {
    bits_value(r.subrange(16 * k, 16 * k + 16)) as u16
}

/// The words of a symbol map at the start of `r`: the index word, then one word for
/// each group it marks.
pub open spec fn symbol_words(r: Seq<bool>) -> Seq<u16> {
    Seq::new(1 + groups_before(word_at(r, 0), 16), |k: int| word_at(r, k))
}

/// The bits after `k` words: the reader's rest, taken 16 bits at a time.
proof fn lemma_rest_words(br0: BitReader, br: BitReader, k: int)
    requires
        br.buffer@ == br0.buffer@,
        br.pos() == br0.pos() + 16 * k,
        0 <= k,
        br.pos() + 16 <= br.total(),
    ensures
        br.rest().take(16) == br0.rest().subrange(16 * k, 16 * k + 16),
{
    crate::bits::lemma_bytes_bits_len(br0.buffer@);
    assert(br.rest().take(16) =~= br0.rest().subrange(16 * k, 16 * k + 16));
}

/// The symbols in use: the index word, then one word for each group it marks. Fails,
/// at the end of the stream, when the stream is too short for them.
fn read_symbol_set(br: &mut BitReader) -> (res: Result<Vec<u8>, DecompressError>)
    requires
        old(br).wf(),
    ensures
        final(br).wf(),
        final(br).buffer@ == old(br).buffer@,
        final(br).pos() >= old(br).pos(),
        res is Ok ==> res->Ok_0@.len() <= 256,
        old(br).rest().len() >= 16 * symbol_words(old(br).rest()).len() ==> res is Ok
            && res->Ok_0@ == decode_spec(symbol_words(old(br).rest()))
            && final(br).pos() == old(br).pos() + 16 * symbol_words(old(br).rest()).len(),
        old(br).rest().len() < 16 * symbol_words(old(br).rest()).len() ==> res
            == Err::<Vec<u8>, DecompressError>(DecompressError::UnexpectedEnd),
{
    let ghost r = old(br).rest();
    let ghost b0 = *old(br);
    proof {
        crate::bits::lemma_bytes_bits_len(old(br).buffer@);
    }
    let index = match read_bits(br, 16) {
        Ok(v) => v,
        Err(e) => {
            return Err(e);
        },
    };
    proof {
        crate::bits::lemma_small_pow2();
        assert(r.take(16) =~= r.subrange(0, 16));
        crate::bits::lemma_bits_of_value(r.subrange(0, 16));
        assert(index == bits_value(r.subrange(0, 16)));
        assert(index < 0x10000);
    }
    let index = index as u16;
    assert(index == word_at(r, 0));
    let mut words: Vec<u16> = Vec::with_capacity(17);
    words.push(index);
    let mut groups: usize = 0;
    let mut k: u16 = 0;
    while k < 16
        invariant
            k <= 16,
            groups == groups_before(index, k as nat),
            groups <= k,
        decreases 16 - k,
    {
        if index & (0x8000u16 >> k) != 0 {
            groups = groups + 1;
        }
        k = k + 1;
    }
    let mut g: usize = 0;
    while g < groups
        invariant
            br.wf(),
            br.buffer@ == b0.buffer@,
            b0 == *old(br),
            b0.wf(),
            r == b0.rest(),
            r.len() == b0.total() - b0.pos(),
            br.pos() == b0.pos() + 16 * (g + 1),
            g <= groups,
            groups <= 16,
            groups == groups_before(word_at(r, 0), 16),
            words@.len() == g + 1,
            forall|q: int| 0 <= q <= g ==> words@[q] == word_at(r, q),
        decreases groups - g,
    {
        let ghost before = *br;
        proof {
            if br.pos() + 16 <= br.total() {
                lemma_rest_words(b0, *br, g + 1);
            }
            crate::bits::lemma_bits_of_value(r.subrange(16 * (g + 1), 16 * (g + 1) + 16));
            crate::bits::lemma_small_pow2();
        }
        let w = match read_bits(br, 16) {
            Ok(v) => v,
            Err(e) => {
                return Err(e);
            },
        };
        proof {
            crate::bits::lemma_small_pow2();
            assert(w < 0x10000);
            assert(before.pos() + 16 <= before.total());
            assert(w == bits_value(r.subrange(16 * (g + 1), 16 * (g + 1) + 16)));
        }
        words.push(w as u16);
        g = g + 1;
    }
    proof {
        assert(words@ =~= symbol_words(r));
    }
    let set = decode_sym_map(&words);
    proof {
        crate::tools::symbol_map::lemma_decode_len(words@);
    }
    Ok(set)
}

/// Reading a unary number from bit `p` of `r`, with `g` ones already counted: the
/// outcome (0 read, 1 the bits ran out, 2 the number reached `tc`), the number and the
/// position after it.
pub open spec fn unary_from(r: Seq<bool>, p: int, g: int, tc: int) -> (int, int, int)
    decreases r.len() - p,
{
    if p < 0 || p >= r.len() {
        (1, g, p)
    } else if !r[p] {
        (0, g, p + 1)
    } else if g + 1 >= tc {
        (2, g + 1, p + 1)
    } else {
        unary_from(r, p + 1, g + 1, tc)
    }
}

/// Reading `count` more selectors from bit `p` of `r` after those in `acc`: the outcome
/// (as for [`unary_from`]), the selectors and the position after them.
pub open spec fn selectors_from(r: Seq<bool>, p: int, count: nat, tc: int, acc: Seq<u8>) -> (int, Seq<u8>, int)
    decreases count,
{
    if count == 0 {
        (0, acc, p)
    } else {
        let (st, g, p1) = unary_from(r, p, 0, tc);
        if st != 0 {
            (st, acc, p1)
        } else {
            selectors_from(r, p1, (count - 1) as nat, tc, acc.push(g as u8))
        }
    }
}

proof fn lemma_unary_bound(r: Seq<bool>, p: int, g: int, tc: int)
    requires
        0 <= g < tc,
        0 <= p,
    ensures
        ({
            let (st, v, q) = unary_from(r, p, g, tc);
            &&& st == 0 ==> g <= v < tc && p < q
        }),
    decreases r.len() - p,
{
    if 0 <= p < r.len() && r[p] && g + 1 < tc {
        lemma_unary_bound(r, p + 1, g + 1, tc);
    }
}

/// The raw selectors: `count` unary numbers, each below `table_count` (the table count,
/// or 256 for selectors that are read and dropped). Fails when a number reaches
/// `table_count`, or when the stream ends first.
fn read_selectors(br: &mut BitReader, count: usize, table_count: usize) -> (res: Result<
    Vec<u8>,
    DecompressError,
>)
    requires
        old(br).wf(),
        2 <= table_count <= 256,
    ensures
        final(br).wf(),
        final(br).buffer@ == old(br).buffer@,
        final(br).pos() >= old(br).pos(),
        res is Ok ==> res->Ok_0@.len() == count,
        res is Ok ==> forall|k: int| 0 <= k < res->Ok_0@.len() ==> (res->Ok_0@[k] as int) < table_count,
        ({
            let (st, raw, q) = selectors_from(old(br).rest(), 0, count as nat, table_count as int, Seq::empty());
            &&& st == 0 ==> res is Ok && res->Ok_0@ == raw && final(br).pos() == old(br).pos() + q
            &&& st == 1 ==> res == Err::<Vec<u8>, DecompressError>(DecompressError::UnexpectedEnd)
            &&& st == 2 ==> res == Err::<Vec<u8>, DecompressError>(DecompressError::BadSelectors)
        }),
{
    let ghost r = old(br).rest();
    let ghost b0 = *old(br);
    let ghost tc = table_count as int;
    proof {
        crate::bits::lemma_bytes_bits_len(old(br).buffer@);
    }
    let mut raw: Vec<u8> = Vec::with_capacity(count);
    let mut i: usize = 0;
    while i < count
        invariant
            br.wf(),
            b0 == *old(br),
            br.buffer@ == b0.buffer@,
            br.pos() >= b0.pos(),
            r == b0.rest(),
            r.len() == b0.total() - b0.pos(),
            tc == table_count,
            2 <= table_count <= 256,
            i <= count,
            raw@.len() == i,
            forall|k: int| 0 <= k < raw@.len() ==> (raw@[k] as int) < table_count,
            selectors_from(r, 0, count as nat, tc, Seq::empty()) == selectors_from(
                r,
                br.pos() - b0.pos(),
                (count - i) as nat,
                tc,
                raw@,
            ),
        decreases count - i,
    {
        let ghost p0 = br.pos() - b0.pos();
        let mut group: u8 = 0;
        loop
            invariant_except_break
                unary_from(r, p0, 0, tc) == unary_from(r, br.pos() - b0.pos(), group as int, tc),
            invariant
                br.wf(),
                b0 == *old(br),
                br.buffer@ == b0.buffer@,
                br.pos() >= b0.pos() + p0,
                p0 >= 0,
                r == b0.rest(),
                r.len() == b0.total() - b0.pos(),
                tc == table_count,
                2 <= table_count <= 256,
                (group as int) < table_count,
                i < count,
                selectors_from(r, 0, count as nat, tc, Seq::empty()) == selectors_from(
                    r,
                    p0,
                    (count - i) as nat,
                    tc,
                    raw@,
                ),
            ensures
                br.wf(),
                br.buffer@ == b0.buffer@,
                br.pos() >= b0.pos() + p0,
                (group as int) < table_count,
                unary_from(r, p0, 0, tc) == (0int, group as int, br.pos() - b0.pos()),
            decreases br.total() - br.pos(),
        {
            let ghost p = br.pos() - b0.pos();
            proof {
                crate::bits::lemma_bytes_bits_len(b0.buffer@);
                if br.pos() < br.total() {
                    assert(b0.rest()[p] == bytes_bits(b0.buffer@)[b0.pos() + p]);
                    assert(r[p] == bit_at(b0.buffer@, br.pos() as int));
                }
            }
            let more = match read_bit(br) {
                Ok(v) => v,
                Err(e) => {
                    return Err(e);
                },
            };
            if !more {
                break;
            }
            if group as usize + 1 >= table_count {
                return Err(DecompressError::BadSelectors);
            }
            group = group + 1;
        }
        proof {
            lemma_unary_bound(r, p0, 0, tc);
        }
        raw.push(group);
        i = i + 1;
    }
    Ok(raw)
}

/// Reading one symbol's change of length from bit `p` of `r`, with `diff` so far: pairs
/// "10" (one up) and "11" (one down) closed by a "0". The outcome (0 read, 1 the bits
/// ran out, 2 the change passed 40 either way), the change and the position after it.
pub open spec fn delta_from(r: Seq<bool>, p: int, diff: int) -> (int, int, int)
    decreases r.len() - p,
{
    if p < 0 || p >= r.len() {
        (1, diff, p)
    } else if !r[p] {
        (0, diff, p + 1)
    } else if p + 1 >= r.len() {
        (1, diff, p + 1)
    } else {
        let nd = if r[p + 1] { diff - 1 } else { diff + 1 };
        if nd > 40 || nd < -40 {
            (2, nd, p + 2)
        } else {
            delta_from(r, p + 2, nd)
        }
    }
}

/// Reading the lengths of the symbols `k..=symbols` from bit `p` of `r`, the length
/// before them being `l`, after the pairs in `acc`: the outcome (0 read, 1 the bits ran
/// out, 2 a change passed 40 or a length left 1 to 20), the pairs of each symbol and its
/// length, and the position after them.
pub open spec fn lengths_from(
    r: Seq<bool>,
    p: int,
    l: int,
    k: int,
    symbols: int,
    acc: Seq<(u16, u32)>,
) -> (int, Seq<(u16, u32)>, int)
    decreases symbols + 1 - k,
{
    if k > symbols {
        (0, acc, p)
    } else {
        let (st, dd, p1) = delta_from(r, p, 0);
        if st != 0 {
            (st, acc, p1)
        } else if l + dd < 1 || l + dd > 20 {
            (2, acc, p1)
        } else {
            lengths_from(r, p1, l + dd, k + 1, symbols, acc.push((k as u16, (l + dd) as u32)))
        }
    }
}

/// Reading a table's code lengths from the start of `r`: a five-bit start length, then
/// the changes for the symbols `0..=symbols`.
pub open spec fn code_lengths_spec(r: Seq<bool>, symbols: int) -> (int, Seq<(u16, u32)>, int) {
    if r.len() < 5 {
        (1, Seq::empty(), r.len() as int)
    } else {
        lengths_from(r, 5, bits_value(r.take(5)) as int, 0, symbols, Seq::empty())
    }
}

/// The code lengths of one table for the symbols `0..=symbols`: a five-bit start, then
/// for each symbol a run of "1x" pairs, each raising ("10") or lowering ("11") the
/// length by one, closed by a "0". The pairs come sorted by length. Fails when a length
/// leaves 1 to 20 (or a change passes 40 either way), or when the stream ends first.
#[verifier::spinoff_prover]
#[verifier::rlimit(40)]
fn read_code_lengths(br: &mut BitReader, symbols: usize) -> (res: Result<
    Vec<(u16, u32)>,
    DecompressError,
>)
    requires
        old(br).wf(),
        symbols <= 257,
    ensures
        final(br).wf(),
        final(br).buffer@ == old(br).buffer@,
        final(br).pos() >= old(br).pos(),
        res is Ok ==> lengths_ok(res->Ok_0@) && res->Ok_0@.len() == symbols + 1,
        res is Ok ==> forall|k: int| 0 <= k < res->Ok_0@.len() ==> (res->Ok_0@[k].0 as int) <= symbols,
        ({
            let (st, pairs, q) = code_lengths_spec(old(br).rest(), symbols as int);
            &&& st == 0 ==> res is Ok && res->Ok_0@ == by_length(pairs, 20)
                && final(br).pos() == old(br).pos() + q
            &&& st == 1 ==> res == Err::<Vec<(u16, u32)>, DecompressError>(DecompressError::UnexpectedEnd)
            &&& st == 2 ==> res == Err::<Vec<(u16, u32)>, DecompressError>(DecompressError::BadCodeLengths)
        }),
{
    let ghost r = old(br).rest();
    let ghost b0 = *old(br);
    proof {
        crate::bits::lemma_bytes_bits_len(old(br).buffer@);
        vstd::arithmetic::power2::lemma2_to64();
    }
    let start = match read_bits(br, 5) {
        Ok(v) => v,
        Err(e) => {
            return Err(e);
        },
    };
    proof {
        crate::bits::lemma_bits_of_value(r.take(5));
    }
    let mut l: i32 = start as i32;
    let mut map: Vec<(u16, u32)> = Vec::with_capacity(symbols + 1);
    let mut symbol: usize = 0;
    while symbol <= symbols
        invariant
            br.wf(),
            b0 == *old(br),
            br.buffer@ == b0.buffer@,
            br.pos() >= b0.pos(),
            r == b0.rest(),
            r.len() == b0.total() - b0.pos(),
            symbols <= 257,
            symbol <= symbols + 1,
            map@.len() == symbol,
            0 <= l <= 32,
            forall|k: int| 0 <= k < map@.len() ==> 1 <= map@[k].1 <= 20 && map@[k].0 == k,
            code_lengths_spec(r, symbols as int) == lengths_from(
                r,
                br.pos() - b0.pos(),
                l as int,
                symbol as int,
                symbols as int,
                map@,
            ),
        decreases symbols + 1 - symbol,
    {
        let ghost p0 = br.pos() - b0.pos();
        let mut diff: i32 = 0;
        loop
            invariant_except_break
                delta_from(r, p0, 0) == delta_from(r, br.pos() - b0.pos(), diff as int),
            invariant
                br.wf(),
                b0 == *old(br),
                br.buffer@ == b0.buffer@,
                br.pos() >= b0.pos() + p0,
                p0 >= 0,
                r == b0.rest(),
                r.len() == b0.total() - b0.pos(),
                0 <= l <= 32,
                -40 <= diff <= 40,
                symbol <= symbols,
                code_lengths_spec(r, symbols as int) == lengths_from(
                    r,
                    p0,
                    l as int,
                    symbol as int,
                    symbols as int,
                    map@,
                ),
            ensures
                br.wf(),
                br.buffer@ == b0.buffer@,
                br.pos() >= b0.pos() + p0,
                -40 <= diff <= 40,
                delta_from(r, p0, 0) == (0int, diff as int, br.pos() - b0.pos()),
            decreases br.total() - br.pos(),
        {
            let ghost p = br.pos() - b0.pos();
            proof {
                crate::bits::lemma_bytes_bits_len(b0.buffer@);
                if br.pos() < br.total() {
                    assert(b0.rest()[p] == bytes_bits(b0.buffer@)[b0.pos() + p]);
                }
                if br.pos() + 1 < br.total() {
                    assert(b0.rest()[p + 1] == bytes_bits(b0.buffer@)[b0.pos() + p + 1]);
                }
            }
            let more = match read_bit(br) {
                Ok(v) => v,
                Err(e) => {
                    return Err(e);
                },
            };
            if !more {
                break;
            }
            let down = match read_bit(br) {
                Ok(v) => v,
                Err(e) => {
                    return Err(e);
                },
            };
            if down {
                diff = diff - 1;
            } else {
                diff = diff + 1;
            }
            if diff > 40 || diff < -40 {
                return Err(DecompressError::BadCodeLengths);
            }
        }
        let len = l + diff;
        if len < 1 || len > 20 {
            return Err(DecompressError::BadCodeLengths);
        }
        map.push((symbol as u16, len as u32));
        l = len;
        symbol = symbol + 1;
    }
    let ghost before = map@;
    sort_by_length(&mut map);
    proof {
        assert forall|k: int| 0 <= k < map@.len() implies 1 <= (#[trigger] map@[k]).1 <= 20 by {
            assert(map@.to_multiset().contains(map@[k]));
            assert(before.to_multiset().contains(map@[k]));
            assert(before.contains(map@[k]));
        }
        lemma_by_length_sorted(map@, 20);
        lemma_by_length_same(map@, before, 20);
        assert forall|k: int| 0 <= k < map@.len() implies map@[k].1 <= 20 && (map@[k].0 as int) <= symbols by {
            assert(map@.to_multiset().contains(map@[k]));
            assert(before.to_multiset().contains(map@[k]));
            assert(before.contains(map@[k]));
            let j = choose|j: int| 0 <= j < before.len() && before[j] == map@[k];
            assert(before[j].1 <= 20);
        }
    }
    Ok(map)
}

/// The bits after `p` bits of a reader's rest: what the reader reads next.
proof fn lemma_rest_at(br0: BitReader, br: BitReader, p: int, n: int)
    requires
        br.buffer@ == br0.buffer@,
        br.pos() == br0.pos() + p,
        0 <= p,
        0 <= n,
        br.pos() + n <= br.total(),
    ensures
        br.rest().take(n) == br0.rest().subrange(p, p + n),
{
    crate::bits::lemma_bytes_bits_len(br0.buffer@);
    assert(br.rest().take(n) =~= br0.rest().subrange(p, p + n));
}

/// Decoding one symbol from bit `p` of `r` with the canonical code whose levels are
/// `levels` and whose symbols, in code order, are `syms`, the code so far being `code`
/// at level `depth`: each level reads its bits onto the code; a code below the level's
/// end code names a symbol. The outcome (0 decoded, 1 the bits ran out, 2 the code or
/// the levels are not a code), the symbol and the position after it.
pub open spec fn decode_walk(
    levels: Seq<Level>,
    syms: Seq<u16>,
    r: Seq<bool>,
    p: int,
    depth: int,
    code: u64,
) -> (int, u16, int)
    decreases levels.len() - depth,
{
    if depth < 0 || depth >= levels.len() {
        (2, 0, p)
    } else {
        let lev = levels[depth];
        if lev.bits > 32 {
            (2, 0, p)
        } else if p + lev.bits > r.len() {
            (1, 0, p)
        } else {
            let v = bits_value(r.subrange(p, p + lev.bits)) as u64;
            let c = (code << lev.bits) | v;
            if c > u32::MAX {
                (2, 0, p + lev.bits)
            } else if c >= lev.end_code {
                decode_walk(levels, syms, r, p + lev.bits, depth + 1, c)
            } else if c < lev.start_code {
                (2, 0, p + lev.bits)
            } else if lev.offset + (c - lev.start_code) >= syms.len() {
                (2, 0, p + lev.bits)
            } else {
                (0, syms[lev.offset + (c - lev.start_code)], p + lev.bits)
            }
        }
    }
}

/// Decodes one symbol with the canonical code whose levels are `levels` and whose
/// symbols, in code order, are `syms` (see [`decode_walk`]).
fn decode_one(br: &mut BitReader, levels: &Vec<Level>, syms: &Vec<u16>) -> (res: Result<
    u16,
    DecompressError,
>)
    requires
        old(br).wf(),
    ensures
        final(br).wf(),
        final(br).buffer@ == old(br).buffer@,
        final(br).pos() >= old(br).pos(),
        res is Ok ==> syms@.contains(res->Ok_0),
        ({
            let (st, sym, q) = decode_walk(levels@, syms@, old(br).rest(), 0, 0, 0);
            &&& st == 0 ==> res == Ok::<u16, DecompressError>(sym) && final(br).pos() == old(br).pos() + q
            &&& st == 1 ==> res == Err::<u16, DecompressError>(DecompressError::UnexpectedEnd)
            &&& st == 2 ==> res == Err::<u16, DecompressError>(DecompressError::BadData)
        }),
{
    let ghost r = old(br).rest();
    let ghost b0 = *old(br);
    proof {
        crate::bits::lemma_bytes_bits_len(old(br).buffer@);
    }
    let mut depth: usize = 0;
    let mut code: u64 = 0;
    loop
        invariant
            br.wf(),
            b0 == *old(br),
            br.buffer@ == b0.buffer@,
            br.pos() >= b0.pos(),
            r == b0.rest(),
            r.len() == b0.total() - b0.pos(),
            depth <= levels@.len(),
            code <= u32::MAX,
            decode_walk(levels@, syms@, r, 0, 0, 0) == decode_walk(levels@, syms@, r, br.pos() - b0.pos(), depth as int, code),
        decreases levels@.len() - depth,
    {
        if depth >= levels.len() {
            return Err(DecompressError::BadData);
        }
        let lev = levels[depth];
        if lev.bits > 32 {
            return Err(DecompressError::BadData);
        }
        let ghost p = br.pos() - b0.pos();
        proof {
            if br.pos() + lev.bits <= br.total() {
                lemma_rest_at(b0, *br, p, lev.bits as int);
                crate::bits::lemma_bits_of_value(r.subrange(p, p + lev.bits));
                vstd::arithmetic::power2::lemma_pow2_pos(lev.bits as nat);
                if lev.bits < 32 {
                    vstd::arithmetic::power2::lemma_pow2_strictly_increases(lev.bits as nat, 32);
                }
                crate::bits::lemma_small_pow2();
            }
        }
        let v = match read_bits(br, lev.bits as usize) {
            Ok(x) => x,
            Err(e) => {
                return Err(e);
            },
        };
        code = (code << lev.bits) | (v as u64);
        if code > u32::MAX as u64 {
            return Err(DecompressError::BadData);
        }
        if code >= lev.end_code as u64 {
            depth = depth + 1;
        } else {
            let start = lev.start_code as u64;
            if code < start {
                return Err(DecompressError::BadData);
            }
            let idx = lev.offset as u64 + (code - start);
            if idx >= syms.len() as u64 {
                return Err(DecompressError::BadData);
            }
            let sym = syms[idx as usize];
            assert(syms@[idx as int] == sym);
            return Ok(sym);
        }
    }
}

proof fn lemma_walk_status(levels: Seq<Level>, syms: Seq<u16>, r: Seq<bool>, p: int, depth: int, code: u64)
    ensures
        0 <= decode_walk(levels, syms, r, p, depth, code).0 <= 2,
    decreases levels.len() - depth,
{
    if 0 <= depth < levels.len() {
        let lev = levels[depth];
        if lev.bits <= 32 && p + lev.bits <= r.len() {
            let v = bits_value(r.subrange(p, p + lev.bits)) as u64;
            let c = (code << lev.bits) | v;
            lemma_walk_status(levels, syms, r, p + lev.bits, depth + 1, c);
        }
    }
}

proof fn lemma_walk_shift(
    levels: Seq<Level>,
    syms: Seq<u16>,
    r: Seq<bool>,
    p: int,
    q: int,
    depth: int,
    code: u64,
)
    requires
        0 <= p <= r.len(),
        0 <= q,
    ensures
        ({
            let a = decode_walk(levels, syms, r.skip(p), q, depth, code);
            let b = decode_walk(levels, syms, r, p + q, depth, code);
            a.0 == b.0 && a.1 == b.1 && a.2 + p == b.2
        }),
    decreases levels.len() - depth,
{
    if 0 <= depth < levels.len() {
        let lev = levels[depth];
        if lev.bits <= 32 && q + lev.bits <= r.len() - p {
            assert(r.skip(p).subrange(q, q + lev.bits) =~= r.subrange(p + q, p + q + lev.bits));
            let v = bits_value(r.subrange(p + q, p + q + lev.bits)) as u64;
            let c = (code << lev.bits) | v;
            lemma_walk_shift(levels, syms, r, p, q + lev.bits, depth + 1, c);
        }
    }
}

/// The levels of each table.
pub open spec fn level_views(lv: Seq<Vec<Level>>) -> Seq<Seq<Level>> {
    Seq::new(lv.len(), |t: int| lv[t]@)
}

/// The symbols of each table.
pub open spec fn sym_views(sy: Seq<Vec<u16>>) -> Seq<Seq<u16>> {
    Seq::new(sy.len(), |t: int| sy[t]@)
}

/// Decoding the symbols of a block from bit `p` of `r`, after the symbols `out`: each
/// chunk of fifty decoded with the table its selector names, up to and including the
/// end-of-block symbol `eob`. The outcome (0 decoded, 1 the bits ran out, 2 the data
/// is no block, 3 the end-of-block symbol came before chunk `last - 1`, the last that the
/// selector count allows), the symbols and the position after them.
pub open spec fn symbols_from(
    lv: Seq<Seq<Level>>,
    sy: Seq<Seq<u16>>,
    sels: Seq<usize>,
    last: int,
    eob: u16,
    max_out: int,
    r: Seq<bool>,
    p: int,
    out: Seq<u16>,
) -> (int, Seq<u16>, int)
    decreases max_out - out.len(),
{
    if out.len() >= max_out {
        (2, out, p)
    } else {
        let chunk = out.len() / 50;
        if chunk >= sels.len() || sels[chunk as int] >= lv.len() {
            (2, out, p)
        } else {
            let t = sels[chunk as int] as int;
            let (st, sym, p1) = decode_walk(lv[t], sy[t], r, p, 0, 0);
            if st != 0 {
                (st, out, p1)
            } else if sym == eob {
                if chunk + 1 < last {
                    (3, out.push(sym), p1)
                } else {
                    (0, out.push(sym), p1)
                }
            } else {
                symbols_from(lv, sy, sels, last, eob, max_out, r, p1, out.push(sym))
            }
        }
    }
}

/// The symbols of a block, up to and including the end-of-block symbol `eob`: each
/// chunk of fifty decoded with the table its selector names (see [`symbols_from`]).
fn decode_symbols(
    br: &mut BitReader,
    lv: &Vec<Vec<Level>>,
    sy: &Vec<Vec<u16>>,
    selectors: &Vec<usize>,
    last: usize,
    eob: u16,
    max_out: usize,
) -> (res: Result<Vec<u16>, DecompressError>)
    requires
        old(br).wf(),
        lv@.len() == sy@.len(),
        selectors@.len() >= 1,
    ensures
        final(br).wf(),
        final(br).buffer@ == old(br).buffer@,
        final(br).pos() >= old(br).pos(),
        res is Ok ==> res->Ok_0@.len() >= 1 && res->Ok_0@.last() == eob,
        ({
            let (st, out, q) = symbols_from(level_views(lv@), sym_views(sy@), selectors@, last as int, eob, max_out as int, old(br).rest(), 0, Seq::empty());
            &&& st == 0 ==> res is Ok && res->Ok_0@ == out && final(br).pos() == old(br).pos() + q
            &&& st == 1 ==> res == Err::<Vec<u16>, DecompressError>(DecompressError::UnexpectedEnd)
            &&& st == 2 ==> res == Err::<Vec<u16>, DecompressError>(DecompressError::BadData)
            &&& st == 3 ==> res == Err::<Vec<u16>, DecompressError>(DecompressError::EarlyEndOfBlock)
        }),
{
    let ghost r = old(br).rest();
    let ghost b0 = *old(br);
    proof {
        crate::bits::lemma_bytes_bits_len(old(br).buffer@);
    }
    let mut out: Vec<u16> = Vec::new();
    loop
        invariant
            br.wf(),
            b0 == *old(br),
            br.buffer@ == b0.buffer@,
            br.pos() >= b0.pos(),
            r == b0.rest(),
            r.len() == b0.total() - b0.pos(),
            lv@.len() == sy@.len(),
            selectors@.len() >= 1,
            out@.len() <= max_out,
            symbols_from(level_views(lv@), sym_views(sy@), selectors@, last as int, eob, max_out as int, r, 0, Seq::empty())
                == symbols_from(level_views(lv@), sym_views(sy@), selectors@, last as int, eob, max_out as int, r, br.pos() - b0.pos(), out@),
        decreases max_out - out@.len(),
    {
        if out.len() >= max_out {
            return Err(DecompressError::BadData);
        }
        let chunk = out.len() / CHUNK_SIZE;
        if chunk >= selectors.len() {
            return Err(DecompressError::BadData);
        }
        let t = selectors[chunk];
        if t >= lv.len() {
            return Err(DecompressError::BadData);
        }
        let ghost p = br.pos() - b0.pos();
        proof {
            crate::bits::lemma_bytes_bits_len(b0.buffer@);
            assert(br.rest() =~= r.skip(p));
            lemma_walk_shift(lv@[t as int]@, sy@[t as int]@, r, p, 0, 0, 0);
            lemma_walk_status(lv@[t as int]@, sy@[t as int]@, r, p, 0, 0);
            assert(level_views(lv@)[t as int] == lv@[t as int]@);
            assert(sym_views(sy@)[t as int] == sy@[t as int]@);
        }
        let ghost w = decode_walk(lv@[t as int]@, sy@[t as int]@, r, p, 0, 0);
        let ghost out0 = out@;
        let ghost here = symbols_from(level_views(lv@), sym_views(sy@), selectors@, last as int, eob, max_out as int, r, p, out0);
        assert(chunk == out0.len() / 50);
        assert(t == selectors@[chunk as int]);
        let sym = match decode_one(br, &lv[t], &sy[t]) {
            Ok(x) => x,
            Err(e) => {
                proof {
                    assert(w.0 != 0);
                    assert(here == (w.0, out0, w.2));
                }
                return Err(e);
            },
        };
        proof {
            assert(w.0 == 0 && w.1 == sym);
        }
        out.push(sym);
        if sym == eob {
            if chunk + 1 < last {
                return Err(DecompressError::EarlyEndOfBlock);
            }
            return Ok(out);
        }
    }
}

proof fn lemma_unary_status(r: Seq<bool>, p: int, g: int, tc: int)
    ensures
        0 <= unary_from(r, p, g, tc).0 <= 2,
    decreases r.len() - p,
{
    if 0 <= p < r.len() && r[p] && g + 1 < tc {
        lemma_unary_status(r, p + 1, g + 1, tc);
    }
}

proof fn lemma_selectors_status(r: Seq<bool>, p: int, count: nat, tc: int, acc: Seq<u8>)
    ensures
        0 <= selectors_from(r, p, count, tc, acc).0 <= 2,
    decreases count,
{
    if count > 0 {
        lemma_unary_status(r, p, 0, tc);
        let (st, g, p1) = unary_from(r, p, 0, tc);
        if st == 0 {
            lemma_selectors_status(r, p1, (count - 1) as nat, tc, acc.push(g as u8));
        }
    }
}

proof fn lemma_delta_status(r: Seq<bool>, p: int, diff: int)
    ensures
        0 <= delta_from(r, p, diff).0 <= 2,
    decreases r.len() - p,
{
    if 0 <= p < r.len() && r[p] && p + 1 < r.len() {
        let nd = if r[p + 1] { diff - 1 } else { diff + 1 };
        lemma_delta_status(r, p + 2, nd);
    }
}

proof fn lemma_lengths_status(r: Seq<bool>, p: int, l: int, k: int, symbols: int, acc: Seq<(u16, u32)>)
    ensures
        0 <= lengths_from(r, p, l, k, symbols, acc).0 <= 2,
    decreases symbols + 1 - k,
{
    if k <= symbols {
        lemma_delta_status(r, p, 0);
        let (st, dd, p1) = delta_from(r, p, 0);
        if st == 0 && !(l + dd < 1 || l + dd > 20) {
            lemma_lengths_status(r, p1, l + dd, k + 1, symbols, acc.push((k as u16, (l + dd) as u32)));
        }
    }
}

proof fn lemma_code_lengths_status(r: Seq<bool>, symbols: int)
    ensures
        0 <= code_lengths_spec(r, symbols).0 <= 2,
{
    if r.len() >= 5 {
        lemma_lengths_status(r, 5, bits_value(r.take(5)) as int, 0, symbols, Seq::empty());
    }
}

proof fn lemma_symbols_status(
    lv: Seq<Seq<Level>>,
    sy: Seq<Seq<u16>>,
    sels: Seq<usize>,
    last: int,
    eob: u16,
    max_out: int,
    r: Seq<bool>,
    p: int,
    out: Seq<u16>,
)
    ensures
        0 <= symbols_from(lv, sy, sels, last, eob, max_out, r, p, out).0 <= 3,
    decreases max_out - out.len(),
{
    if out.len() < max_out {
        let chunk = out.len() / 50;
        if !(chunk >= sels.len() || sels[chunk as int] >= lv.len()) {
            let t = sels[chunk as int] as int;
            lemma_walk_status(lv[t], sy[t], r, p, 0, 0);
            let (st, sym, p1) = decode_walk(lv[t], sy[t], r, p, 0, 0);
            if st == 0 && sym != eob {
                lemma_symbols_status(lv, sy, sels, last, eob, max_out, r, p1, out.push(sym));
            }
        }
    }
}

/// Reading the code lengths of the tables `t..tc` from bit `p` of `r`: the position after
/// them and each table's pairs sorted by length, or the error met.
pub open spec fn tables_spec(r: Seq<bool>, p: int, t: int, tc: int, symbols: int) -> Result<
    (int, Seq<Seq<(u16, u32)>>),
    DecompressError,
>
    decreases tc - t,
{
    if t >= tc {
        Ok((p, Seq::empty()))
    } else {
        let (st, pairs, q) = code_lengths_spec(r.skip(p), symbols);
        if st == 1 {
            Err(DecompressError::UnexpectedEnd)
        } else if st == 2 {
            Err(DecompressError::BadCodeLengths)
        } else {
            with_maps(seq![by_length(pairs, 20)], tables_spec(r, p + q, t + 1, tc, symbols))
        }
    }
}

/// A reading of tables, with the tables `ms` read before it.
pub open spec fn with_maps(
    ms: Seq<Seq<(u16, u32)>>,
    x: Result<(int, Seq<Seq<(u16, u32)>>), DecompressError>,
) -> Result<(int, Seq<Seq<(u16, u32)>>), DecompressError> {
    match x {
        Ok((pe, rest)) => Ok((pe, ms + rest)),
        Err(e) => Err(e),
    }
}

/// The symbols of each table, in code order.
pub open spec fn map_syms(maps: Seq<Seq<(u16, u32)>>) -> Seq<Seq<u16>> {
    Seq::new(maps.len(), |t: int| Seq::new(maps[t].len(), |k: int| maps[t][k].0))
}

/// The levels of each table.
pub open spec fn map_levels(maps: Seq<Seq<(u16, u32)>>) -> Seq<Seq<Level>> {
    Seq::new(maps.len(), |t: int| levels_spec(maps[t]))
}

/// Whether the tables `lv` and `sy` are those built from the sorted code lengths `maps`.
pub open spec fn tables_built(lv: Seq<Vec<Level>>, sy: Seq<Vec<u16>>, maps: Seq<Seq<(u16, u32)>>) -> bool {
    &&& level_views(lv) == map_levels(maps)
    &&& sym_views(sy) == map_syms(maps)
}

/// The most symbols a block with `tc` tables may hold.
pub open spec fn max_symbols(tc: int, block_size: int) -> int {
    if tc == 2 {
        200
    } else if tc == 3 {
        600
    } else if tc == 4 {
        1200
    } else if tc == 5 {
        2400
    } else {
        block_size * 100000 + 19
    }
}

/// What the rest `rest` of a block decodes to, after its tables: the data, the block
/// CRC `crc`, and the number of bits of `rest` that the coded symbols take.
pub open spec fn block_tail_spec(
    rest: Seq<bool>,
    block_size: int,
    crc: u32,
    key: int,
    set: Seq<u8>,
    sels: Seq<usize>,
    last: int,
    maps: Seq<Seq<(u16, u32)>>,
) -> Result<(Seq<u8>, u32, int), DecompressError> {
    let tc = maps.len() as int;
    let (dst, syms, q) = symbols_from(
        map_levels(maps),
        map_syms(maps),
        sels,
        last,
        (set.len() + 1) as u16,
        max_symbols(tc, block_size),
        rest,
        0,
        Seq::empty(),
    );
    if dst == 1 {
        Err(DecompressError::UnexpectedEnd)
    } else if dst == 2 {
        Err(DecompressError::BadData)
    } else if dst == 3 {
        Err(DecompressError::EarlyEndOfBlock)
    } else if !rle2_mtf_ready(syms, set.len() + 1int, 900019) {
        Err(DecompressError::BadData)
    } else {
        let l = drop_eob(mtf_undo(set.push(0), rle2_undo(syms, Seq::empty())));
        if key >= l.len() {
            Err(DecompressError::BadKey)
        } else {
            let b = inverse_bwt(l, first_row(l, key + 1));
            if b.len() < 4 {
                Err(DecompressError::BadData)
            } else {
                Ok((rle1_decode_spec(b), crc, q))
            }
        }
    }
}

/// What a block decodes to from the start of `r` (after its header): the block CRC,
/// the randomised bit, the origin pointer, the symbol map, the table and selector
/// counts, the selectors, the code lengths of each table and the coded symbols; then the
/// RLE2 and move-to-front, Burrows-Wheeler and RLE1 transforms undone. Gives the data,
/// the CRC the stream holds for it and the number of bits the block takes, or the error.
pub open spec fn block_spec(r: Seq<bool>, block_size: int) -> Result<(Seq<u8>, u32, int), DecompressError> {
    if r.len() < 57 {
        Err(DecompressError::UnexpectedEnd)
    } else {
        let crc = bits_value(r.take(32)) as u32;
        let key = bits_value(r.subrange(33, 57)) as int;
        let words = symbol_words(r.skip(57));
        let p4: int = 57 + 16 * words.len() as int;
        if key > block_size * 100000 + 10 {
            Err(DecompressError::BadKey)
        } else if r.len() < p4 + 3 {
            Err(DecompressError::UnexpectedEnd)
        } else {
            let set = decode_spec(words);
            let tc = bits_value(r.subrange(p4, p4 + 3)) as int;
            if tc < 2 || tc > 6 {
                Err(DecompressError::BadTableCount)
            } else if r.len() < p4 + 18 {
                Err(DecompressError::UnexpectedEnd)
            } else {
                let sc = bits_value(r.subrange(p4 + 3, p4 + 18)) as int;
                let max_sc = block_size * 100000 / 50;
                // Past the maximum the selectors are read and dropped: every chunk then
                // takes table 0, and the maximum stands for the count.
                let skip = sc > max_sc;
                if sc == 0 {
                    Err(DecompressError::BadSelectors)
                } else {
                    let (sst, raw, q6) = selectors_from(
                        r.skip(p4 + 18),
                        0,
                        sc as nat,
                        if skip { 256 } else { tc },
                        Seq::empty(),
                    );
                    if sst == 1 {
                        Err(DecompressError::UnexpectedEnd)
                    } else if sst == 2 {
                        Err(DecompressError::BadSelectors)
                    } else {
                        let sels = if skip {
                            Seq::new(sc as nat, |i: int| 0usize)
                        } else {
                            selectors_spec(table_list(tc as nat), raw)
                        };
                        let last = if skip { max_sc } else { sc };
                        match tables_spec(r, p4 + 18 + q6, 0, tc, set.len() + 1int) {
                            Err(e) => Err(e),
                            Ok((p8, maps)) => match block_tail_spec(
                                r.skip(p8),
                                block_size,
                                crc,
                                key,
                                set,
                                sels,
                                last,
                                maps,
                            ) {
                                Err(e) => Err(e),
                                Ok((data, c, q)) => Ok((data, c, p8 + q)),
                            },
                        }
                    }
                }
            }
        }
    }
}

/// A block's result, its data taken as a sequence, with the number of bits it took.
pub open spec fn block_result(res: Result<(Vec<u8>, u32), DecompressError>, used: int) -> Result<
    (Seq<u8>, u32, int),
    DecompressError,
> {
    match res {
        Ok((d, c)) => Ok((d@, c, used)),
        Err(e) => Err(e),
    }
}

/// The reader's rest after `p` more bits.
proof fn lemma_rest_skip(br0: BitReader, br: BitReader, p: int)
    requires
        br.buffer@ == br0.buffer@,
        br.pos() == br0.pos() + p,
        0 <= p,
        br.pos() <= br.total(),
    ensures
        br.rest() == br0.rest().skip(p),
{
    crate::bits::lemma_bytes_bits_len(br0.buffer@);
    assert(br.rest() =~= br0.rest().skip(p));
}

/// Reads the code lengths of `table_count` tables of `symbols` symbols each, found at
/// bit `p` of `r`, and builds each table's levels and its symbols in code order (see
/// [`tables_spec`]). Also gives the tables' pairs, sorted by length.
fn read_tables(
    br: &mut BitReader,
    table_count: usize,
    symbols: usize,
    Ghost(r): Ghost<Seq<bool>>,
    Ghost(p): Ghost<int>,
) -> (res: (Result<(Vec<Vec<Level>>, Vec<Vec<u16>>), DecompressError>, Ghost<Seq<Seq<(u16, u32)>>>))
    requires
        old(br).wf(),
        table_count <= 6,
        symbols <= 257,
        0 <= p <= r.len(),
        old(br).rest() == r.skip(p),
    ensures
        final(br).wf(),
        final(br).buffer@ == old(br).buffer@,
        final(br).pos() >= old(br).pos(),
        res.0 matches Ok((lv, sy)) ==> {
            &&& res.1@.len() == table_count
            &&& tables_built(lv@, sy@, res.1@)
            &&& tables_spec(r, p, 0, table_count as int, symbols as int)
                == Ok::<(int, Seq<Seq<(u16, u32)>>), DecompressError>((p + final(br).pos() - old(br).pos(), res.1@))
        },
        res.0 matches Err(e) ==> tables_spec(r, p, 0, table_count as int, symbols as int)
            == Err::<(int, Seq<Seq<(u16, u32)>>), DecompressError>(e),
{
    let ghost b0 = *old(br);
    proof {
        crate::bits::lemma_bytes_bits_len(old(br).buffer@);
        assert(with_maps(Seq::empty(), tables_spec(r, p, 0, table_count as int, symbols as int))
            == tables_spec(r, p, 0, table_count as int, symbols as int)) by {
            match tables_spec(r, p, 0, table_count as int, symbols as int) {
                Ok((pe, rest)) => {
                    assert(Seq::<Seq<(u16, u32)>>::empty() + rest =~= rest);
                },
                Err(e) => {},
            }
        }
    }
    let mut lv: Vec<Vec<Level>> = Vec::with_capacity(table_count);
    let mut sy: Vec<Vec<u16>> = Vec::with_capacity(table_count);
    let ghost mut ms: Seq<Seq<(u16, u32)>> = Seq::empty();
    let mut t: usize = 0;
    while t < table_count
        invariant
            br.wf(),
            b0 == *old(br),
            br.buffer@ == b0.buffer@,
            br.pos() >= b0.pos(),
            0 <= p <= r.len(),
            b0.rest() == r.skip(p),
            symbols <= 257,
            t <= table_count,
            lv@.len() == t,
            sy@.len() == t,
            ms.len() == t,
            forall|q: int| 0 <= q < t ==> #[trigger] lv@[q]@ == levels_spec(ms[q]),
            forall|q: int| 0 <= q < t ==> #[trigger] sy@[q]@ == Seq::new(ms[q].len(), |k: int| ms[q][k].0),
            tables_spec(r, p, 0, table_count as int, symbols as int) == with_maps(
                ms,
                tables_spec(r, p + br.pos() - b0.pos(), t as int, table_count as int, symbols as int),
            ),
        decreases table_count - t,
    {
        let ghost d = br.pos() - b0.pos();
        let ghost pt = p + d;
        proof {
            crate::bits::lemma_bytes_bits_len(b0.buffer@);
            lemma_rest_skip(b0, *br, d);
            assert(r.skip(p).len() == b0.total() - b0.pos());
            assert(r.skip(p).skip(d) =~= r.skip(pt));
            lemma_code_lengths_status(r.skip(pt), symbols as int);
        }
        let map = match read_code_lengths(br, symbols) {
            Ok(v) => v,
            Err(e) => {
                return (Err(e), Ghost(ms));
            },
        };
        let levels = huf_decode_map(&map);
        let mut syms: Vec<u16> = Vec::with_capacity(map.len());
        let mut k: usize = 0;
        while k < map.len()
            invariant
                k <= map@.len(),
                syms@.len() == k,
                forall|j: int| 0 <= j < k ==> syms@[j] == map@[j].0,
            decreases map@.len() - k,
        {
            syms.push(map[k].0);
            k = k + 1;
        }
        proof {
            assert(syms@ =~= Seq::new(map@.len(), |j: int| map@[j].0));
            let x = tables_spec(r, p + br.pos() - b0.pos(), t + 1, table_count as int, symbols as int);
            assert(with_maps(ms, with_maps(seq![map@], x)) == with_maps(ms.push(map@), x)) by {
                match x {
                    Ok((pe, rest)) => {
                        assert(ms + (seq![map@] + rest) =~= ms.push(map@) + rest);
                    },
                    Err(e) => {},
                }
            }
        }
        lv.push(levels);
        sy.push(syms);
        proof {
            ms = ms.push(map@);
        }
        t = t + 1;
    }
    proof {
        assert(level_views(lv@) =~= map_levels(ms));
        assert(sym_views(sy@) =~= map_syms(ms));
        assert(tables_built(lv@, sy@, ms));
        assert(ms + Seq::<Seq<(u16, u32)>>::empty() =~= ms);
    }
    (Ok((lv, sy)), Ghost(ms))
}

/// Decodes the coded symbols of a block with the tables `lv` and `sy` and undoes the
/// RLE2 and move-to-front, Burrows-Wheeler and RLE1 transforms (see
/// [`block_tail_spec`]).
fn decode_tail(
    br: &mut BitReader,
    lv: &Vec<Vec<Level>>,
    sy: &Vec<Vec<u16>>,
    selectors: &Vec<usize>,
    last: usize,
    symbol_set: &mut Vec<u8>,
    key: usize,
    crc: u32,
    block_size: usize,
    Ghost(maps): Ghost<Seq<Seq<(u16, u32)>>>,
) -> (res: Result<(Vec<u8>, u32), DecompressError>)
    requires
        old(br).wf(),
        1 <= block_size <= 9,
        2 <= maps.len() <= 6,
        tables_built(lv@, sy@, maps),
        selectors@.len() >= 1,
        old(symbol_set)@.len() <= 256,
        key <= block_size * 100000 + 10,
    ensures
        final(br).wf(),
        final(br).buffer@ == old(br).buffer@,
        final(br).pos() >= old(br).pos(),
        res matches Ok((data, _)) ==> is_decoded_block(data@),
        block_result(res, final(br).pos() - old(br).pos()) == block_tail_spec(
            old(br).rest(),
            block_size as int,
            crc,
            key as int,
            old(symbol_set)@,
            selectors@,
            last as int,
            maps,
        ),
{
    let ghost set0 = symbol_set@;
    proof {
        assert(level_views(lv@).len() == lv@.len());
        assert(sym_views(sy@).len() == sy@.len());
        lemma_symbols_status(
            map_levels(maps),
            map_syms(maps),
            selectors@,
            last as int,
            (set0.len() + 1) as u16,
            max_symbols(maps.len() as int, block_size as int),
            old(br).rest(),
            0,
            Seq::empty(),
        );
    }
    let table_count = lv.len();
    let max_out: usize = if table_count == 2 {
        200
    } else if table_count == 3 {
        600
    } else if table_count == 4 {
        1200
    } else if table_count == 5 {
        2400
    } else {
        block_size * 100000 + 19
    };
    let symbols = symbol_set.len() + 1;
    let r_syms = match decode_symbols(br, lv, sy, selectors, last, symbols as u16, max_out) {
        Ok(v) => v,
        Err(e) => {
            return Err(e);
        },
    };
    let size: usize = 900019;
    if !rle2_mtf_check(&r_syms, symbols, size) {
        return Err(DecompressError::BadData);
    }
    let l = rle2_mtf_decode(&r_syms, symbol_set, size);
    if key >= l.len() {
        return Err(DecompressError::BadKey);
    }
    let b = bwt_decode((key + 1) as u32, &l);
    if b.len() < 4 {
        return Err(DecompressError::BadData);
    }
    let data = rle1_decode(&b);
    proof {
        assert(block_decoded(r_syms@, set0, key as int, data@));
    }
    Ok((data, crc))
}

/// Reads one block after its header: the block CRC, the randomised bit, the origin
/// pointer, the symbol map, the tables and selectors and the coded data; then undoes
/// the RLE2 and move-to-front transforms, the Burrows-Wheeler transform and the RLE1
/// encoding (see [`block_spec`]). Returns the block's data and the CRC the stream gives
/// for it.
#[verifier::spinoff_prover]
#[verifier::rlimit(40)]
pub fn decode_block(br: &mut BitReader, block_size: usize) -> (res: Result<
    (Vec<u8>, u32),
    DecompressError,
>)
    requires
        old(br).wf(),
        1 <= block_size <= 9,
    ensures
        final(br).wf(),
        final(br).buffer@ == old(br).buffer@,
        final(br).pos() >= old(br).pos(),
        res matches Ok((data, _)) ==> is_decoded_block(data@),
        block_result(res, final(br).pos() - old(br).pos()) == block_spec(old(br).rest(), block_size as int),
{
    let ghost r = old(br).rest();
    let ghost b0 = *old(br);
    proof {
        vstd::arithmetic::power2::lemma2_to64();
        vstd::arithmetic::power2::lemma2_to64_rest();
        crate::bits::lemma_bytes_bits_len(old(br).buffer@);
    }
    if br.buffer.len() * 8 - (br.byte_index * 8 + br.bit_index) < 57 {
        // too short for the CRC, the randomised bit and the origin pointer
        let crc = match read_bits(br, 32) {
            Ok(v) => v,
            Err(e) => {
                assert(block_spec(r, block_size as int) == block_result(Err(e), 0));
                return Err(e);
            },
        };
        let _randomised = match read_bit(br) {
            Ok(v) => v,
            Err(e) => {
                assert(block_spec(r, block_size as int) == block_result(Err(e), 0));
                return Err(e);
            },
        };
        let key = read_bits(br, 24);
        assert(key is Err);
        assert(block_spec(r, block_size as int) == block_result(Err(DecompressError::UnexpectedEnd), 0));
        return Err(DecompressError::UnexpectedEnd);
    }
    let crc = match read_bits(br, 32) {
        Ok(v) => v,
        Err(e) => {
            return Err(e);
        },
    };
    proof {
        assert(r.take(32) == r.subrange(0, 32));
        crate::bits::lemma_bits_of_value(r.take(32));
        assert(crc == bits_value(r.take(32)) && crc < 0x1_0000_0000);
    }
    let crc = crc as u32;
    let _randomised = match read_bit(br) {
        Ok(v) => v,
        Err(e) => {
            return Err(e);
        },
    };
    proof {
        lemma_rest_skip(b0, *br, 33);
        assert(br.rest().take(24) =~= r.subrange(33, 57));
        crate::bits::lemma_bits_of_value(r.subrange(33, 57));
    }
    let key = match read_bits(br, 24) {
        Ok(v) => v,
        Err(e) => {
            return Err(e);
        },
    };
    if key > block_size * 100000 + 10 {
        assert(block_spec(r, block_size as int) == block_result(Err(DecompressError::BadKey), 0));
        return Err(DecompressError::BadKey);
    }
    proof {
        lemma_rest_skip(b0, *br, 57);
    }
    let mut symbol_set = match read_symbol_set(br) {
        Ok(v) => v,
        Err(e) => {
            assert(block_spec(r, block_size as int) == block_result(Err(e), 0));
            return Err(e);
        },
    };
    let ghost words = symbol_words(r.skip(57));
    let ghost p4: int = 57 + 16 * words.len() as int;
    let ghost set0 = symbol_set@;
    let symbols = symbol_set.len() + 1;
    proof {
        if br.pos() + 3 <= br.total() {
            lemma_rest_at(b0, *br, p4, 3);
        }
    }
    proof {
        crate::bits::lemma_bits_of_value(r.subrange(p4, p4 + 3));
        crate::bits::lemma_bits_of_value(r.subrange(p4 + 3, p4 + 18));
        assert(br.pos() == b0.pos() + p4);
    }
    let table_count = match read_bits(br, 3) {
        Ok(v) => v,
        Err(e) => {
            assert(block_spec(r, block_size as int) == block_result(Err(e), 0));
            return Err(e);
        },
    };
    if table_count < 2 || table_count > 6 {
        assert(block_spec(r, block_size as int) == block_result(Err(DecompressError::BadTableCount), 0));
        return Err(DecompressError::BadTableCount);
    }
    proof {
        if br.pos() + 15 <= br.total() {
            lemma_rest_at(b0, *br, p4 + 3, 15);
        }
    }
    let selector_count = match read_bits(br, 15) {
        Ok(v) => v,
        Err(e) => {
            assert(block_spec(r, block_size as int) == block_result(Err(e), 0));
            return Err(e);
        },
    };
    let max_selectors = block_size * 100000 / CHUNK_SIZE;
    if selector_count == 0 {
        assert(block_spec(r, block_size as int) == block_result(Err(DecompressError::BadSelectors), 0));
        return Err(DecompressError::BadSelectors);
    }
    // Like bzip2, read and drop selectors past the maximum: every chunk then takes
    // table 0, and the maximum stands for the selector count.
    let skip = selector_count > max_selectors;
    let group_limit: usize = if skip {
        256
    } else {
        table_count
    };
    proof {
        lemma_rest_skip(b0, *br, p4 + 18);
    }
    proof {
        lemma_selectors_status(r.skip(p4 + 18), 0, selector_count as nat, group_limit as int, Seq::empty());
    }
    let raw = match read_selectors(br, selector_count, group_limit) {
        Ok(v) => v,
        Err(e) => {
            assert(block_spec(r, block_size as int) == block_result(Err(e), 0));
            return Err(e);
        },
    };
    let ghost q6 = selectors_from(r.skip(p4 + 18), 0, selector_count as nat, group_limit as int, Seq::empty()).2;
    let selectors = if skip {
        let mut zeros: Vec<usize> = Vec::with_capacity(selector_count);
        let mut k: usize = 0;
        while k < selector_count
            invariant
                k <= selector_count,
                zeros@ == Seq::new(k as nat, |i: int| 0usize),
            decreases selector_count - k,
        {
            zeros.push(0);
            proof {
                assert(Seq::new((k + 1) as nat, |i: int| 0usize) =~= Seq::new(k as nat, |i: int| 0usize).push(0));
            }
            k = k + 1;
        }
        zeros
    } else {
        selector_mtf_decode(&raw, table_count)
    };
    let last = if skip {
        max_selectors
    } else {
        selector_count
    };
    let ghost p7 = p4 + 18 + q6;
    proof {
        lemma_rest_skip(b0, *br, p7);
    }
    let ghost pre = br.pos();
    let (tables, Ghost(ms)) = read_tables(br, table_count, symbols, Ghost(r), Ghost(p7));
    let (lv, sy) = match tables {
        Ok(v) => v,
        Err(e) => {
            assert(block_spec(r, block_size as int) == block_result(Err(e), 0));
            return Err(e);
        },
    };
    let ghost p8 = p7 + br.pos() - pre;
    let ghost mid = *br;
    proof {
        lemma_rest_skip(b0, *br, p8);
        assert(crc == bits_value(r.take(32)) as u32);
        assert(mid.rest() == r.skip(p8));
    }
    let res = decode_tail(br, &lv, &sy, &selectors, last, &mut symbol_set, key, crc, block_size, Ghost(ms));
    proof {
        assert(block_spec(r, block_size as int) == block_result(res, br.pos() - b0.pos()));
    }
    res
}

/// The bytes that start a block.
fn block_magic() -> (m: Vec<u8>)
    ensures
        m@ == seq![0x31u8, 0x41, 0x59, 0x26, 0x53, 0x59],
{
    vec![0x31, 0x41, 0x59, 0x26, 0x53, 0x59]
}

/// The bytes that start the stream footer.
fn footer_magic() -> (m: Vec<u8>)
    ensures
        m@ == seq![0x17u8, 0x72, 0x45, 0x38, 0x50, 0x90],
{
    vec![0x17, 0x72, 0x45, 0x38, 0x50, 0x90]
}

/// The bits of the bytes that start a block.
pub open spec fn header_bits() -> Seq<bool> {
    bytes_bits(seq![0x31u8, 0x41, 0x59, 0x26, 0x53, 0x59])
}

/// The bits of the bytes that start the stream footer.
pub open spec fn footer_bits() -> Seq<bool> {
    bytes_bits(seq![0x17u8, 0x72, 0x45, 0x38, 0x50, 0x90])
}

/// Decoding the blocks of the stream bits `d` from bit `p`, after the data `out`: each
/// block starts with the block bytes and decodes as [`block_spec`] says; the footer
/// bytes and the 32-bit stream CRC end the stream.
pub open spec fn blocks_from(d: Seq<bool>, p: int, block_size: int, out: Seq<u8>) -> Result<
    Seq<u8>,
    DecompressError,
>
    decreases d.len() - p,
{
    if p < 0 || p + 48 > d.len() {
        Err(DecompressError::UnexpectedEnd)
    } else if d.subrange(p, p + 48) == footer_bits() {
        if p + 48 + 32 > d.len() {
            Err(DecompressError::UnexpectedEnd)
        } else {
            Ok(out)
        }
    } else if d.subrange(p, p + 48) != header_bits() {
        Err(DecompressError::BadBlockHeader)
    } else {
        match block_spec(d.skip(p + 48), block_size) {
            Err(e) => Err(e),
            Ok((b, _c, q)) => if q < 0 || p + 48 + q > d.len() {
                Err(DecompressError::UnexpectedEnd)
            } else {
                blocks_from(d, p + 48 + q, block_size, out + b)
            },
        }
    }
}

/// Decoding the blocks keeps what came before: decoding from bit `p` after the data `out`
/// gives `out` followed by what decoding from `p` with nothing before it gives, and the
/// same error where that fails.
pub proof fn lemma_blocks_from_appends(d: Seq<bool>, p: int, block_size: int, out: Seq<u8>)
    ensures
        blocks_from(d, p, block_size, out) == match blocks_from(d, p, block_size, Seq::empty()) {
            Ok(y) => Ok::<Seq<u8>, DecompressError>(out + y),
            Err(e) => Err(e),
        },
    decreases d.len() - p,
{
    assert(out =~= out + Seq::<u8>::empty());
    if p < 0 || p + 48 > d.len() {
    } else if d.subrange(p, p + 48) == footer_bits() {
    } else if d.subrange(p, p + 48) != header_bits() {
    } else {
        match block_spec(d.skip(p + 48), block_size) {
            Err(e) => {},
            Ok((b, _c, q)) => {
                if q < 0 || p + 48 + q > d.len() {
                } else {
                    lemma_blocks_from_appends(d, p + 48 + q, block_size, out + b);
                    lemma_blocks_from_appends(d, p + 48 + q, block_size, Seq::<u8>::empty() + b);
                    match blocks_from(d, p + 48 + q, block_size, Seq::empty()) {
                        Ok(y) => {
                            assert(out + b + y =~= out + (Seq::<u8>::empty() + b + y));
                        },
                        Err(e) => {},
                    }
                }
            },
        }
    }
}

/// The blocks come out in stream order, none lost: where a block starts at bit `p` and
/// decodes to the data `b` in `q` bits, decoding from `p` gives `b` followed by what
/// decoding the blocks after it gives.
pub proof fn lemma_blocks_in_order(d: Seq<bool>, p: int, block_size: int, b: Seq<u8>, c: u32, q: int)
    requires
        0 <= p,
        p + 48 <= d.len(),
        d.subrange(p, p + 48) == header_bits(),
        d.subrange(p, p + 48) != footer_bits(),
        block_spec(d.skip(p + 48), block_size) == Ok::<(Seq<u8>, u32, int), DecompressError>((b, c, q)),
        0 <= q,
        p + 48 + q <= d.len(),
    ensures
        blocks_from(d, p, block_size, Seq::empty()) == match blocks_from(d, p + 48 + q, block_size, Seq::empty()) {
            Ok(y) => Ok::<Seq<u8>, DecompressError>(b + y),
            Err(e) => Err(e),
        },
{
    lemma_blocks_from_appends(d, p + 48 + q, block_size, Seq::<u8>::empty() + b);
    assert(Seq::<u8>::empty() + b =~= b);
}

/// What decompressing the stream `data` gives: the signature "BZh" and a block size digit,
/// then the blocks up to the footer (see [`blocks_from`]).
pub open spec fn decompress_spec(data: Seq<u8>) -> Result<Seq<u8>, DecompressError> {
    if !has_signature(data) {
        Err(DecompressError::BadSignature)
    } else if !has_block_size(data) {
        Err(DecompressError::BadBlockSize)
    } else {
        blocks_from(bytes_bits(data), 32, data[3] - 0x30, Seq::empty())
    }
}

/// A result of decompression, its data taken as a sequence.
pub open spec fn stream_result(res: Result<Vec<u8>, DecompressError>) -> Result<Seq<u8>, DecompressError> {
    match res {
        Ok(d) => Ok(d@),
        Err(e) => Err(e),
    }
}

/// Bytes with the same bits are the same bytes.
proof fn lemma_bytes_bits_injective(a: Seq<u8>, b: Seq<u8>)
    requires
        a.len() == b.len(),
        bytes_bits(a) == bytes_bits(b),
    ensures
        a == b,
    decreases a.len(),
{
    if a.len() > 0 {
        let n = a.len();
        crate::bits::lemma_bytes_bits_len(a.drop_last());
        crate::bits::lemma_bytes_bits_len(b.drop_last());
        crate::bits::lemma_bits_of_len(a.last() as nat, 8);
        crate::bits::lemma_bits_of_len(b.last() as nat, 8);
        assert(bytes_bits(a) == bytes_bits(a.drop_last()) + bits_of(a.last() as nat, 8));
        assert(bytes_bits(b) == bytes_bits(b.drop_last()) + bits_of(b.last() as nat, 8));
        assert(bytes_bits(a.drop_last()) =~= bytes_bits(a).take(8 * (n - 1)));
        assert(bytes_bits(b.drop_last()) =~= bytes_bits(b).take(8 * (n - 1)));
        assert(bits_of(a.last() as nat, 8) =~= bytes_bits(a).skip(8 * (n - 1)));
        assert(bits_of(b.last() as nat, 8) =~= bytes_bits(b).skip(8 * (n - 1)));
        lemma_bytes_bits_injective(a.drop_last(), b.drop_last());
        crate::bits::lemma_bits_value_of(a.last() as nat, 8);
        crate::bits::lemma_bits_value_of(b.last() as nat, 8);
        crate::bits::lemma_small_pow2();
        assert(a =~= a.drop_last().push(a.last()));
        assert(b =~= b.drop_last().push(b.last()));
    }
}

/// Decompress a bzip2 stream: check the signature and block size, then decode each
/// block in turn until the footer, and return the data (see [`decompress_spec`]). The
/// block CRCs and the stream CRC are computed and read, but a mismatch is not an error.
pub fn decompress(data: &[u8]) -> (res: Result<Vec<u8>, DecompressError>)
    requires
        data@.len() * 8 + 8 <= usize::MAX,
    ensures
        stream_result(res) == decompress_spec(data@),
        res matches Ok(out) ==> exists|blocks: Seq<Seq<u8>>|
            #[trigger] joined(blocks) == out@ && forall|i: int| 0 <= i < blocks.len() ==> is_decoded_block(#[trigger] blocks[i]),
{
    if data.len() < 3 || data[0] != 0x42 || data[1] != 0x5a || data[2] != 0x68 {
        return Err(DecompressError::BadSignature);
    }
    if data.len() < 4 || data[3] < 0x31 || data[3] > 0x39 {
        return Err(DecompressError::BadBlockSize);
    }
    let block_size = (data[3] - 0x30) as usize;
    let ghost d = bytes_bits(data@);
    let mut br = BitReader::new(data);
    proof {
        crate::bits::lemma_bytes_bits_len(data@);
        assert(br.rest() =~= d);
    }
    let _signature = read_bits(&mut br, 32)?;
    let header = block_magic();
    let footer = footer_magic();
    let mut out: Vec<u8> = Vec::new();
    proof {
        assert(joined(Seq::<Seq<u8>>::empty()) == Seq::<u8>::empty());
        assert(out@ =~= Seq::<u8>::empty());
    }
    let mut stream_crc: u32 = 0;
    let ghost mut blocks: Seq<Seq<u8>> = Seq::empty();
    loop
        invariant_except_break
            decompress_spec(data@) == blocks_from(d, br.pos() as int, block_size as int, out@),
        invariant
            joined(blocks) == out@,
            forall|i: int| 0 <= i < blocks.len() ==> is_decoded_block(#[trigger] blocks[i]),
            br.wf(),
            br.buffer@ == data@,
            d == bytes_bits(data@),
            d.len() == br.total(),
            1 <= block_size <= 9,
            block_size == data@[3] - 0x30,
            has_signature(data@) && has_block_size(data@),
            header@ == seq![0x31u8, 0x41, 0x59, 0x26, 0x53, 0x59],
            footer@ == seq![0x17u8, 0x72, 0x45, 0x38, 0x50, 0x90],
        ensures
            br.pos() >= 48,
            d.subrange(br.pos() - 48, br.pos() as int) == footer_bits(),
            decompress_spec(data@) == blocks_from(d, br.pos() - 48, block_size as int, out@),
        decreases br.total() - br.pos(),
    {
        let remaining = br.buffer.len() * 8 - (br.byte_index * 8 + br.bit_index);
        if remaining < 48 {
            return Err(DecompressError::UnexpectedEnd);
        }
        let ghost before: int = br.pos() as int;
        let ghost b1 = br;
        let hf = match br.bytes(6) {
            Some(v) => v,
            None => {
                return Err(DecompressError::UnexpectedEnd);
            },
        };
        proof {
            assert(b1.rest().take(48) =~= d.subrange(before as int, before + 48));
            crate::bits::lemma_bytes_bits_len(hf@);
            if bytes_bits(hf@) == footer_bits() {
                lemma_bytes_bits_injective(hf@, footer@);
            }
            if bytes_bits(hf@) == header_bits() {
                lemma_bytes_bits_injective(hf@, header@);
            }
        }
        if same_bytes(&hf, &footer) {
            break;
        }
        if !same_bytes(&hf, &header) {
            return Err(DecompressError::BadBlockHeader);
        }
        proof {
            crate::bits::lemma_bytes_bits_len(data@);
            assert(br.rest() =~= d.skip(before + 48));
        }
        let ghost b2 = br;
        let (block, _block_crc) = match decode_block(&mut br, block_size) {
            Ok(v) => v,
            Err(e) => {
                return Err(e);
            },
        };
        let this_crc = do_crc(0, &block);
        stream_crc = do_stream_crc(stream_crc, this_crc);
        let ghost out0 = out@;
        let mut k: usize = 0;
        while k < block.len()
            invariant
                k <= block@.len(),
                out@ == out0 + block@.take(k as int),
            decreases block@.len() - k,
        {
            out.push(block[k]);
            proof {
                assert(out0 + block@.take(k + 1) =~= (out0 + block@.take(k as int)).push(block@[k as int]));
            }
            k = k + 1;
        }
        proof {
            assert(block@.take(block@.len() as int) =~= block@);
            let nb = blocks.push(block@);
            assert(nb.drop_last() =~= blocks);
            assert forall|i: int| 0 <= i < nb.len() implies is_decoded_block(#[trigger] nb[i]) by {
                if i < blocks.len() {
                    assert(nb[i] == blocks[i]);
                }
            }
            blocks = nb;
        }
        assert(br.pos() > before);
    }
    let ghost fin = br;
    let _stream_crc = match read_bits(&mut br, 32) {
        Ok(v) => v,
        Err(e) => {
            return Err(e);
        },
    };
    proof {
        assert(joined(blocks) == out@);
    }
    Ok(out)
}

} // verus!
