//! Encode the RLE2 symbols of a block with bzip2's multi-table system: the symbol map,
//! the number of tables and selectors, the move-to-front coded selectors, the code
//! lengths of each table, and then each symbol with the code of its chunk's table.
use vstd::prelude::*;
use vstd::arithmetic::power2::{pow2, lemma_pow2_pos, lemma_pow2_adds, lemma_pow2_strictly_increases, lemma2_to64};
use crate::bits::{bits_of, bits_value, lemma_bits_of_len, lemma_bits_of_mod, lemma_bits_value_of};
use crate::bitstream::bitpacker::BitPacker;
use crate::tools::compress::Block;
use crate::huffman_coding::code_lengths::improve_code_len_from_weights;
use crate::compression::decompress::{code_lengths_spec, delta_from, lengths_from, selectors_from, symbol_words, unary_from, word_at};
use crate::tools::symbol_map::{lemma_sym_map_roundtrip, sym_map_spec};
use crate::compression::decode_tables::{selectors_spec, table_list};
use crate::huffman_coding::codes::kraft;
use crate::huffman_coding::codes::{
    canon_codes, canonical_codes, codes_fit, lemma_selector_mtf_roundtrip, lengths_in_range, sel_bytes, sel_mtf_spec,
    selector_mtf_encode, CodeError,
};
use crate::huffman_coding::tables::{
    freq_sum, init_tables, init_tables_old, lemma_portion_entries, portion_fold, select_pass, select_ready, table_count_for, table_count_spec,
};

verus! {

/// Why a block could not be coded: no canonical codes came out of a table's lengths,
/// which happens only where the tables are used as first guessed, without a pass that
/// rebuilds them.
#[derive(Debug, Clone, Copy, PartialEq, Eq)]
pub enum HuffmanError {
    /// The lengths of a table are out of range, or overfill the code space.
    Codes(CodeError),
}

/// The 16-bit words `ws`, in order.
pub open spec fn words16_bits(ws: Seq<u16>) -> Seq<bool>
    decreases ws.len(),
{
    if ws.len() == 0 {
        Seq::empty()
    } else {
        words16_bits(ws.drop_last()) + bits_of(ws.last() as nat, 16)
    }
}

/// Where each word stands among the bits of the words.
proof fn lemma_words16_at(ws: Seq<u16>, k: int)
    requires
        0 <= k < ws.len(),
    ensures
        words16_bits(ws).len() == 16 * ws.len(),
        words16_bits(ws).subrange(16 * k, 16 * k + 16) == bits_of(ws[k] as nat, 16),
    decreases ws.len(),
{
    lemma_bits_of_len(ws.last() as nat, 16);
    if k < ws.len() - 1 {
        lemma_words16_at(ws.drop_last(), k);
        let a = words16_bits(ws.drop_last());
        assert(words16_bits(ws).subrange(16 * k, 16 * k + 16) =~= a.subrange(16 * k, 16 * k + 16));
    } else {
        if ws.len() > 1 {
            lemma_words16_at(ws.drop_last(), 0);
        } else {
            assert(ws.drop_last() =~= Seq::<u16>::empty());
        }
        let a = words16_bits(ws.drop_last());
        assert(a.len() == 16 * (ws.len() - 1));
        assert(words16_bits(ws).subrange(16 * k, 16 * k + 16) =~= bits_of(ws[k] as nat, 16));
    }
}

/// The symbol map comes back from its bits: the decoder reads from the words the encoder
/// writes for the bytes present in `l`, whatever follows, the index word and one word
/// for each group it marks, which are those words.
pub proof fn lemma_symbol_words_roundtrip(l: Seq<u8>, rest: Seq<bool>)
    requires
        l.len() > 0,
    ensures
        symbol_words(words16_bits(sym_map_spec(l)) + rest) == sym_map_spec(l),
{
    let ws = sym_map_spec(l);
    let r = words16_bits(ws) + rest;
    lemma_sym_map_roundtrip(l);
    vstd::arithmetic::power2::lemma2_to64();
    assert forall|k: int| 0 <= k < ws.len() implies #[trigger] word_at(r, k) == ws[k] by {
        lemma_words16_at(ws, k);
        assert(r.subrange(16 * k, 16 * k + 16) =~= bits_of(ws[k] as nat, 16));
        lemma_bits_value_of(ws[k] as nat, 16);
    }
    assert(word_at(r, 0) == ws[0]);
    assert(symbol_words(r) =~= ws);
}

/// A coded selector: `m` one bits and a zero.
pub open spec fn unary(m: usize) -> Seq<bool> {
    bits_of((pow2((m + 1) as nat) - 2) as nat, (m + 1) as nat)
}

/// The coded selectors, in order.
pub open spec fn sel_bits(ms: Seq<usize>) -> Seq<bool>
    decreases ms.len(),
{
    if ms.len() == 0 {
        Seq::empty()
    } else {
        sel_bits(ms.drop_last()) + unary(ms.last())
    }
}

/// The bits of `2^m - 1` in `m` places are all ones.
proof fn lemma_all_ones(m: nat)
    ensures
        bits_of((pow2(m) - 1) as nat, m) == Seq::new(m, |k: int| true),
    decreases m,
{
    lemma_pow2_pos(m);
    if m == 0 {
        assert(bits_of((pow2(0) - 1) as nat, 0) =~= Seq::new(0, |k: int| true));
    } else {
        vstd::arithmetic::power2::lemma_pow2_unfold(m);
        lemma_pow2_pos((m - 1) as nat);
        lemma_all_ones((m - 1) as nat);
        let v = (pow2(m) - 1) as nat;
        assert(v / 2 == (pow2((m - 1) as nat) - 1) as nat);
        assert(v % 2 == 1);
        assert(bits_of(v, m) =~= Seq::new(m, |k: int| true));
    }
}

/// A coded selector `m` is `m` ones and a zero.
proof fn lemma_unary_bits(m: usize)
    ensures
        unary(m) == Seq::new(m as nat, |k: int| true).push(false),
{
    vstd::arithmetic::power2::lemma_pow2_unfold((m + 1) as nat);
    lemma_pow2_pos(m as nat);
    lemma_all_ones(m as nat);
    let v = (pow2((m + 1) as nat) - 2) as nat;
    assert(v / 2 == (pow2(m as nat) - 1) as nat);
    assert(v % 2 == 0);
    assert(unary(m) =~= Seq::new(m as nat, |k: int| true).push(false));
}

/// The coded selectors, taken from the front.
proof fn lemma_sel_bits_front(ms: Seq<usize>)
    requires
        ms.len() > 0,
    ensures
        sel_bits(ms) == unary(ms[0]) + sel_bits(ms.skip(1)),
    decreases ms.len(),
{
    if ms.len() == 1 {
        assert(ms.drop_last() =~= Seq::<usize>::empty());
        assert(ms.skip(1) =~= Seq::<usize>::empty());
        assert(sel_bits(ms) =~= unary(ms[0]) + sel_bits(ms.skip(1)));
    } else {
        lemma_sel_bits_front(ms.drop_last());
        assert(ms.skip(1).drop_last() =~= ms.drop_last().skip(1));
        assert(ms.skip(1).last() == ms.last());
        assert(ms.drop_last()[0] == ms[0]);
        assert(sel_bits(ms) =~= unary(ms[0]) + sel_bits(ms.skip(1)));
    }
}

/// Reading `m` ones and a zero, with `g` ones counted before, where `g + m` stays below `tc`.
proof fn lemma_unary_read(r: Seq<bool>, p: int, g: int, m: int, tc: int)
    requires
        0 <= p,
        0 <= m,
        p + m < r.len(),
        forall|k: int| p <= k < p + m ==> r[k],
        !r[p + m],
        0 <= g,
        g + m < tc,
    ensures
        unary_from(r, p, g, tc) == (0int, g + m, p + m + 1),
    decreases m,
{
    if m > 0 {
        assert(r[p]);
        lemma_unary_read(r, p + 1, g + 1, m - 1, tc);
    }
}

/// Reading the coded selectors `ms`, each below `tc`, where their bits stand at `p`.
proof fn lemma_selectors_read(r: Seq<bool>, p: int, ms: Seq<usize>, tc: int, acc: Seq<u8>)
    requires
        0 <= p,
        p + sel_bits(ms).len() <= r.len(),
        r.subrange(p, p + sel_bits(ms).len()) == sel_bits(ms),
        forall|k: int| 0 <= k < ms.len() ==> (ms[k] as int) < tc,
    ensures
        selectors_from(r, p, ms.len() as nat, tc, acc) == (0int, acc + sel_bytes(ms), p + sel_bits(ms).len()),
    decreases ms.len(),
{
    if ms.len() == 0 {
        assert(acc + sel_bytes(ms) =~= acc);
    } else {
        lemma_sel_bits_front(ms);
        lemma_unary_bits(ms[0]);
        let u = unary(ms[0]);
        let m = ms[0] as int;
        let rest = ms.skip(1);
        assert(u.len() == m + 1);
        assert forall|k: int| p <= k < p + m implies r[k] by {
            assert(r.subrange(p, p + sel_bits(ms).len())[k - p] == sel_bits(ms)[k - p]);
            assert(sel_bits(ms)[k - p] == u[k - p]);
        }
        assert(!r[p + m]) by {
            assert(r.subrange(p, p + sel_bits(ms).len())[m] == sel_bits(ms)[m]);
            assert(sel_bits(ms)[m] == u[m]);
        }
        lemma_unary_read(r, p, 0, m, tc);
        let p1 = p + m + 1;
        assert(r.subrange(p1, p1 + sel_bits(rest).len()) =~= sel_bits(rest)) by {
            assert forall|k: int| 0 <= k < sel_bits(rest).len() implies r.subrange(p1, p1 + sel_bits(rest).len())[k]
                == sel_bits(rest)[k] by {
                assert(r.subrange(p, p + sel_bits(ms).len())[m + 1 + k] == sel_bits(ms)[m + 1 + k]);
            }
        }
        assert forall|k: int| 0 <= k < rest.len() implies (rest[k] as int) < tc by {
            assert(rest[k] == ms[k + 1]);
        }
        lemma_selectors_read(r, p1, rest, tc, acc.push(ms[0] as u8));
        assert(acc.push(ms[0] as u8) + sel_bytes(rest) =~= acc + sel_bytes(ms));
    }
}

/// The selectors come back from the bits the encoder writes for them: the decoder reads
/// the coded selectors from those bits, whatever follows them, and undoing their
/// move-to-front coding with the `tc` tables in use gives the selectors.
pub proof fn lemma_selectors_roundtrip(sels: Seq<usize>, tc: int, rest: Seq<bool>)
    requires
        1 <= tc <= 6,
        forall|k: int| 0 <= k < sels.len() ==> sels[k] < tc,
    ensures
        ({
            let b = sel_bits(sel_mtf_spec(sels));
            let (st, raw, q) = selectors_from(b + rest, 0, sels.len() as nat, tc, Seq::empty());
            &&& st == 0
            &&& q == b.len()
            &&& selectors_spec(table_list(tc as nat), raw) == sels
        }),
{
    let ms = sel_mtf_spec(sels);
    let b = sel_bits(ms);
    lemma_selector_mtf_roundtrip(sels, tc);
    assert((b + rest).subrange(0, b.len() as int) =~= b);
    lemma_selectors_read(b + rest, 0, ms, tc, Seq::empty());
    assert(Seq::<u8>::empty() + sel_bytes(ms) =~= sel_bytes(ms));
}

/// `k` copies of the bits `b`.
pub open spec fn repeat(b: Seq<bool>, k: nat) -> Seq<bool>
    decreases k,
{
    if k == 0 {
        Seq::empty()
    } else {
        repeat(b, (k - 1) as nat) + b
    }
}

/// The change from one length to the next: `10` for each step up, `11` for each step
/// down, then a `0`.
pub open spec fn delta_bits(from: int, to: int) -> Seq<bool> {
    (if to >= from {
        repeat(bits_of(2, 2), (to - from) as nat)
    } else {
        repeat(bits_of(3, 2), (from - to) as nat)
    }) + bits_of(0, 1)
}

/// The code lengths of the symbols `0..k` as changes from the length before.
pub open spec fn deltas(lens: Seq<u32>, k: int) -> Seq<bool>
    decreases k,
{
    if k <= 0 {
        Seq::empty()
    } else {
        deltas(lens, k - 1) + delta_bits(if k - 1 == 0 {
            lens[0] as int
        } else {
            lens[k - 2] as int
        }, lens[k - 1] as int)
    }
}

/// Copies of `b`, taken from the front.
proof fn lemma_repeat_front(b: Seq<bool>, k: nat)
    requires
        k >= 1,
    ensures
        repeat(b, k) == b + repeat(b, (k - 1) as nat),
    decreases k,
{
    if k == 1 {
        assert(repeat(b, 0) =~= Seq::<bool>::empty());
        assert(repeat(b, 1) =~= b + repeat(b, 0));
    } else {
        lemma_repeat_front(b, (k - 1) as nat);
        assert(repeat(b, k) =~= b + repeat(b, (k - 1) as nat));
    }
}

/// The length of `k` copies of a pair.
proof fn lemma_repeat_len(b: Seq<bool>, k: nat)
    ensures
        repeat(b, k).len() == k * b.len(),
    decreases k,
{
    if k > 0 {
        let k1 = (k - 1) as nat;
        lemma_repeat_len(b, k1);
        assert(repeat(b, k) == repeat(b, k1) + b);
        assert(k1 * b.len() + b.len() == k * b.len()) by (nonlinear_arith)
            requires
                k1 + 1 == k,
        ;
    } else {
        assert(0 * b.len() == 0);
    }
}

/// Reading `j` pairs that each move the change one way (`up`), then the closing zero.
proof fn lemma_pairs_read(r: Seq<bool>, p: int, diff: int, j: nat, up: bool)
    requires
        0 <= p,
        p + 2 * j + 1 <= r.len(),
        r.subrange(p, p + 2 * j + 1) == repeat(bits_of(if up { 2 } else { 3 }, 2), j) + bits_of(0, 1),
        -40 <= diff <= 40,
        -40 <= (if up { diff + j } else { diff - j }) <= 40,
    ensures
        delta_from(r, p, diff) == (0int, if up { diff + j } else { diff - j }, p + 2 * j + 1),
    decreases j,
{
    reveal_with_fuel(bits_of, 3);
    let pair = bits_of(if up { 2 } else { 3 }, 2);
    assert(pair =~= seq![true, !up]);
    assert(bits_of(0, 1) =~= seq![false]);
    if j == 0 {
        assert(repeat(pair, 0) =~= Seq::<bool>::empty());
        assert(r.subrange(p, p + 1)[0] == r[p]);
    } else {
        lemma_repeat_front(pair, j);
        lemma_repeat_len(pair, (j - 1) as nat);
        let whole = r.subrange(p, p + 2 * j + 1);
        assert(whole[0] == r[p] && whole[1] == r[p + 1]);
        assert(whole =~= pair + (repeat(pair, (j - 1) as nat) + bits_of(0, 1)));
        assert(r[p] && r[p + 1] == !up);
        let nd = if up { diff + 1 } else { diff - 1 };
        let tail = repeat(pair, (j - 1) as nat) + bits_of(0, 1);
        let sub = r.subrange(p + 2, p + 2 + 2 * (j - 1) + 1);
        assert(sub =~= tail) by {
            assert forall|k: int| 0 <= k < tail.len() implies #[trigger] sub[k] == tail[k] by {
                assert(whole[k + 2] == r[p + 2 + k]);
            }
        }
        lemma_pairs_read(r, p + 2, nd, (j - 1) as nat, up);
    }
}

/// Reading the change from one length to the next.
proof fn lemma_delta_read(r: Seq<bool>, p: int, from: int, to: int)
    requires
        0 <= p,
        p + delta_bits(from, to).len() <= r.len(),
        r.subrange(p, p + delta_bits(from, to).len()) == delta_bits(from, to),
        -40 <= to - from <= 40,
    ensures
        delta_from(r, p, 0) == (0int, to - from, p + delta_bits(from, to).len()),
{
    reveal_with_fuel(bits_of, 3);
    let up = to >= from;
    let j: nat = if up { (to - from) as nat } else { (from - to) as nat };
    let pair = bits_of(if up { 2 } else { 3 }, 2);
    lemma_repeat_len(pair, j);
    assert(pair.len() == 2);
    assert(bits_of(0, 1).len() == 1);
    assert(delta_bits(from, to) == repeat(pair, j) + bits_of(0, 1));
    assert(delta_bits(from, to).len() == 2 * j + 1);
    lemma_pairs_read(r, p, 0, j, up);
}

/// The changes of the symbols `0..k` come first among those of the symbols `0..n`.
proof fn lemma_deltas_prefix(lens: Seq<u32>, k: int, n: int)
    requires
        0 <= k <= n,
    ensures
        deltas(lens, k).len() <= deltas(lens, n).len(),
        deltas(lens, n).take(deltas(lens, k).len() as int) == deltas(lens, k),
    decreases n - k,
{
    if k < n {
        lemma_deltas_prefix(lens, k, n - 1);
        let a = deltas(lens, n - 1);
        assert(deltas(lens, n).take(a.len() as int) =~= a);
        assert(deltas(lens, n).take(deltas(lens, k).len() as int) =~= a.take(deltas(lens, k).len() as int));
    }
}

/// The length before symbol `k`: the first length for symbol 0.
pub open spec fn prev_len(lens: Seq<u32>, k: int) -> int {
    if k == 0 {
        lens[0] as int
    } else {
        lens[k - 1] as int
    }
}

/// The pairs of each of the symbols `0..k` and its length.
pub open spec fn len_pairs(lens: Seq<u32>, k: int) -> Seq<(u16, u32)> {
    Seq::new(k as nat, |i: int| (i as u16, lens[i]))
}

/// Reading the lengths of the symbols `k..n`, where the changes stand from bit 5 on.
proof fn lemma_lengths_read(r: Seq<bool>, lens: Seq<u32>, n: int, k: int)
    requires
        1 <= n <= lens.len(),
        n <= 0x10000,
        forall|i: int| 0 <= i < n ==> 1 <= #[trigger] lens[i] <= 20,
        5 + deltas(lens, n).len() as int <= r.len(),
        r.subrange(5, 5 + deltas(lens, n).len() as int) == deltas(lens, n),
        0 <= k <= n,
    ensures
        lengths_from(r, 5 + deltas(lens, k).len() as int, prev_len(lens, k), k, n - 1, len_pairs(lens, k))
            == (0int, len_pairs(lens, n), 5 + deltas(lens, n).len() as int),
    decreases n - k,
{
    if k == n {
    } else {
        lemma_deltas_prefix(lens, k + 1, n);
        let a = deltas(lens, k);
        let d = delta_bits(prev_len(lens, k), lens[k] as int);
        assert(deltas(lens, k + 1) == a + d);
        let p: int = 5 + a.len() as int;
        assert(r.subrange(p, p + d.len() as int) =~= d) by {
            assert forall|i: int| 0 <= i < d.len() implies r.subrange(p, p + d.len() as int)[i] == d[i] by {
                assert(deltas(lens, n).take(deltas(lens, k + 1).len() as int)[a.len() + i] == (a + d)[a.len() + i]);
                assert(r.subrange(5, 5 + deltas(lens, n).len() as int)[a.len() + i] == r[p + i]);
            }
        }
        assert(1 <= lens[k] <= 20);
        if k > 0 {
            assert(1 <= lens[k - 1] <= 20);
        }
        lemma_delta_read(r, p, prev_len(lens, k), lens[k] as int);
        assert(len_pairs(lens, k).push((k as u16, lens[k])) =~= len_pairs(lens, k + 1));
        assert(prev_len(lens, k + 1) == lens[k] as int);
        lemma_lengths_read(r, lens, n, k + 1);
    }
}

/// A table's code lengths come back from their bits: the decoder reads from the bits the
/// encoder writes for them, whatever follows, the first length and then each symbol's
/// change, and gets each of the symbols `0..n` with its length.
pub proof fn lemma_lengths_roundtrip(lens: Seq<u32>, n: int, rest: Seq<bool>)
    requires
        1 <= n <= lens.len(),
        n <= 0x10000,
        forall|i: int| 0 <= i < n ==> 1 <= #[trigger] lens[i] <= 20,
    ensures
        code_lengths_spec(len_bits(lens, n) + rest, n - 1) == (0int, len_pairs(lens, n), len_bits(lens, n).len() as int),
{
    let r = len_bits(lens, n) + rest;
    lemma_bits_of_len(lens[0] as nat, 5);
    assert(r.take(5) =~= bits_of(lens[0] as nat, 5));
    lemma_bits_value_of(lens[0] as nat, 5);
    vstd::arithmetic::power2::lemma2_to64();
    assert(bits_value(r.take(5)) == lens[0]);
    assert(r.subrange(5, 5 + deltas(lens, n).len() as int) =~= deltas(lens, n));
    assert(deltas(lens, 0).len() == 0);
    assert(len_pairs(lens, 0) =~= Seq::<(u16, u32)>::empty());
    lemma_lengths_read(r, lens, n, 0);
}

/// A table's code lengths: the first as five bits, then each length as a change.
pub open spec fn len_bits(lens: Seq<u32>, n: int) -> Seq<bool> {
    bits_of(lens[0] as nat, 5) + deltas(lens, n)
}

/// The code lengths of the tables `0..t`.
pub open spec fn tables_bits(tables: Seq<Seq<u32>>, n: int, t: int) -> Seq<bool>
    decreases t,
{
    if t <= 0 {
        Seq::empty()
    } else {
        tables_bits(tables, n, t - 1) + len_bits(tables[t - 1], n)
    }
}

/// The code of symbol `k` of `r`, from the table its chunk's selector picks.
pub open spec fn symbol_bits(tables: Seq<Seq<u32>>, sels: Seq<usize>, r: Seq<u16>, n: int, k: int) -> Seq<bool> {
    let t = sels[k / 50] as int;
    let s = r[k] as int;
    bits_of(canon_codes(tables[t], n)[s] as nat, tables[t][s] as nat)
}

/// The codes of the symbols `0..k` of `r`.
pub open spec fn data_bits(tables: Seq<Seq<u32>>, sels: Seq<usize>, r: Seq<u16>, n: int, k: int) -> Seq<bool>
    decreases k,
{
    if k <= 0 {
        Seq::empty()
    } else {
        data_bits(tables, sels, r, n, k - 1) + symbol_bits(tables, sels, r, n, k - 1)
    }
}

/// The coded block after the header: symbol map, table count, selector count, coded
/// selectors, code lengths of each table, coded symbols.
pub open spec fn huf_layout(
    map: Seq<u16>,
    tc: int,
    sels: Seq<usize>,
    tables: Seq<Seq<u32>>,
    r: Seq<u16>,
    n: int,
) -> Seq<bool> {
    words16_bits(map) + bits_of(tc as nat, 3) + bits_of(sels.len(), 15) + sel_bits(sel_mtf_spec(sels))
        + tables_bits(tables, n, tc) + data_bits(tables, sels, r, n, r.len() as int)
}

/// Puts the low `len` bits of `v` on the stream.
fn put_bits(bw: &mut BitPacker, len: u32, v: u32)
    requires
        old(bw).wf(),
        1 <= len <= 24,
        v < 0x1000000,
    ensures
        final(bw).wf(),
        final(bw).bit_view() == old(bw).bit_view() + bits_of(v as nat, len as nat),
        final(bw).padding == old(bw).padding,
{
    proof {
        lemma2_to64();
        if len < 24 {
            lemma_pow2_strictly_increases(len as nat, 24);
        }
    }
    let data = (len << 24) | v;
    proof {
        assert(data == len * 0x1000000 + v) by (bit_vector)
            requires
                data == (len << 24u32) | v,
                v < 0x1000000,
                len <= 24,
        ;
        assert(data / 0x1000000 == len);
        lemma_pow2_adds(len as nat, (24 - len) as nat);
        let p = pow2(len as nat) as int;
        let q = pow2((24 - len) as nat) as int;
        assert(data as int == p * (len * q) + v) by (nonlinear_arith)
            requires
                data as int == len * 0x1000000 + v,
                p * q == 0x1000000,
        ;
        lemma_pow2_pos(len as nat);
        vstd::arithmetic::div_mod::lemma_mod_multiples_vanish(len * q, v as int, p);
        lemma_bits_of_mod(data as nat, len as nat);
        lemma_bits_of_mod(v as nat, len as nat);
    }
    bw.out24(data);
}

/// Puts the symbol map words on the stream.
fn put_words(bw: &mut BitPacker, ws: &Vec<u16>)
    requires
        old(bw).wf(),
    ensures
        final(bw).wf(),
        final(bw).bit_view() == old(bw).bit_view() + words16_bits(ws@),
        final(bw).padding == old(bw).padding,
{
    let mut i: usize = 0;
    while i < ws.len()
        invariant
            i <= ws@.len(),
            bw.wf(),
            bw.bit_view() == old(bw).bit_view() + words16_bits(ws@.take(i as int)),
            bw.padding == old(bw).padding,
        decreases ws@.len() - i,
    {
        bw.out16(ws[i]);
        proof {
            assert(ws@.take(i + 1).drop_last() =~= ws@.take(i as int));
            assert(bw.bit_view() =~= old(bw).bit_view() + words16_bits(ws@.take(i + 1)));
        }
        i = i + 1;
    }
    proof {
        assert(ws@.take(ws@.len() as int) =~= ws@);
    }
}

/// Puts the coded selectors on the stream.
fn put_selectors(bw: &mut BitPacker, ms: &Vec<usize>)
    requires
        old(bw).wf(),
        forall|k: int| 0 <= k < ms@.len() ==> ms@[k] < 6,
    ensures
        final(bw).wf(),
        final(bw).bit_view() == old(bw).bit_view() + sel_bits(ms@),
        final(bw).padding == old(bw).padding,
{
    let mut i: usize = 0;
    proof {
        lemma2_to64();
    }
    while i < ms.len()
        invariant
            i <= ms@.len(),
            forall|k: int| 0 <= k < ms@.len() ==> ms@[k] < 6,
            bw.wf(),
            bw.bit_view() == old(bw).bit_view() + sel_bits(ms@.take(i as int)),
            bw.padding == old(bw).padding,
        decreases ms@.len() - i,
    {
        let m = ms[i];
        let v: u32 = if m == 0 {
            0
        } else if m == 1 {
            2
        } else if m == 2 {
            6
        } else if m == 3 {
            14
        } else if m == 4 {
            30
        } else {
            62
        };
        proof {
            lemma2_to64();
            assert(v as int == pow2((m + 1) as nat) - 2);
        }
        put_bits(bw, (m + 1) as u32, v);
        proof {
            assert(ms@.take(i + 1).drop_last() =~= ms@.take(i as int));
            assert(bw.bit_view() =~= old(bw).bit_view() + sel_bits(ms@.take(i + 1)));
        }
        i = i + 1;
    }
    proof {
        assert(ms@.take(ms@.len() as int) =~= ms@);
    }
}

/// Puts one change of length on the stream.
fn put_delta(bw: &mut BitPacker, from: u32, to: u32)
    requires
        old(bw).wf(),
        from <= 17,
        to <= 17,
    ensures
        final(bw).wf(),
        final(bw).bit_view() == old(bw).bit_view() + delta_bits(from as int, to as int),
        final(bw).padding == old(bw).padding,
{
    proof {
        lemma2_to64();
    }
    let mut delta: i32 = to as i32 - from as i32;
    let ghost up = to >= from;
    let ghost total: nat = if up {
        (to - from) as nat
    } else {
        (from - to) as nat
    };
    let ghost step = if up {
        bits_of(2, 2)
    } else {
        bits_of(3, 2)
    };
    loop
        invariant
            bw.wf(),
            -17 <= delta <= 17,
            up ==> delta >= 0,
            !up ==> delta <= 0,
            up == (to >= from),
            total == (if up {
                (to - from) as nat
            } else {
                (from - to) as nat
            }),
            step == (if up {
                bits_of(2, 2)
            } else {
                bits_of(3, 2)
            }),
            bw.bit_view() == old(bw).bit_view() + repeat(step, (total - (if delta >= 0 {
                delta as int
            } else {
                -delta
            })) as nat),
            (if delta >= 0 {
                delta as int
            } else {
                -delta
            }) <= total,
            bw.padding == old(bw).padding,
            pow2(2) == 4,
        ensures
            bw.wf(),
            bw.bit_view() == old(bw).bit_view() + repeat(step, total),
            bw.padding == old(bw).padding,
        decreases if delta >= 0 {
            delta as int
        } else {
            -delta
        },
    {
        let ghost done: nat = (total - (if delta >= 0 {
            delta as int
        } else {
            -delta
        })) as nat;
        if delta > 0 {
            put_bits(bw, 2, 2);
            delta = delta - 1;
            proof {
                assert(repeat(step, done + 1) == repeat(step, done) + step);
            }
        } else if delta < 0 {
            put_bits(bw, 2, 3);
            delta = delta + 1;
            proof {
                assert(repeat(step, done + 1) == repeat(step, done) + step);
            }
        } else {
            break;
        }
    }
    put_bits(bw, 1, 0);
}

/// Puts a table's code lengths on the stream.
fn put_lengths(bw: &mut BitPacker, lens: &Vec<u32>, n: usize)
    requires
        old(bw).wf(),
        1 <= n <= lens@.len(),
        lengths_in_range(lens@, n as int),
    ensures
        final(bw).wf(),
        final(bw).bit_view() == old(bw).bit_view() + len_bits(lens@, n as int),
        final(bw).padding == old(bw).padding,
{
    proof {
        lemma2_to64();
    }
    let mut origin = lens[0];
    put_bits(bw, 5, origin);
    let ghost after_origin = bw.bit_view();
    let mut s: usize = 0;
    while s < n
        invariant
            1 <= n <= lens@.len(),
            lengths_in_range(lens@, n as int),
            s <= n,
            origin == (if s == 0 {
                lens@[0]
            } else {
                lens@[s - 1]
            }),
            bw.wf(),
            after_origin == old(bw).bit_view() + bits_of(lens@[0] as nat, 5),
            bw.bit_view() == after_origin + deltas(lens@, s as int),
            bw.padding == old(bw).padding,
        decreases n - s,
    {
        let l = lens[s];
        put_delta(bw, origin, l);
        origin = l;
        proof {
            assert(bw.bit_view() =~= after_origin + deltas(lens@, s + 1));
        }
        s = s + 1;
    }
}

/// What the coding of the symbols needs: symbols within the tables, a selector for
/// each chunk naming one of the tables, lengths in range and codes that fit them.
pub open spec fn data_ready(
    tables: Seq<Vec<u32>>,
    codes: Seq<Vec<u32>>,
    sels: Seq<usize>,
    r: Seq<u16>,
    tc: int,
    n: int,
) -> bool {
    &&& tables.len() >= tc
    &&& codes.len() >= tc
    &&& sels.len() >= (r.len() + 49) / 50
    &&& forall|i: int| 0 <= i < sels.len() ==> (sels[i] as int) < tc
    &&& forall|i: int| 0 <= i < r.len() ==> (r[i] as int) < n
    &&& forall|t: int| 0 <= t < tc ==> #[trigger] tables[t]@.len() >= n
    &&& forall|t: int| 0 <= t < tc ==> lengths_in_range(#[trigger] tables[t]@, n)
    &&& forall|t: int| 0 <= t < tc ==> #[trigger] codes[t]@.len() == n
    &&& forall|t: int, s: int| 0 <= t < tc && 0 <= s < n ==> codes[t]@[s] as int == #[trigger] canon_codes(tables[t]@, n)[s]
    &&& forall|t: int| 0 <= t < tc ==> codes_fit(tables[t]@, #[trigger] codes[t]@, n)
}

/// The tables as sequences.
pub open spec fn views(tables: Seq<Vec<u32>>) -> Seq<Seq<u32>> {
    Seq::new(tables.len(), |t: int| tables[t]@)
}

/// Puts the code of each symbol on the stream, each chunk with its selector's table.
fn put_data(
    bw: &mut BitPacker,
    r: &Vec<u16>,
    sels: &Vec<usize>,
    tables: &Vec<Vec<u32>>,
    codes: &Vec<Vec<u32>>,
    tc: usize,
    n: usize,
)
    requires
        old(bw).wf(),
        data_ready(tables@, codes@, sels@, r@, tc as int, n as int),
        n <= 258,
    ensures
        final(bw).wf(),
        final(bw).bit_view() == old(bw).bit_view() + data_bits(views(tables@), sels@, r@, n as int, r@.len() as int),
        final(bw).padding == old(bw).padding,
{
    let mut k: usize = 0;
    proof {
        lemma2_to64();
    }
    while k < r.len()
        invariant
            k <= r@.len(),
            data_ready(tables@, codes@, sels@, r@, tc as int, n as int),
            n <= 258,
            bw.wf(),
            bw.bit_view() == old(bw).bit_view() + data_bits(views(tables@), sels@, r@, n as int, k as int),
            bw.padding == old(bw).padding,
            pow2(17) == 0x20000,
        decreases r@.len() - k,
    {
        let t = sels[k / 50];
        let s = r[k] as usize;
        let len = tables[t][s];
        let code = codes[t][s];
        proof {
            assert(lengths_in_range(tables@[t as int]@, n as int));
            assert(codes_fit(tables@[t as int]@, codes@[t as int]@, n as int));
            assert(1 <= len <= 17);
            if len < 17 {
                lemma_pow2_strictly_increases(len as nat, 17);
            }
            assert(code as int == canon_codes(tables@[t as int]@, n as int)[s as int]);
        }
        put_bits(bw, len, code);
        proof {
            assert(views(tables@)[t as int] == tables@[t as int]@);
            assert(bw.bit_view() =~= old(bw).bit_view() + data_bits(views(tables@), sels@, r@, n as int, k + 1));
        }
        k = k + 1;
    }
}

/// What coding a block needs: symbols up to the end-of-block symbol, a frequency for
/// each, and few enough symbols to count and to select tables for.
pub open spec fn huf_ready(block: Block) -> bool {
    &&& 1 <= block.eob < 258
    &&& forall|i: int| 0 <= i < block.temp_vec@.len() ==> block.temp_vec@[i] <= block.eob
    &&& (block.eob as int) < block.freqs@.len()
    &&& freq_sum(block.freqs@, block.freqs@.len() as int) <= u32::MAX
    &&& block.temp_vec@.len() + 100 < 0x1000000
}

/// The stream after coding `block` with the code lengths `tables` and the `sc`
/// selectors `sels`, each naming one of the tables, lengths in range, and the block's
/// layout written after what was there.
pub open spec fn huf_written(
    before: Seq<bool>,
    after: Seq<bool>,
    block: Block,
    sc: int,
    tables: Seq<Seq<u32>>,
    sels: Seq<usize>,
) -> bool {
    let tc = table_count_spec(block.temp_vec@.len()) as int;
    let n = block.eob + 1;
    &&& sels.len() == sc
    &&& forall|i: int| 0 <= i < sels.len() ==> (sels[i] as int) < tc
    &&& forall|t: int| 0 <= t < tc ==> lengths_in_range(#[trigger] tables[t], n)
    &&& after == before + huf_layout(block.sym_map@, tc, sels, tables, block.temp_vec@, n)
}

/// The first `tc` tables are complete codes over the symbols `0..n`: their Kraft sums are
/// exactly `2^17` (scaled).
pub open spec fn complete_tables(tables: Seq<Seq<u32>>, tc: int, n: int) -> bool {
    forall|t: int| 0 <= t < tc ==> kraft(#[trigger] tables[t], n) == pow2(17)
}

/// Encode MTF/RLE2 data using bzip2's multi-table system.
/// We need a BitWriter, adequately spedified block data, and the number of iterations
/// desired (bzip2 uses 4). The tables start as a guess from the symbol frequencies; each
/// iteration chooses a table for each chunk of fifty symbols and rebuilds every table's
/// code lengths from the symbols it was chosen for. The selectors of the last iteration
/// are kept. On success the stream holds the symbol map, the table count, the selector
/// count (one selector for each chunk of fifty, and one more), the coded selectors, the
/// code lengths of each table and the coded symbols.
pub fn huf_encode(bw: &mut BitPacker, block: &mut Block, iterations: usize) -> (res: Result<(), HuffmanError>)
    requires
        old(bw).wf(),
        huf_ready(*old(block)),
    ensures
        *final(block) == *old(block),
        final(bw).wf(),
        final(bw).padding == old(bw).padding,
        res is Ok ==> exists|tables: Seq<Seq<u32>>, sels: Seq<usize>|
            #[trigger] huf_written(
                old(bw).bit_view(),
                final(bw).bit_view(),
                *old(block),
                (old(block).temp_vec@.len() / 50 + 1) as int,
                tables,
                sels,
            ) && (iterations >= 1 ==> complete_tables(
                tables,
                table_count_spec(old(block).temp_vec@.len()) as int,
                old(block).eob + 1,
            )),
        iterations >= 1 ==> res is Ok,
{
    let n_r = block.temp_vec.len();
    let tc = table_count_for(n_r);
    let tables = init_tables(&block.freqs, tc, block.eob);
    proof {
        assert forall|t: int, i: int| 0 <= t < 6 && 0 <= i < 258 implies tables@[t]@[i] <= 17 by {
            crate::huffman_coding::tables::lemma_init_entries(block.freqs@, tc as int, block.eob as int, t, i);
        }
    }
    let res = refine_and_write(bw, block, iterations, tables, n_r / 50 + 1);
    proof {
        if res is Ok {
            let (t, sl) = choose|t: Seq<Seq<u32>>, sl: Seq<usize>|
                #[trigger] huf_written(old(bw).bit_view(), bw.bit_view(), *old(block), (n_r / 50 + 1) as int, t, sl)
                    && (iterations >= 1 ==> complete_tables(
                    t,
                    table_count_spec(old(block).temp_vec@.len()) as int,
                    old(block).eob + 1,
                ));
            assert(huf_written(
                old(bw).bit_view(),
                bw.bit_view(),
                *old(block),
                (old(block).temp_vec@.len() / 50 + 1) as int,
                t,
                sl,
            ));
        }
    }
    res
}

/// Encode MTF data using bzip2's multi-table system, with the portion-based first
/// guess at the tables: each table, from the last down, takes the symbols whose
/// frequencies fill one table's share of the block (see [`portion_fold`]). The rest
/// is as in [`huf_encode`], but with one selector for each chunk of fifty symbols.
pub fn huf_encode_old(bw: &mut BitPacker, block: &mut Block, iterations: usize) -> (res: Result<(), HuffmanError>)
    requires
        old(bw).wf(),
        huf_ready(*old(block)),
    ensures
        *final(block) == *old(block),
        final(bw).wf(),
        final(bw).padding == old(bw).padding,
        res is Ok ==> exists|tables: Seq<Seq<u32>>, sels: Seq<usize>|
            #[trigger] huf_written(
                old(bw).bit_view(),
                final(bw).bit_view(),
                *old(block),
                ((old(block).temp_vec@.len() + 49) / 50) as int,
                tables,
                sels,
            ) && (iterations >= 1 ==> complete_tables(
                tables,
                table_count_spec(old(block).temp_vec@.len()) as int,
                old(block).eob + 1,
            )),
        iterations >= 1 ==> res is Ok,
{
    let n_r = block.temp_vec.len();
    let tc = table_count_for(n_r);
    let limit = n_r as u32 / tc as u32;
    let tables = init_tables_old(&block.freqs, tc, block.eob, limit);
    proof {
        assert forall|t: int| 0 <= t < 6 implies #[trigger] tables@[t]@.len() == 258 by {
            lemma_portion_entries(block.freqs@, limit as int, tc as int, block.eob + 1, t, 0);
        }
        assert forall|t: int, i: int| 0 <= t < 6 && 0 <= i < 258 implies tables@[t]@[i] <= 17 by {
            lemma_portion_entries(block.freqs@, limit as int, tc as int, block.eob + 1, t, i);
        }
    }
    let res = refine_and_write(bw, block, iterations, tables, (n_r + 49) / 50);
    proof {
        if res is Ok {
            let (t, sl) = choose|t: Seq<Seq<u32>>, sl: Seq<usize>|
                #[trigger] huf_written(old(bw).bit_view(), bw.bit_view(), *old(block), ((n_r + 49) / 50) as int, t, sl)
                    && (iterations >= 1 ==> complete_tables(
                    t,
                    table_count_spec(old(block).temp_vec@.len()) as int,
                    old(block).eob + 1,
                ));
            assert(huf_written(
                old(bw).bit_view(),
                bw.bit_view(),
                *old(block),
                ((old(block).temp_vec@.len() + 49) / 50) as int,
                t,
                sl,
            ));
        }
    }
    res
}

/// Refines the starting `tables` over `iterations` passes and writes the block with
/// them and its first `sc` selectors: the part of the Huffman coding that follows the
/// first guess at the tables.
#[verifier::spinoff_prover]
#[verifier::rlimit(80)]
fn refine_and_write(
    bw: &mut BitPacker,
    block: &mut Block,
    iterations: usize,
    tables: Vec<Vec<u32>>,
    sc: usize,
) -> (res: Result<(), HuffmanError>)
    requires
        old(bw).wf(),
        huf_ready(*old(block)),
        sc == old(block).temp_vec@.len() / 50 + 1 || sc == (old(block).temp_vec@.len() + 49) / 50,
        tables@.len() == 6,
        forall|t: int| 0 <= t < 6 ==> #[trigger] tables@[t]@.len() == 258,
        forall|t: int, i: int| 0 <= t < 6 && 0 <= i < 258 ==> tables@[t]@[i] <= 17,
    ensures
        *final(block) == *old(block),
        final(bw).wf(),
        final(bw).padding == old(bw).padding,
        res is Ok ==> exists|tables: Seq<Seq<u32>>, sels: Seq<usize>|
            #[trigger] huf_written(old(bw).bit_view(), final(bw).bit_view(), *old(block), sc as int, tables, sels)
                && (iterations >= 1 ==> complete_tables(
                tables,
                table_count_spec(old(block).temp_vec@.len()) as int,
                old(block).eob + 1,
            )),
        iterations >= 1 ==> res is Ok,
{
    let mut tables = tables;
    let n_r = block.temp_vec.len();
    let eob = block.eob;
    let n = eob as usize + 1;
    let tc = table_count_for(n_r);
    let selector_count = n_r / 50 + 1;
    let mut selectors: Vec<usize> = Vec::with_capacity(selector_count);
    let mut k: usize = 0;
    while k < selector_count
        invariant
            k <= selector_count,
            selectors@.len() == k,
            forall|i: int| 0 <= i < k ==> selectors@[i] == 0,
        decreases selector_count - k,
    {
        selectors.push(0);
        k = k + 1;
    }
    let mut iter: usize = 0;
    while iter < iterations
        invariant
            huf_ready(*block),
            n_r == block.temp_vec@.len(),
            n == block.eob + 1,
            eob == block.eob,
            tc == table_count_spec(n_r as nat),
            2 <= tc <= 6,
            selectors@.len() == selector_count,
            selector_count == n_r / 50 + 1,
            forall|i: int| 0 <= i < selectors@.len() ==> (selectors@[i] as int) < tc,
            tables@.len() == 6,
            forall|t: int| 0 <= t < 6 ==> #[trigger] tables@[t]@.len() == 258,
            forall|t: int, i: int| 0 <= t < 6 && 0 <= i < 258 ==> tables@[t]@[i] <= 17,
            *block == *old(block),
            bw.wf(),
            bw.bit_view() == old(bw).bit_view(),
            bw.padding == old(bw).padding,
            iter > 0 ==> forall|q: int| 0 <= q < tc ==> kraft(#[trigger] tables@[q]@, n as int) == pow2(17),
            iter > 0 ==> forall|q: int| 0 <= q < tc ==> lengths_in_range(#[trigger] tables@[q]@, n as int),
            iter <= iterations,
        decreases iterations - iter,
    {
        proof {
            assert(select_ready(tables@, block.temp_vec@, tc as int));
        }
        let (sels, rfreq) = select_pass(&tables, &block.temp_vec, tc);
        proof {
            crate::huffman_coding::tables::lemma_selectors_bound(
                crate::huffman_coding::tables::table_views(tables@),
                block.temp_vec@,
                tc as int,
            );
        }
        if iter == iterations - 1 {
            selectors = sels;
        }
        let mut t: usize = 0;
        while t < tc
            invariant
                t <= tc,
                2 <= tc <= 6,
                1 <= eob < 258,
                rfreq@.len() == 6,
                forall|q: int| 0 <= q < 6 ==> #[trigger] rfreq@[q]@.len() == 258,
                tables@.len() == 6,
                forall|q: int| 0 <= q < 6 ==> #[trigger] tables@[q]@.len() == 258,
                forall|q: int, i: int| 0 <= q < 6 && 0 <= i < 258 ==> tables@[q]@[i] <= 17,
                *block == *old(block),
                bw.wf(),
                bw.bit_view() == old(bw).bit_view(),
                bw.padding == old(bw).padding,
                n == eob + 1,
                forall|q: int| 0 <= q < t ==> kraft(#[trigger] tables@[q]@, n as int) == pow2(17),
                forall|q: int| 0 <= q < t ==> lengths_in_range(#[trigger] tables@[q]@, n as int),
            decreases tc - t,
        {
            let mut row = tables[t].clone();
            let ghost before = row@;
            improve_code_len_from_weights(row.as_mut_slice(), rfreq[t].as_slice(), eob);
            proof {
                assert forall|i: int| 0 <= i < 258 implies row@[i] <= 17 by {
                    assert(row@[i] == before[i] || row@[i] <= 17);
                }
            }
            let ghost old_tables = tables@;
            tables.set(t, row);
            proof {
                assert forall|q: int| 0 <= q < t + 1 implies kraft(#[trigger] tables@[q]@, n as int) == pow2(17) by {
                    if q != t {
                        assert(tables@[q] == old_tables[q]);
                    }
                }
                assert forall|q: int| 0 <= q < t + 1 implies lengths_in_range(#[trigger] tables@[q]@, n as int) by {
                    if q != t {
                        assert(tables@[q] == old_tables[q]);
                    } else {
                        assert forall|sy: int| 0 <= sy < n implies 1 <= #[trigger] tables@[q]@[sy] <= 17 by {
                            assert(tables@[q]@[sy] == row@[sy]);
                        }
                    }
                }
                assert forall|q: int, i: int| 0 <= q < 6 && 0 <= i < 258 implies tables@[q]@[i] <= 17 by {
                    if q != t {
                        assert(tables@[q] == old_tables[q]);
                    }
                }
            }
            t = t + 1;
        }
        iter = iter + 1;
    }
    // Keep one selector for each chunk where that is what is asked for.
    let ghost all_sels = selectors@;
    if selectors.len() > sc {
        selectors.pop();
    }
    proof {
        assert(selectors@.len() == sc);
        assert forall|i: int| 0 <= i < selectors@.len() implies (selectors@[i] as int) < tc by {
            assert(selectors@[i] == all_sels[i]);
        }
        assert(sc < 0x1000000);
    }
    let selector_count = sc;
    // Write out the the symbol maps, 16 bit L1 + 0-16 words of 16 bit L2 maps.
    let ghost start = bw.bit_view();
    put_words(bw, &block.sym_map);
    // Symbol maps are followed by a 3 bit number of Huffman trees that exist
    put_bits(bw, 3, tc as u32);
    // Then a 15 bit number indicating the how many selectors are used
    put_bits(bw, 15, selector_count as u32);
    // the selectors, after their move-to-front transform
    let mtf_selectors = selector_mtf_encode(&selectors);
    put_selectors(bw, &mtf_selectors);
    let ghost after_sels = bw.bit_view();
    // the canonical codes of each table, and its code lengths on the stream
    let mut code_tables: Vec<Vec<u32>> = Vec::with_capacity(tc);
    let mut t: usize = 0;
    while t < tc
        invariant
            t <= tc,
            2 <= tc <= 6,
            n == eob + 1,
            1 <= eob < 258,
            tables@.len() == 6,
            forall|q: int| 0 <= q < 6 ==> #[trigger] tables@[q]@.len() == 258,
            code_tables@.len() == t,
            forall|q: int| 0 <= q < t ==> lengths_in_range(#[trigger] tables@[q]@, n as int),
            forall|q: int| 0 <= q < t ==> #[trigger] code_tables@[q]@.len() == n,
            forall|q: int, s: int| 0 <= q < t && 0 <= s < n ==> code_tables@[q]@[s] as int == #[trigger] canon_codes(tables@[q]@, n as int)[s],
            forall|q: int| 0 <= q < t ==> codes_fit(tables@[q]@, #[trigger] code_tables@[q]@, n as int),
            bw.wf(),
            bw.bit_view() == after_sels + tables_bits(views(tables@), n as int, t as int),
            bw.padding == old(bw).padding,
            iterations >= 1 ==> forall|q: int| 0 <= q < tc ==> kraft(#[trigger] tables@[q]@, n as int) == pow2(17),
            iterations >= 1 ==> forall|q: int| 0 <= q < tc ==> lengths_in_range(#[trigger] tables@[q]@, n as int),
        decreases tc - t,
    {
        let codes = match canonical_codes(&tables[t], n) {
            Ok(c) => c,
            Err(e) => {
                proof {
                    if iterations >= 1 {
                        assert(lengths_in_range(tables@[t as int]@, n as int));
                        assert(kraft(tables@[t as int]@, n as int) == pow2(17));
                    }
                }
                return Err(HuffmanError::Codes(e));
            },
        };
        put_lengths(bw, &tables[t], n);
        code_tables.push(codes);
        proof {
            assert(views(tables@)[t as int] == tables@[t as int]@);
            assert(bw.bit_view() =~= after_sels + tables_bits(views(tables@), n as int, t + 1));
        }
        t = t + 1;
    }
    // Now encode and write the data.
    proof {
        assert(data_ready(tables@, code_tables@, selectors@, block.temp_vec@, tc as int, n as int));
    }
    put_data(bw, &block.temp_vec, &selectors, &tables, &code_tables, tc, n);
    proof {
        let tv = views(tables@);
        assert forall|q: int| 0 <= q < tc implies lengths_in_range(#[trigger] tv[q], n as int) by {
            assert(tv[q] == tables@[q]@);
        }
        assert(bw.bit_view() =~= old(bw).bit_view() + huf_layout(
            block.sym_map@,
            tc as int,
            selectors@,
            tv,
            block.temp_vec@,
            n as int,
        ));
        assert(huf_written(old(bw).bit_view(), bw.bit_view(), *old(block), sc as int, tv, selectors@));
        if iterations >= 1 {
            assert forall|q: int| 0 <= q < tc implies kraft(#[trigger] tv[q], n as int) == pow2(17) by {
                assert(tv[q] == tables@[q]@);
            }
            assert(complete_tables(tv, tc as int, n as int));
        }
    }
    Ok(())
}

} // verus!
