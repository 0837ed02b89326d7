//! The bzip2 symbol map: which of the 256 byte values occur in a block. A first 16-bit
//! word marks which groups of 16 values occur; for each marked group a 16-bit word
//! follows that marks the values of that group which occur (most significant bit first).
use std::collections::VecDeque;
use vstd::prelude::*;
use crate::tools::mtf::{lemma_present_upto, present_symbols, present_upto};

verus! {

const BIT_MASK: u16 = 0x8000;

/// Bit `k` of `w`, counting from the most significant bit.
pub open spec fn bit16(w: u16, k: int) -> bool {
    (w & (0x8000u16 >> (k as u16))) != 0
}

/// The word whose bits `0..n` (from the most significant) are set exactly where `p` holds.
pub open spec fn word_from(p: spec_fn(int) -> bool, n: nat) -> u16
    decreases n,
{
    if n == 0 {
        0
    } else {
        word_from(p, (n - 1) as nat) | (if p(n - 1) {
            0x8000u16 >> ((n - 1) as u16)
        } else {
            0u16
        })
    }
}

/// Whether some symbol of `s` lies in the group `g` (the values `16 g .. 16 g + 15`).
pub open spec fn group_present(s: Seq<u8>, g: int) -> bool {
    exists|j: int| 0 <= j < s.len() && s[j] / 16 == g
}

/// The map word for group `g`: its bit `k` is set when `16 g + k` occurs in `s`.
pub open spec fn group_word(s: Seq<u8>, g: int) -> u16 {
    word_from(|k: int| s.contains((16 * g + k) as u8), 16)
}

/// The map "index" word: its bit `g` is set when group `g` occurs in `s`.
pub open spec fn index_word(s: Seq<u8>) -> u16 {
    word_from(|g: int| group_present(s, g), 16)
}

/// The index word followed by all sixteen group words.
pub open spec fn full_sym_map(s: Seq<u8>) -> Seq<u16> {
    Seq::new(17, |i: int| if i == 0 { index_word(s) } else { group_word(s, i - 1) })
}

/// The words of `w` that are not zero, in order.
pub open spec fn nonzero_words(w: Seq<u16>) -> Seq<u16>
    decreases w.len(),
{
    if w.len() == 0 {
        w
    } else if w.last() != 0 {
        nonzero_words(w.drop_last()).push(w.last())
    } else {
        nonzero_words(w.drop_last())
    }
}

/// The encoded symbol map of the symbols `s`.
pub open spec fn sym_map_spec(s: Seq<u8>) -> Seq<u16> {
    nonzero_words(full_sym_map(s))
}

/// The values `16 g + k` for the bits `k < n` set in `w`, ascending.
pub open spec fn group_syms(w: u16, g: int, n: nat) -> Seq<u8>
    decreases n,
{
    if n == 0 {
        Seq::empty()
    } else {
        group_syms(w, g, (n - 1) as nat) + (if bit16(w, n - 1) {
            seq![(16 * g + n - 1) as u8]
        } else {
            Seq::empty()
        })
    }
}

/// Number of the bits `0..b` set in the index word.
pub open spec fn groups_before(index: u16, b: nat) -> nat
    decreases b,
{
    if b == 0 {
        0
    } else {
        groups_before(index, (b - 1) as nat) + (if bit16(index, b - 1) {
            1nat
        } else {
            0nat
        })
    }
}

/// The symbols of the groups `0..b` that a symbol map marks, ascending.
pub open spec fn decode_upto(map: Seq<u16>, b: nat) -> Seq<u8>
    decreases b,
{
    if b == 0 {
        Seq::empty()
    } else {
        decode_upto(map, (b - 1) as nat) + (if bit16(map[0], b - 1) {
            group_syms(map[1 + groups_before(map[0], (b - 1) as nat) as int], b - 1, 16)
        } else {
            Seq::empty()
        })
    }
}

proof fn lemma_group_syms_len(w: u16, g: int, n: nat)
    ensures
        group_syms(w, g, n).len() <= n,
    decreases n,
{
    if n > 0 {
        lemma_group_syms_len(w, g, (n - 1) as nat);
    }
}

proof fn lemma_decode_upto_len(map: Seq<u16>, b: nat)
    ensures
        decode_upto(map, b).len() <= 16 * b,
    decreases b,
{
    if b > 0 {
        lemma_decode_upto_len(map, (b - 1) as nat);
        lemma_group_syms_len(map[1 + groups_before(map[0], (b - 1) as nat) as int], b - 1, 16);
    }
}

/// A symbol map marks at most 256 symbols.
pub proof fn lemma_decode_len(map: Seq<u16>)
    ensures
        decode_spec(map).len() <= 256,
{
    lemma_decode_upto_len(map, 16);
}

/// The symbols a symbol map marks, ascending.
pub open spec fn decode_spec(map: Seq<u16>) -> Seq<u8> {
    decode_upto(map, 16)
}

/// Setting one more bit of a word.
proof fn lemma_word_from_set(p: spec_fn(int) -> bool, q: spec_fn(int) -> bool, k: int, n: nat)
    requires
        0 <= k < 16,
        n <= 16,
        forall|x: int| 0 <= x < 16 ==> #[trigger] q(x) == (p(x) || x == k),
    ensures
        word_from(q, n) == word_from(p, n) | (if k < n {
            0x8000u16 >> (k as u16)
        } else {
            0u16
        }),
    decreases n,
{
    if n == 0 {
        assert(0u16 | 0u16 == 0u16) by (bit_vector);
    } else {
        lemma_word_from_set(p, q, k, (n - 1) as nat);
        let a = word_from(p, (n - 1) as nat);
        let bp: u16 = if p(n - 1) {
            0x8000u16 >> ((n - 1) as u16)
        } else {
            0u16
        };
        let bq: u16 = if q(n - 1) {
            0x8000u16 >> ((n - 1) as u16)
        } else {
            0u16
        };
        assert(word_from(p, n) == a | bp);
        assert(word_from(q, n) == word_from(q, (n - 1) as nat) | bq);
        let kb: u16 = 0x8000u16 >> (k as u16);
        if k < n - 1 {
            assert((a | kb) | bp == (a | bp) | kb) by (bit_vector);
        } else if k == n - 1 {
            assert((a | 0u16) | kb == (a | bp) | kb) by (bit_vector)
                requires
                    bp == 0u16 || bp == kb,
            ;
        } else {
            assert((a | 0u16) | bp == (a | bp) | 0u16) by (bit_vector);
        }
    }
}

/// Words built from predicates that agree are equal.
proof fn lemma_word_from_ext(p: spec_fn(int) -> bool, q: spec_fn(int) -> bool, n: nat)
    requires
        forall|x: int| 0 <= x < n ==> #[trigger] q(x) == p(x),
    ensures
        word_from(q, n) == word_from(p, n),
    decreases n,
{
    if n > 0 {
        lemma_word_from_ext(p, q, (n - 1) as nat);
    }
}

/// The symbol map after one more symbol.
proof fn lemma_full_sym_map_push(t: Seq<u8>, b: u8)
    ensures
        full_sym_map(t.push(b))[0] == full_sym_map(t)[0] | (0x8000u16 >> ((b / 16) as u16)),
        full_sym_map(t.push(b))[1 + b / 16] == full_sym_map(t)[1 + b / 16] | (0x8000u16 >> ((b
            % 16) as u16)),
        forall|i: int| 0 <= i < 17 && i != 0 && i != 1 + b / 16 ==> full_sym_map(t.push(b))[i]
            == full_sym_map(t)[i],
{
    let u = t.push(b);
    // the index word
    let p = |g: int| group_present(t, g);
    let q = |g: int| group_present(u, g);
    assert forall|x: int| 0 <= x < 16 implies #[trigger] q(x) == (p(x) || x == b / 16) by {
        if q(x) {
            let j = choose|j: int| 0 <= j < u.len() && u[j] / 16 == x;
            if j < t.len() {
                assert(t[j] == u[j]);
            }
        }
        if p(x) {
            let j = choose|j: int| 0 <= j < t.len() && t[j] / 16 == x;
            assert(u[j] == t[j]);
        }
        if x == b / 16 {
            assert(u[t.len() as int] == b);
        }
    }
    lemma_word_from_set(p, q, (b / 16) as int, 16);
    // the word of b's group
    let g = (b / 16) as int;
    let pg = |k: int| t.contains((16 * g + k) as u8);
    let qg = |k: int| u.contains((16 * g + k) as u8);
    assert forall|x: int| 0 <= x < 16 implies #[trigger] qg(x) == (pg(x) || x == b % 16) by {
        let v = (16 * g + x) as u8;
        if qg(x) {
            let j = choose|j: int| 0 <= j < u.len() && u[j] == v;
            if j < t.len() {
                assert(t[j] == u[j]);
            }
        }
        if pg(x) {
            let j = choose|j: int| 0 <= j < t.len() && t[j] == v;
            assert(u[j] == t[j]);
        }
        if x == b % 16 {
            assert(u[t.len() as int] == b);
        }
    }
    lemma_word_from_set(pg, qg, (b % 16) as int, 16);
    // the other groups
    assert forall|i: int| 0 <= i < 17 && i != 0 && i != 1 + b / 16 implies full_sym_map(u)[i]
        == full_sym_map(t)[i] by {
        let h = i - 1;
        let ph = |k: int| t.contains((16 * h + k) as u8);
        let qh = |k: int| u.contains((16 * h + k) as u8);
        assert forall|x: int| 0 <= x < 16 implies #[trigger] qh(x) == ph(x) by {
            let v = (16 * h + x) as u8;
            if qh(x) {
                let j = choose|j: int| 0 <= j < u.len() && u[j] == v;
                if j < t.len() {
                    assert(t[j] == u[j]);
                } else {
                    assert(u[j] == b);
                    assert(false);
                }
            }
            if ph(x) {
                let j = choose|j: int| 0 <= j < t.len() && t[j] == v;
                assert(u[j] == t[j]);
            }
        }
        lemma_word_from_ext(ph, qh, 16);
    }
}

/// Takes a sorted deduped vec of all symbols used in the input and
/// creates the unique bzip2 symbol map of symbols encoded as u16s
pub fn encode_sym_map(symbols: &VecDeque<u8>) -> (maps: Vec<u16>)
    ensures
        maps@ == sym_map_spec(symbols@),
{
    let mut symbol_maps: Vec<u16> = vec![0; 17];
    proof {
        let e = Seq::<u8>::empty();
        assert forall|i: int| 0 <= i < 17 implies full_sym_map(e)[i] == 0u16 by {
            if i == 0 {
                lemma_word_from_ext(|g: int| false, |g: int| group_present(e, g), 16);
            } else {
                lemma_word_from_ext(|g: int| false, |k: int| e.contains((16 * (i - 1) + k) as u8), 16);
            }
            lemma_word_from_false(16);
        }
        assert(symbols@.take(0) =~= e);
        assert(symbol_maps@ =~= full_sym_map(symbols@.take(0)));
    }
    let mut i: usize = 0;
    while i < symbols.len()
        invariant
            i <= symbols@.len(),
            symbol_maps@ == full_sym_map(symbols@.take(i as int)),
        decreases symbols@.len() - i,
    {
        let byte = symbols[i];
        let l1 = byte >> 4;
        let low = byte & 15;
        proof {
            assert(l1 == byte / 16 && low == byte % 16) by (bit_vector)
                requires
                    l1 == byte >> 4u8,
                    low == byte & 15u8,
            ;
            lemma_full_sym_map_push(symbols@.take(i as int), byte);
            assert(symbols@.take(i + 1) =~= symbols@.take(i as int).push(byte));
        }
        let w0 = symbol_maps[0] | (BIT_MASK >> l1);
        symbol_maps.set(0, w0);
        let idx = 1 + l1 as usize;
        let w1 = symbol_maps[idx] | (BIT_MASK >> low);
        symbol_maps.set(idx, w1);
        proof {
            assert(symbol_maps@ =~= full_sym_map(symbols@.take(i + 1)));
        }
        i = i + 1;
    }
    proof {
        assert(symbols@.take(symbols@.len() as int) =~= symbols@);
    }
    // Keep only those words that have bits set.
    let mut maps: Vec<u16> = Vec::new();
    let mut j: usize = 0;
    while j < 17
        invariant
            j <= 17,
            symbol_maps@ == full_sym_map(symbols@),
            maps@ == nonzero_words(symbol_maps@.take(j as int)),
        decreases 17 - j,
    {
        proof {
            assert(symbol_maps@.take(j + 1).drop_last() =~= symbol_maps@.take(j as int));
        }
        if symbol_maps[j] != 0 {
            maps.push(symbol_maps[j]);
        }
        j = j + 1;
    }
    proof {
        assert(symbol_maps@.take(17) =~= symbol_maps@);
    }
    maps
}

/// The empty word.
proof fn lemma_word_from_false(n: nat)
    ensures
        word_from(|g: int| false, n) == 0u16,
    decreases n,
{
    if n > 0 {
        lemma_word_from_false((n - 1) as nat);
        assert(0u16 | 0u16 == 0u16) by (bit_vector);
    }
}

/// Takes the unique bzip2 symbol map and returns a sorted vec of all
/// u8s used in the input.
pub fn decode_sym_map(symbol_map: &[u16]) -> (result: Vec<u8>)
    requires
        symbol_map@.len() > groups_before(symbol_map@[0], 16),
    ensures
        result@ == decode_spec(symbol_map@),
{
    let mut result: Vec<u8> = Vec::with_capacity(256);
    // Set a counter for the number of maps
    let mut map_idx: usize = 0;
    let mut block: u8 = 0;
    while block < 16
        invariant
            block <= 16,
            symbol_map@.len() > groups_before(symbol_map@[0], 16),
            map_idx == groups_before(symbol_map@[0], block as nat),
            result@ == decode_upto(symbol_map@, block as nat),
        decreases 16 - block,
    {
        proof {
            lemma_groups_before_mono(symbol_map@[0], (block + 1) as nat, 16);
        }
        // Check the index to see if the next bit has a block of bytes
        if (symbol_map[0] & (BIT_MASK >> block)) > 0 {
            let ghost before = result@;
            let word = symbol_map[map_idx + 1];
            // If so, iterate through the next u16 to find which bytes were present
            let mut byte_idx: u8 = 0;
            while byte_idx < 16
                invariant
                    byte_idx <= 16,
                    block < 16,
                    result@ == before + group_syms(word, block as int, byte_idx as nat),
                decreases 16 - byte_idx,
            {
                if (word & (BIT_MASK >> byte_idx)) > 0 {
                    // Store this symbol on the vec. (block * 16 + byte_idx = u8 value we found)
                    proof {
                        assert((block << 4u8) + byte_idx == 16 * block + byte_idx) by (bit_vector)
                            requires
                                block < 16,
                                byte_idx < 16,
                        ;
                    }
                    result.push((block << 4) + byte_idx);
                }
                proof {
                    assert(result@ =~= before + group_syms(word, block as int, (byte_idx + 1) as nat));
                }
                byte_idx = byte_idx + 1;
            }
            map_idx = map_idx + 1;
        }
        proof {
            assert(result@ =~= decode_upto(symbol_map@, (block + 1) as nat));
        }
        block = block + 1;
    }
    result
}

/// Counting set bits is monotone in the number of bits looked at.
proof fn lemma_groups_before_mono(index: u16, a: nat, b: nat)
    requires
        a <= b,
    ensures
        groups_before(index, a) <= groups_before(index, b),
    decreases b,
{
    if a < b {
        lemma_groups_before_mono(index, a, (b - 1) as nat);
    }
}

/// Bit `k` of a word built from `p` is `p(k)`, for the bits that were built.
proof fn lemma_bit_word_from(p: spec_fn(int) -> bool, n: nat, k: int)
    requires
        n <= 16,
        0 <= k < 16,
    ensures
        bit16(word_from(p, n), k) == (k < n && p(k)),
    decreases n,
{
    let kk = k as u16;
    if n == 0 {
        assert((0u16 & (0x8000u16 >> kk)) == 0u16) by (bit_vector);
    } else {
        lemma_bit_word_from(p, (n - 1) as nat, k);
        let a = word_from(p, (n - 1) as nat);
        let j = (n - 1) as u16;
        let m: u16 = if p(n - 1) {
            0x8000u16 >> j
        } else {
            0u16
        };
        assert(((a | m) & (0x8000u16 >> kk)) != 0u16 <==> ((a & (0x8000u16 >> kk)) != 0u16 || (m & (
        0x8000u16 >> kk)) != 0u16)) by (bit_vector);
        assert(((0x8000u16 >> j) & (0x8000u16 >> kk)) != 0u16 <==> j == kk) by (bit_vector)
            requires
                j < 16,
                kk < 16,
        ;
        assert((0u16 & (0x8000u16 >> kk)) == 0u16) by (bit_vector);
    }
}

/// A group's word has a bit set exactly when the group occurs.
proof fn lemma_group_word_nonzero(s: Seq<u8>, g: int)
    requires
        0 <= g < 16,
    ensures
        (group_word(s, g) != 0) == group_present(s, g),
        bit16(index_word(s), g) == group_present(s, g),
{
    let p = |k: int| s.contains((16 * g + k) as u8);
    lemma_bit_word_from(|h: int| group_present(s, h), 16, g);
    if group_present(s, g) {
        let j = choose|j: int| 0 <= j < s.len() && s[j] / 16 == g;
        let k = (s[j] % 16) as int;
        assert((16 * g + k) as u8 == s[j]);
        assert(p(k));
        lemma_bit_word_from(p, 16, k);
        assert((0u16 & (0x8000u16 >> (k as u16))) == 0u16) by (bit_vector);
    } else {
        assert forall|x: int| 0 <= x < 16 implies #[trigger] p(x) == false by {
            if p(x) {
                let j = choose|j: int| 0 <= j < s.len() && s[j] == (16 * g + x) as u8;
                assert(s[j] / 16 == g);
            }
        }
        lemma_word_from_ext(|k: int| false, p, 16);
        lemma_word_from_false(16);
    }
}

/// Dropping zero words distributes over concatenation.
proof fn lemma_nonzero_words_append(a: Seq<u16>, b: Seq<u16>)
    ensures
        nonzero_words(a + b) == nonzero_words(a) + nonzero_words(b),
    decreases b.len(),
{
    if b.len() == 0 {
        assert(a + b =~= a);
        assert(nonzero_words(a) + nonzero_words(b) =~= nonzero_words(a));
    } else {
        lemma_nonzero_words_append(a, b.drop_last());
        assert((a + b).drop_last() =~= a + b.drop_last());
        assert((a + b).last() == b.last());
        if b.last() != 0 {
            assert(nonzero_words(a) + nonzero_words(b) =~= (nonzero_words(a) + nonzero_words(
                b.drop_last(),
            )).push(b.last()));
        }
    }
}

/// The words of the groups `0..b`.
spec fn group_words(s: Seq<u8>, b: nat) -> Seq<u16> {
    Seq::new(b, |g: int| group_word(s, g))
}

/// Among the non-zero group words, the word of an occurring group stands after those
/// of the occurring groups before it.
proof fn lemma_group_words_index(s: Seq<u8>, b: nat)
    requires
        b <= 16,
    ensures
        nonzero_words(group_words(s, b)).len() == groups_before(index_word(s), b),
        forall|g: int|
            0 <= g < b && group_present(s, g) ==> nonzero_words(group_words(s, b))[groups_before(
                index_word(s),
                g as nat,
            ) as int] == group_word(s, g),
    decreases b,
{
    if b > 0 {
        let c = (b - 1) as nat;
        lemma_group_words_index(s, c);
        lemma_group_word_nonzero(s, c as int);
        assert(group_words(s, b).drop_last() =~= group_words(s, c));
        assert forall|g: int|
            0 <= g < b && group_present(s, g) implies nonzero_words(group_words(s, b))[groups_before(
            index_word(s),
            g as nat,
        ) as int] == group_word(s, g) by {
            if g < c {
                lemma_groups_before_mono(index_word(s), (g + 1) as nat, c);
                lemma_group_word_nonzero(s, g);
            }
        }
    }
}

/// The groups `0..b` of a symbol map list the occurring values below `16 b`.
proof fn lemma_decode_upto_present(s: Seq<u8>, b: nat)
    requires
        b <= 16,
        s.len() > 0,
    ensures
        decode_upto(sym_map_spec(s), b) == present_upto(s, 16 * b),
    decreases b,
{
    if b > 0 {
        let c = (b - 1) as nat;
        lemma_decode_upto_present(s, c);
        let map = sym_map_spec(s);
        lemma_sym_map_layout(s);
        lemma_group_word_nonzero(s, c as int);
        lemma_present_group(s, c as int, 16);
        assert((16 * c + 16) as nat == 16 * b);
        assert(map[0] == index_word(s));
        if group_present(s, c as int) {
            lemma_group_words_index(s, 16);
            lemma_groups_before_mono(index_word(s), b, 16);
            let i = groups_before(index_word(s), c) as int;
            let nz = nonzero_words(group_words(s, 16));
            assert(groups_before(index_word(s), b) == i + 1);
            assert(i < nz.len());
            assert(map[1 + i] == nz[i]);
            assert(map[1 + groups_before(map[0], c) as int] == group_word(s, c as int));
            assert(decode_upto(map, b) == decode_upto(map, c) + group_syms(
                group_word(s, c as int),
                c as int,
                16,
            ));
        } else {
            assert(group_word(s, c as int) == 0u16);
            lemma_group_syms_zero(c as int, 16);
            assert(decode_upto(map, b) == decode_upto(map, c));
            assert(present_upto(s, 16 * b) =~= present_upto(s, 16 * c));
        }
    }
}

/// A symbol map starts with its index word and lists the non-zero group words after it.
proof fn lemma_sym_map_layout(s: Seq<u8>)
    requires
        s.len() > 0,
    ensures
        sym_map_spec(s) == seq![index_word(s)] + nonzero_words(group_words(s, 16)),
        sym_map_spec(s)[0] == index_word(s),
{
    let full = full_sym_map(s);
    assert(full =~= seq![index_word(s)] + group_words(s, 16));
    lemma_nonzero_words_append(seq![index_word(s)], group_words(s, 16));
    assert(seq![index_word(s)].drop_last() =~= Seq::<u16>::empty());
    // the first symbol's group occurs, so the index word is not zero
    lemma_group_word_nonzero(s, (s[0] / 16) as int);
    assert(group_present(s, (s[0] / 16) as int));
    assert(index_word(s) != 0u16) by {
        let g = (s[0] / 16) as int;
        if index_word(s) == 0u16 {
            assert((0u16 & (0x8000u16 >> (g as u16))) == 0u16) by (bit_vector);
        }
    }
    assert(nonzero_words(seq![index_word(s)].drop_last()) =~= Seq::<u16>::empty());
    assert(nonzero_words(seq![index_word(s)]) =~= seq![index_word(s)]);
}

/// A word without bits lists no values.
proof fn lemma_group_syms_zero(g: int, n: nat)
    requires
        n <= 16,
    ensures
        group_syms(0u16, g, n) == Seq::<u8>::empty(),
    decreases n,
{
    if n > 0 {
        lemma_group_syms_zero(g, (n - 1) as nat);
        let k = (n - 1) as u16;
        assert((0u16 & (0x8000u16 >> k)) == 0u16) by (bit_vector);
        assert(group_syms(0u16, g, n) =~= Seq::<u8>::empty());
    }
}

/// The values of group `g` below `16 g + n` that occur are the ones its word lists.
proof fn lemma_present_group(s: Seq<u8>, g: int, n: nat)
    requires
        0 <= g < 16,
        n <= 16,
    ensures
        present_upto(s, (16 * g + n) as nat) == present_upto(s, (16 * g) as nat) + group_syms(
            group_word(s, g),
            g,
            n,
        ),
    decreases n,
{
    if n == 0 {
        assert(present_upto(s, (16 * g) as nat) + Seq::<u8>::empty() =~= present_upto(s, (16 * g) as nat));
    } else {
        lemma_present_group(s, g, (n - 1) as nat);
        lemma_bit_word_from(|k: int| s.contains((16 * g + k) as u8), 16, n - 1);
        assert(((16 * g + n) - 1) as u8 == (16 * g + (n - 1)) as u8);
        assert(present_upto(s, (16 * g + n) as nat) =~= present_upto(s, (16 * g) as nat)
            + group_syms(group_word(s, g), g, n));
    }
}

/// Decoding a symbol map gives back the values that were marked in it: for a
/// non-empty list of symbols, `decode_sym_map` accepts the map that `encode_sym_map`
/// makes and returns the distinct symbols, ascending.
pub proof fn lemma_sym_map_roundtrip(s: Seq<u8>)
    requires
        s.len() > 0,
    ensures
        sym_map_spec(s).len() > groups_before(sym_map_spec(s)[0], 16),
        sym_map_spec(s).len() == 1 + groups_before(sym_map_spec(s)[0], 16),
        decode_spec(sym_map_spec(s)) == present_symbols(s),
{
    lemma_sym_map_layout(s);
    lemma_group_words_index(s, 16);
    lemma_decode_upto_present(s, 16);
}

/// Two ascending sequences without repeats that hold the same bytes are equal.
proof fn lemma_ascending_same(a: Seq<u8>, b: Seq<u8>)
    requires
        forall|i: int, j: int| 0 <= i < j < a.len() ==> a[i] < a[j],
        forall|i: int, j: int| 0 <= i < j < b.len() ==> b[i] < b[j],
        forall|x: u8| a.contains(x) <==> b.contains(x),
    ensures
        a == b,
    decreases a.len(),
{
    if a.len() == 0 {
        if b.len() > 0 {
            assert(b.contains(b[0]));
        }
        assert(a =~= b);
    } else {
        assert(a.contains(a.last()));
        assert(b.len() > 0);
        assert(b.contains(b.last()));
        let ka = choose|k: int| 0 <= k < a.len() && a[k] == b.last();
        let kb = choose|k: int| 0 <= k < b.len() && b[k] == a.last();
        assert(a.last() == b.last()) by {
            if ka < a.len() - 1 {
                assert(a[ka] < a[a.len() - 1]);
            }
            if kb < b.len() - 1 {
                assert(b[kb] < b[b.len() - 1]);
            }
        }
        let a2 = a.drop_last();
        let b2 = b.drop_last();
        assert forall|x: u8| a2.contains(x) <==> b2.contains(x) by {
            if a2.contains(x) {
                let k = choose|k: int| 0 <= k < a2.len() && a2[k] == x;
                assert(a[k] == x && a[k] < a.last());
                assert(b.contains(x));
                let j = choose|j: int| 0 <= j < b.len() && b[j] == x;
                assert(j != b.len() - 1);
                assert(b2[j] == x);
            }
            if b2.contains(x) {
                let k = choose|k: int| 0 <= k < b2.len() && b2[k] == x;
                assert(b[k] == x && b[k] < b.last());
                assert(a.contains(x));
                let j = choose|j: int| 0 <= j < a.len() && a[j] == x;
                assert(j != a.len() - 1);
                assert(a2[j] == x);
            }
        }
        lemma_ascending_same(a2, b2);
        assert(a =~= a2.push(a.last()));
        assert(b =~= b2.push(b.last()));
    }
}

/// For an ascending list of symbols without repeats, decoding its symbol map gives the
/// list back.
pub proof fn lemma_sym_map_roundtrip_sorted(s: Seq<u8>)
    requires
        s.len() > 0,
        forall|i: int, j: int| 0 <= i < j < s.len() ==> s[i] < s[j],
    ensures
        decode_spec(sym_map_spec(s)) == s,
{
    lemma_sym_map_roundtrip(s);
    lemma_present_upto(s, 256);
    lemma_ascending_same(present_symbols(s), s);
}

} // verus!
