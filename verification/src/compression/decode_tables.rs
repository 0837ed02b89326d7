//! The tables that the block decoder builds before it reads the coded symbols: the
//! selectors, undone from their move-to-front coding, and the canonical Huffman code
//! levels built from the code lengths.
use vstd::prelude::*;
use vstd::arithmetic::power2::{pow2, lemma_pow2_pos, lemma_pow2_adds, lemma_pow2_strictly_increases};

verus! {

/// The list of tables after moving the one at `i` to the front.
pub open spec fn to_front(idx: Seq<usize>, i: int) -> Seq<usize> {
    seq![idx[i]] + idx.remove(i)
}

/// The table list after undoing the move-to-front coding of `raw`, starting from `idx`.
pub open spec fn mtf_list(idx: Seq<usize>, raw: Seq<u8>) -> Seq<usize>
    decreases raw.len(),
{
    if raw.len() == 0 {
        idx
    } else {
        to_front(mtf_list(idx, raw.drop_last()), raw.last() as int)
    }
}

/// The selectors coded by `raw`: each raw value is the position of its table in the
/// list, which then moves to the front.
pub open spec fn selectors_spec(idx: Seq<usize>, raw: Seq<u8>) -> Seq<usize> {
    Seq::new(raw.len(), |i: int| mtf_list(idx, raw.take(i))[raw[i] as int])
}

/// The tables `0..n` in order.
pub open spec fn table_list(n: nat) -> Seq<usize> {
    Seq::new(n, |i: int| i as usize)
}

proof fn lemma_mtf_list_len(idx: Seq<usize>, raw: Seq<u8>)
    requires
        forall|k: int| 0 <= k < raw.len() ==> (raw[k] as int) < idx.len(),
    ensures
        mtf_list(idx, raw).len() == idx.len(),
    decreases raw.len(),
{
    if raw.len() > 0 {
        lemma_mtf_list_len(idx, raw.drop_last());
    }
}

/// Undo the move-to-front coding of the selectors: each raw value picks the table at
/// that position of the list, and that table moves to the front.
pub fn selector_mtf_decode(raw: &[u8], table_count: usize) -> (selector_map: Vec<usize>)
    requires
        forall|k: int| 0 <= k < raw@.len() ==> (raw@[k] as int) < table_count,
        table_count <= 6,
    ensures
        selector_map@ == selectors_spec(table_list(table_count as nat), raw@),
{
    let ghost start = table_list(table_count as nat);
    let mut table_idx: Vec<usize> = Vec::with_capacity(table_count);
    let mut t: usize = 0;
    while t < table_count
        invariant
            t <= table_count,
            table_idx@ == table_list(t as nat),
        decreases table_count - t,
    {
        table_idx.push(t);
        proof {
            assert(table_idx@ =~= table_list((t + 1) as nat));
        }
        t = t + 1;
    }
    let mut selector_map: Vec<usize> = Vec::with_capacity(raw.len());
    let mut i: usize = 0;
    while i < raw.len()
        invariant
            i <= raw@.len(),
            start == table_list(table_count as nat),
            forall|k: int| 0 <= k < raw@.len() ==> (raw@[k] as int) < table_count,
            table_idx@ == mtf_list(start, raw@.take(i as int)),
            table_idx@.len() == table_count,
            selector_map@ == selectors_spec(start, raw@).take(i as int),
        decreases raw@.len() - i,
    {
        let mut idx = raw[i] as usize;
        let temp_sym = table_idx[idx];
        selector_map.push(temp_sym);
        let ghost before = table_idx@;
        // shift the tables in front of it back by one
        while idx > 0
            invariant
                idx < before.len(),
                table_idx@.len() == before.len(),
                forall|k: int| 0 <= k <= idx ==> table_idx@[k] == before[k],
                forall|k: int| idx < k <= raw@[i as int] ==> table_idx@[k] == before[k - 1],
                forall|k: int| raw@[i as int] < k < before.len() ==> table_idx@[k] == before[k],
                raw@[i as int] < before.len(),
                idx <= raw@[i as int],
                i < raw@.len(),
            decreases idx,
        {
            let prev = table_idx[idx - 1];
            table_idx.set(idx, prev);
            idx = idx - 1;
        }
        table_idx.set(0, temp_sym);
        proof {
            let r = raw@[i as int] as int;
            assert(raw@.take(i + 1).drop_last() =~= raw@.take(i as int));
            assert(table_idx@ =~= to_front(before, r));
            assert(selector_map@ =~= selectors_spec(start, raw@).take(i + 1));
        }
        i = i + 1;
    }
    proof {
        assert(raw@.take(raw@.len() as int) =~= raw@);
        assert(selector_map@ =~= selectors_spec(start, raw@));
    }
    selector_map
}

/// One level of a canonical Huffman code: how many more bits to read to reach this
/// level's code length, where its symbols start in the symbol list, and the range of
/// codes of that length.
#[derive(Debug, Clone, Copy, PartialEq, Eq)]
pub struct Level {
    pub bits: u32,
    pub offset: u32,
    pub start_code: u32,
    pub end_code: u32,
}

impl Level {
    /// An empty level.
    pub fn new() -> (l: Self)
        ensures
            l == (Level { bits: 0, offset: 0, start_code: 0, end_code: 0 }),
    {
        Level { bits: 0, offset: 0, start_code: 0, end_code: 0 }
    }
}

/// The state of the level builder: the levels so far, the current code length, the
/// bits to reach it, the first code of this length, the entries counted at this length
/// and the entries before this length.
pub struct LevelState {
    pub levels: Seq<Level>,
    pub cur_len: int,
    pub bits: int,
    pub code: int,
    pub count: int,
    pub last: int,
}

/// The level builder after one more entry of length `len`.
pub open spec fn level_step(st: LevelState, len: int) -> LevelState {
    let count = st.count + 1;
    if len == st.cur_len {
        LevelState { count, ..st }
    } else {
        let level = Level {
            bits: st.bits as u32,
            offset: st.last as u32,
            start_code: st.code as u32,
            end_code: (st.code + count - 1) as u32,
        };
        LevelState {
            levels: st.levels.push(level),
            cur_len: len,
            bits: len - st.cur_len,
            code: (st.code + count - 1) * pow2((len - st.cur_len) as nat),
            count: 1,
            last: st.last + count - 1,
        }
    }
}

/// The level builder after the entries `map`.
pub open spec fn level_fold(first_len: int, map: Seq<(u16, u32)>) -> LevelState
    decreases map.len(),
{
    if map.len() == 0 {
        LevelState { levels: Seq::empty(), cur_len: first_len, bits: first_len, code: 0, count: 0, last: 0 }
    } else {
        level_step(level_fold(first_len, map.drop_last()), map.last().1 as int)
    }
}

/// The levels of the canonical code whose lengths are listed, ascending, in `map`.
pub open spec fn levels_spec(map: Seq<(u16, u32)>) -> Seq<Level> {
    let st = level_fold(map[0].1 as int, map);
    st.levels.push(
        Level {
            bits: st.bits as u32,
            offset: st.last as u32,
            start_code: st.code as u32,
            end_code: (st.code + st.count) as u32,
        },
    )
}

/// Powers of two grow with the exponent.
proof fn lemma_pow2_le(a: nat, b: nat)
    requires
        a <= b,
    ensures
        pow2(a) <= pow2(b),
{
    if a < b {
        lemma_pow2_strictly_increases(a, b);
    }
}

/// The code lengths are ascending, at most 20, and there are at most 300 of them.
pub open spec fn lengths_ok(map: Seq<(u16, u32)>) -> bool {
    &&& 0 < map.len() <= 300
    &&& forall|i: int| 0 <= i < map.len() ==> map[i].1 <= 20
    &&& forall|i: int, j: int| 0 <= i <= j < map.len() ==> map[i].1 <= map[j].1
}

/// The builder's numbers stay small: the codes of a length are fewer than the entries
/// seen, scaled to that length.
proof fn lemma_level_fold_bounds(first_len: int, map: Seq<(u16, u32)>)
    requires
        map.len() > 0 ==> lengths_ok(map),
        map.len() > 0 ==> first_len == map[0].1,
        0 <= first_len <= 20,
    ensures
        ({
            let st = level_fold(first_len, map);
            &&& st.cur_len == (if map.len() > 0 {
                map.last().1 as int
            } else {
                first_len
            })
            &&& 0 <= st.bits <= 20
            &&& 0 <= st.count <= map.len()
            &&& 0 <= st.last + st.count <= map.len()
            &&& 0 <= st.last
            &&& 0 <= st.code <= (st.last as nat) * pow2(st.cur_len as nat)
            &&& st.levels.len() <= map.len()
        }),
    decreases map.len(),
{
    if map.len() > 0 {
        let prev = map.drop_last();
        if prev.len() > 0 {
            assert(lengths_ok(prev));
            assert(prev[0] == map[0]);
        }
        lemma_level_fold_bounds(first_len, prev);
        let st = level_fold(first_len, prev);
        let len = map.last().1 as int;
        lemma_pow2_pos(st.cur_len as nat);
        if len != st.cur_len {
            if prev.len() > 0 {
                assert(prev.last() == map[map.len() - 2]);
                assert(st.cur_len <= len);
            }
            let d = (len - st.cur_len) as nat;
            lemma_pow2_adds(st.cur_len as nat, d);
            lemma_pow2_pos(d);
            let k = st.last as nat;
            let c = st.count + 1;
            let p = pow2(st.cur_len as nat) as int;
            assert(st.code + c - 1 <= (k + c - 1) * p) by (nonlinear_arith)
                requires
                    st.code <= k * p,
                    p >= 1,
                    c >= 1,
            ;
            assert((st.code + c - 1) * pow2(d) <= (k + c - 1) * p * pow2(d)) by (nonlinear_arith)
                requires
                    st.code + c - 1 <= (k + c - 1) * p,
                    pow2(d) >= 1,
                    st.code + c - 1 >= 0,
            ;
            assert((k + c - 1) * p * pow2(d) == (k + c - 1) * pow2(len as nat)) by (nonlinear_arith)
                requires
                    p * pow2(d) == pow2(len as nat),
            ;
            assert(0 <= (st.code + c - 1) * pow2(d)) by (nonlinear_arith)
                requires
                    st.code + c - 1 >= 0,
            ;
        }
    }
}

/// Decode a vec of symbols and lengths into the level structure needed to efficiently
/// decode the bit stream.
pub fn huf_decode_map(map: &[(u16, u32)]) -> (result: Vec<Level>)
    requires
        lengths_ok(map@),
    ensures
        result@ == levels_spec(map@),
{
    let ghost m = map@;
    let mut result: Vec<Level> = Vec::new();
    let mut current_bit_length = map[0].1;
    let mut bits_to_add = current_bit_length;
    let mut current_code: u32 = 0;
    let mut count: u32 = 0;
    let mut last_count: u32 = count;
    let mut i: usize = 0;
    proof {
        vstd::arithmetic::power2::lemma2_to64();
        vstd::arithmetic::power2::lemma_pow2_strictly_increases(20, 29);
    }
    while i < map.len()
        invariant
            m == map@,
            lengths_ok(m),
            0 <= i <= m.len(),
            ({
                let st = level_fold(m[0].1 as int, m.take(i as int));
                &&& result@ == st.levels
                &&& current_bit_length == st.cur_len
                &&& bits_to_add == st.bits
                &&& current_code == st.code
                &&& count == st.count
                &&& last_count == st.last
            }),
            pow2(29) == 0x2000_0000,
            pow2(20) < pow2(29),
        decreases m.len() - i,
    {
        let ghost before = m.take(i as int);
        proof {
            assert(m.take(i + 1).drop_last() =~= before);
            if i > 0 {
                assert(before[0] == m[0]);
            }
            lemma_level_fold_bounds(m[0].1 as int, m.take(i + 1));
            lemma_level_fold_bounds(m[0].1 as int, before);
            assert(m.take(i + 1).last() == m[i as int]);
        }
        let bit_length = map[i].1;
        count = count + 1;
        if bit_length == current_bit_length {
        } else {
            let ghost st = level_fold(m[0].1 as int, before);
            proof {
                vstd::arithmetic::power2::lemma2_to64();
                if i > 0 {
                    assert(before.last() == m[i - 1]);
                }
                lemma_pow2_pos(current_bit_length as nat);
                lemma_pow2_le(current_bit_length as nat, 20);
                assert((st.last as nat) * pow2(current_bit_length as nat) <= 300 * pow2(20)) by (nonlinear_arith)
                    requires
                        st.last <= 300,
                        st.last >= 0,
                        pow2(current_bit_length as nat) <= pow2(20),
                ;
            }
            let level = Level {
                bits: bits_to_add,
                offset: last_count,
                start_code: current_code,
                end_code: current_code + count - 1,
            };
            result.push(level);
            bits_to_add = bit_length - current_bit_length;
            proof {
                vstd::arithmetic::power2::lemma_pow2_adds(current_bit_length as nat, bits_to_add as nat);
                lemma_pow2_le(bit_length as nat, 20);
                lemma_pow2_pos(bits_to_add as nat);
                let nxt = (current_code + count - 1) as int;
                assert(nxt * pow2(bits_to_add as nat) <= (st.last + st.count) as nat * pow2(bit_length as nat)) by (nonlinear_arith)
                    requires
                        nxt <= (st.last as nat) * pow2(current_bit_length as nat) + st.count,
                        pow2(current_bit_length as nat) >= 1,
                        pow2(current_bit_length as nat) * pow2(bits_to_add as nat) == pow2(bit_length as nat),
                        nxt >= 0,
                        st.count >= 0,
                        st.last >= 0,
                ;
                assert((st.last + st.count) as nat * pow2(bit_length as nat) <= 300 * pow2(20)) by (nonlinear_arith)
                    requires
                        st.last + st.count <= 300,
                        st.last + st.count >= 0,
                        pow2(bit_length as nat) <= pow2(20),
                ;
                vstd::bits::lemma_u32_shl_is_mul((current_code + count - 1) as u32, bits_to_add);
            }
            current_code = (current_code + count - 1) << bits_to_add;
            last_count = last_count + count - 1;
            count = 1;
            current_bit_length = bit_length;
        }
        proof {
            assert(m.take(i + 1) =~= before.push(m[i as int]));
        }
        i = i + 1;
    }
    proof {
        assert(m.take(m.len() as int) =~= m);
        lemma_level_fold_bounds(m[0].1 as int, m);
        lemma_pow2_pos(current_bit_length as nat);
        lemma_pow2_le(current_bit_length as nat, 20);
        assert((last_count as nat) * pow2(current_bit_length as nat) <= 300 * pow2(20)) by (nonlinear_arith)
            requires
                last_count <= 300,
                pow2(current_bit_length as nat) <= pow2(20),
        ;
    }
    let level = Level {
        bits: bits_to_add,
        offset: last_count,
        start_code: current_code,
        end_code: current_code + count,
    };
    result.push(level);
    result
}

} // verus!
