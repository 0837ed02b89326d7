//! Canonical Huffman codes from code lengths, and the move-to-front coding of the
//! table selectors.
use vstd::prelude::*;
use vstd::arithmetic::power2::{pow2, lemma_pow2_pos, lemma_pow2_adds, lemma_pow2_strictly_increases};
use crate::compression::decode_tables::{mtf_list, selectors_spec, table_list, to_front};

verus! {

/// The symbols `0..n` whose length is `len`, ascending.
pub open spec fn with_len(lens: Seq<u32>, len: int, n: int) -> Seq<u16>
    decreases n,
{
    if n <= 0 {
        Seq::empty()
    } else {
        with_len(lens, len, n - 1) + if lens[n - 1] as int == len {
            seq![(n - 1) as u16]
        } else {
            Seq::empty()
        }
    }
}

/// The symbols `0..n` ordered by length (lengths `1..=maxlen`), then by symbol.
pub open spec fn canon_order(lens: Seq<u32>, n: int, maxlen: int) -> Seq<u16>
    decreases maxlen,
{
    if maxlen <= 0 {
        Seq::empty()
    } else {
        canon_order(lens, n, maxlen - 1) + with_len(lens, maxlen, n)
    }
}

/// The canonical codes along `order`: the first code is 0, and each next code is one
/// more than the last, shifted left by the growth in length. Returns the codes by
/// symbol, the last length and the next code.
pub open spec fn canon_fold(lens: Seq<u32>, order: Seq<u16>, first_len: int) -> (Map<int, int>, int, int)
    decreases order.len(),
{
    if order.len() == 0 {
        (Map::empty(), first_len, 0)
    } else {
        let (codes, cur, next) = canon_fold(lens, order.drop_last(), first_len);
        let s = order.last() as int;
        let len = lens[s] as int;
        let code = if len != cur {
            next * pow2((len - cur) as nat)
        } else {
            next
        };
        (codes.insert(s, code), len, code + 1)
    }
}

/// The canonical code of every symbol `0..n` whose lengths are all in `1..=17`.
pub open spec fn canon_codes(lens: Seq<u32>, n: int) -> Map<int, int> {
    canon_fold(lens, canon_order(lens, n, 17), 0).0
}

/// Every symbol `0..n` has a length in `1..=17`.
pub open spec fn lengths_in_range(lens: Seq<u32>, n: int) -> bool {
    forall|s: int| 0 <= s < n ==> 1 <= #[trigger] lens[s] <= 17
}

/// Each symbol gets a code that fits its length.
pub open spec fn codes_fit(lens: Seq<u32>, codes: Seq<u32>, n: int) -> bool {
    forall|s: int| 0 <= s < n ==> (#[trigger] codes[s] as nat) < pow2(lens[s] as nat)
}

/// Why no codes came out.
#[derive(Debug, Clone, Copy, PartialEq, Eq)]
pub enum CodeError {
    /// A symbol's code length is not in `1..=17`.
    BadLength,
    /// A code does not fit in its length.
    Overfull,
}

proof fn lemma_with_len_syms(lens: Seq<u32>, len: int, n: int)
    requires
        0 <= n <= 0x10000,
    ensures
        forall|k: int| 0 <= k < with_len(lens, len, n).len() ==> (with_len(lens, len, n)[k] as int) < n
            && lens[with_len(lens, len, n)[k] as int] as int == len,
        with_len(lens, len, n).len() <= n,
    decreases n,
{
    if n > 0 {
        lemma_with_len_syms(lens, len, n - 1);
    }
}

proof fn lemma_canon_order_syms(lens: Seq<u32>, n: int, maxlen: int)
    requires
        0 <= n <= 0x10000,
        0 <= maxlen,
    ensures
        forall|k: int| 0 <= k < canon_order(lens, n, maxlen).len() ==> (canon_order(lens, n, maxlen)[k] as int) < n,
        forall|k: int| 0 <= k < canon_order(lens, n, maxlen).len() ==> 1 <= lens[#[trigger] canon_order(lens, n, maxlen)[k] as int] <= maxlen,
        forall|j: int, k: int| 0 <= j <= k < canon_order(lens, n, maxlen).len() ==> lens[#[trigger] canon_order(lens, n, maxlen)[j] as int] <= lens[#[trigger] canon_order(lens, n, maxlen)[k] as int],
        canon_order(lens, n, maxlen).len() <= maxlen * n,
    decreases maxlen,
{
    if maxlen > 0 {
        lemma_canon_order_syms(lens, n, maxlen - 1);
        lemma_with_len_syms(lens, maxlen, n);
        let a = canon_order(lens, n, maxlen - 1);
        let b = with_len(lens, maxlen, n);
        assert forall|k: int| 0 <= k < (a + b).len() implies ((a + b)[k] as int) < n && 1 <= lens[(a + b)[k] as int] <= maxlen by {
            if k >= a.len() {
                assert((a + b)[k] == b[k - a.len()]);
            }
        }
        assert forall|j: int, k: int| 0 <= j <= k < (a + b).len() implies lens[(a + b)[j] as int] <= lens[(a + b)[k] as int] by {
            if k >= a.len() {
                assert((a + b)[k] == b[k - a.len()]);
            }
            if j >= a.len() {
                assert((a + b)[j] == b[j - a.len()]);
            }
        }
        assert((maxlen - 1) * n + n == maxlen * n) by (nonlinear_arith);
    }
}

/// The move-to-front coding of the selectors: each selector becomes the position of its
/// table in the list, which then moves to the front.
pub open spec fn sel_list(l: Seq<usize>, sels: Seq<usize>) -> Seq<usize>
    decreases sels.len(),
{
    if sels.len() == 0 {
        l
    } else {
        let prev = sel_list(l, sels.drop_last());
        to_front(prev, position_of(prev, sels.last()))
    }
}

/// Where `v` stands in `l`.
pub open spec fn position_of(l: Seq<usize>, v: usize) -> int {
    choose|k: int| 0 <= k < l.len() && l[k] == v
}

/// The coded selectors.
pub open spec fn sel_mtf_spec(sels: Seq<usize>) -> Seq<usize> {
    Seq::new(sels.len(), |i: int| position_of(sel_list(six(), sels.take(i)), sels[i]) as usize)
}

/// The tables `0..6` in order.
pub open spec fn six() -> Seq<usize> {
    seq![0usize, 1, 2, 3, 4, 5]
}

/// A list of the six tables, each once.
pub open spec fn perm6(l: Seq<usize>) -> bool {
    &&& l.len() == 6
    &&& l.no_duplicates()
    &&& forall|v: usize| v < 6 ==> l.contains(v)
    &&& forall|k: int| 0 <= k < 6 ==> l[k] < 6
}

proof fn lemma_to_front_perm(l: Seq<usize>, i: int)
    requires
        perm6(l),
        0 <= i < 6,
    ensures
        perm6(to_front(l, i)),
{
    let t = to_front(l, i);
    assert(t.len() == 6);
    assert forall|a: int, b: int| 0 <= a < b < 6 implies t[a] != t[b] by {
        let ra = if a == 0 { i } else if a - 1 < i { a - 1 } else { a };
        let rb = if b == 0 { i } else if b - 1 < i { b - 1 } else { b };
        assert(t[a] == l[ra]);
        assert(t[b] == l[rb]);
    }
    assert forall|v: usize| v < 6 implies t.contains(v) by {
        assert(l.contains(v));
        let k = choose|k: int| 0 <= k < l.len() && l[k] == v;
        if k == i {
            assert(t[0] == v);
        } else if k < i {
            assert(t[k + 1] == v);
        } else {
            assert(t[k] == v);
        }
    }
    assert forall|k: int| 0 <= k < 6 implies t[k] < 6 by {
        let rk = if k == 0 { i } else if k - 1 < i { k - 1 } else { k };
        assert(t[k] == l[rk]);
    }
}

proof fn lemma_sel_list(sels: Seq<usize>)
    requires
        forall|k: int| 0 <= k < sels.len() ==> sels[k] < 6,
    ensures
        perm6(sel_list(six(), sels)),
    decreases sels.len(),
{
    if sels.len() == 0 {
        assert(six().no_duplicates());
        assert forall|v: usize| v < 6 implies six().contains(v) by {
            assert(six()[v as int] == v);
        }
    } else {
        lemma_sel_list(sels.drop_last());
        let prev = sel_list(six(), sels.drop_last());
        let v = sels.last();
        assert(prev.contains(v));
        let p = position_of(prev, v);
        lemma_to_front_perm(prev, p);
    }
}

/// With every selector below `tc`, the tables below `tc` stay in the first `tc` places
/// of the list, and the others stay where they started.
proof fn lemma_sel_list_split(sels: Seq<usize>, tc: int)
    requires
        1 <= tc <= 6,
        forall|k: int| 0 <= k < sels.len() ==> sels[k] < tc,
    ensures
        perm6(sel_list(six(), sels)),
        forall|k: int| 0 <= k < 6 ==> (#[trigger] sel_list(six(), sels)[k] < tc <==> k < tc),
        forall|k: int| tc <= k < 6 ==> #[trigger] sel_list(six(), sels)[k] == k,
    decreases sels.len(),
{
    lemma_sel_list(sels);
    if sels.len() > 0 {
        lemma_sel_list_split(sels.drop_last(), tc);
        let prev = sel_list(six(), sels.drop_last());
        let v = sels.last();
        assert(prev.contains(v));
        let p = position_of(prev, v);
        assert(0 <= p < 6 && prev[p] == v);
        assert(p < tc);
        let t = to_front(prev, p);
        assert(sel_list(six(), sels) == t);
        assert forall|k: int| 0 <= k < 6 implies (#[trigger] t[k] < tc <==> k < tc) by {
            if k > 0 {
                if k - 1 < p {
                    assert(t[k] == prev[k - 1]);
                } else {
                    assert(t[k] == prev[k]);
                }
            }
        }
        assert forall|k: int| tc <= k < 6 implies #[trigger] t[k] == k by {
            assert(t[k] == prev[k]);
        }
    } else {
        assert(sel_list(six(), sels) == six());
    }
}

/// The coded selectors as the decoder reads them, one byte each.
pub open spec fn sel_bytes(ms: Seq<usize>) -> Seq<u8> {
    Seq::new(ms.len(), |i: int| ms[i] as u8)
}

/// The decoder's list of the `tc` tables in use, after the first `i` coded selectors, is
/// the first `tc` places of the encoder's list.
proof fn lemma_mtf_lists_agree(sels: Seq<usize>, tc: int, i: int)
    requires
        1 <= tc <= 6,
        forall|k: int| 0 <= k < sels.len() ==> sels[k] < tc,
        0 <= i <= sels.len(),
    ensures
        mtf_list(table_list(tc as nat), sel_bytes(sel_mtf_spec(sels)).take(i)) == sel_list(six(), sels.take(i)).take(tc),
    decreases i,
{
    let raw = sel_bytes(sel_mtf_spec(sels));
    if i == 0 {
        assert(raw.take(0) =~= Seq::<u8>::empty());
        assert(sels.take(0) =~= Seq::<usize>::empty());
        assert(table_list(tc as nat) =~= six().take(tc));
    } else {
        lemma_mtf_lists_agree(sels, tc, i - 1);
        let prefix = sels.take(i - 1);
        assert(sels.take(i).drop_last() =~= prefix);
        assert(raw.take(i).drop_last() =~= raw.take(i - 1));
        lemma_sel_list_split(prefix, tc);
        let l6 = sel_list(six(), prefix);
        let v = sels[i - 1];
        assert(l6.contains(v));
        let p = position_of(l6, v);
        assert(0 <= p < 6 && l6[p] == v);
        assert(p < tc);
        assert(sel_mtf_spec(sels)[i - 1] == p as usize);
        assert(raw.take(i).last() as int == p);
        assert(to_front(l6, p).take(tc) =~= to_front(l6.take(tc), p));
    }
}

/// Undoing the move-to-front coding of the selectors with the list of the `tc` tables in
/// use, as the decoder does, gives back the selectors.
pub proof fn lemma_selector_mtf_roundtrip(sels: Seq<usize>, tc: int)
    requires
        1 <= tc <= 6,
        forall|k: int| 0 <= k < sels.len() ==> sels[k] < tc,
    ensures
        selectors_spec(table_list(tc as nat), sel_bytes(sel_mtf_spec(sels))) == sels,
        forall|k: int| 0 <= k < sels.len() ==> (#[trigger] sel_mtf_spec(sels)[k] as int) < tc,
{
    let raw = sel_bytes(sel_mtf_spec(sels));
    assert forall|i: int| 0 <= i < sels.len() implies #[trigger] selectors_spec(table_list(tc as nat), raw)[i] == sels[i]
        && (sel_mtf_spec(sels)[i] as int) < tc by {
        lemma_mtf_lists_agree(sels, tc, i);
        let prefix = sels.take(i);
        lemma_sel_list_split(prefix, tc);
        let l6 = sel_list(six(), prefix);
        assert(l6.contains(sels[i]));
        let p = position_of(l6, sels[i]);
        assert(0 <= p < 6 && l6[p] == sels[i]);
        assert(p < tc);
        assert(raw[i] as int == p);
    }
    assert(selectors_spec(table_list(tc as nat), raw) =~= sels);
}

/// The move-to-front transform of the selectors.
pub fn selector_mtf_encode(selectors: &Vec<usize>) -> (mtf_selectors: Vec<usize>)
    requires
        forall|k: int| 0 <= k < selectors@.len() ==> selectors@[k] < 6,
    ensures
        mtf_selectors@ == sel_mtf_spec(selectors@),
        forall|k: int| 0 <= k < mtf_selectors@.len() ==> mtf_selectors@[k] < 6,
{
    let mut table_idx: Vec<usize> = vec![0, 1, 2, 3, 4, 5];
    let mut mtf_selectors: Vec<usize> = Vec::with_capacity(selectors.len());
    let mut i: usize = 0;
    proof {
        assert(table_idx@ =~= six());
    }
    while i < selectors.len()
        invariant
            i <= selectors@.len(),
            forall|k: int| 0 <= k < selectors@.len() ==> selectors@[k] < 6,
            table_idx@ == sel_list(six(), selectors@.take(i as int)),
            mtf_selectors@ == sel_mtf_spec(selectors@).take(i as int),
            forall|k: int| 0 <= k < mtf_selectors@.len() ==> mtf_selectors@[k] < 6,
        decreases selectors@.len() - i,
    {
        let ghost prev = table_idx@;
        let v = selectors[i];
        proof {
            lemma_sel_list(selectors@.take(i as int));
            assert(prev.contains(v));
        }
        // Get the index of the next selector
        let mut idx: usize = 0;
        while table_idx[idx] != v
            invariant
                table_idx@ == prev,
                perm6(prev),
                prev.contains(v),
                idx < 6,
                forall|k: int| 0 <= k < idx ==> prev[k] != v,
            decreases 6 - idx,
        {
            idx = idx + 1;
            proof {
                if idx == 6 {
                    let k = choose|k: int| 0 <= k < 6 && prev[k] == v;
                    assert(false);
                }
            }
        }
        proof {
            let p = position_of(prev, v);
            assert(prev[p] == v);
            if p != idx {
                assert(prev[idx as int] == v);
            }
        }
        mtf_selectors.push(idx);
        // move it to the front
        let temp_sel = table_idx[idx];
        let ghost r = idx as int;
        while idx > 0
            invariant
                idx <= r,
                r < 6,
                table_idx@.len() == 6,
                forall|k: int| 0 <= k <= idx ==> table_idx@[k] == prev[k],
                forall|k: int| idx < k <= r ==> table_idx@[k] == prev[k - 1],
                forall|k: int| r < k < 6 ==> table_idx@[k] == prev[k],
                prev.len() == 6,
            decreases idx,
        {
            let x = table_idx[idx - 1];
            table_idx.set(idx, x);
            idx = idx - 1;
        }
        table_idx.set(0, temp_sel);
        proof {
            assert(selectors@.take(i + 1).drop_last() =~= selectors@.take(i as int));
            assert(table_idx@ =~= to_front(prev, r));
            assert(mtf_selectors@ =~= sel_mtf_spec(selectors@).take(i + 1));
        }
        i = i + 1;
    }
    proof {
        assert(selectors@.take(selectors@.len() as int) =~= selectors@);
    }
    mtf_selectors
}

proof fn lemma_with_len_contains(lens: Seq<u32>, len: int, n: int, s: int)
    requires
        0 <= s < n <= 0x10000,
        lens[s] as int == len,
    ensures
        with_len(lens, len, n).contains(s as u16),
    decreases n,
{
    if s < n - 1 {
        lemma_with_len_contains(lens, len, n - 1, s);
        let a = with_len(lens, len, n - 1);
        let k = choose|k: int| 0 <= k < a.len() && a[k] == s as u16;
        assert(with_len(lens, len, n)[k] == s as u16);
    } else {
        let a = with_len(lens, len, n - 1);
        assert(with_len(lens, len, n)[a.len() as int] == s as u16);
    }
}

proof fn lemma_canon_order_contains(lens: Seq<u32>, n: int, maxlen: int, s: int)
    requires
        0 <= s < n <= 0x10000,
        1 <= lens[s] <= maxlen,
    ensures
        canon_order(lens, n, maxlen).contains(s as u16),
    decreases maxlen,
{
    let a = canon_order(lens, n, maxlen - 1);
    let b = with_len(lens, maxlen, n);
    if lens[s] == maxlen {
        lemma_with_len_contains(lens, maxlen, n, s);
        let k = choose|k: int| 0 <= k < b.len() && b[k] == s as u16;
        assert((a + b)[a.len() + k] == s as u16);
    } else {
        lemma_canon_order_contains(lens, n, maxlen - 1, s);
        let k = choose|k: int| 0 <= k < a.len() && a[k] == s as u16;
        assert((a + b)[k] == s as u16);
    }
}

proof fn lemma_canon_fold_keys(lens: Seq<u32>, order: Seq<u16>, fl: int, s: int)
    ensures
        canon_fold(lens, order, fl).0.contains_key(s) <==> order.contains(s as u16) && 0 <= s < 0x10000,
    decreases order.len(),
{
    if order.len() > 0 {
        lemma_canon_fold_keys(lens, order.drop_last(), fl, s);
        if order.drop_last().contains(s as u16) {
            let k = choose|k: int| 0 <= k < order.drop_last().len() && order.drop_last()[k] == s as u16;
            assert(order[k] == s as u16);
        }
        if order.contains(s as u16) {
            let k = choose|k: int| 0 <= k < order.len() && order[k] == s as u16;
            if k < order.len() - 1 {
                assert(order.drop_last()[k] == s as u16);
            }
        }
    }
}

/// The Kraft sum of the lengths of the symbols `0..n`, scaled by `2^17`: each length `l`
/// counts `2^(17 - l)`.
pub open spec fn kraft(lens: Seq<u32>, n: int) -> int
    decreases n,
{
    if n <= 0 {
        0
    } else {
        kraft(lens, n - 1) + pow2((17 - lens[n - 1]) as nat)
    }
}

/// The Kraft sum of the symbols along `order`.
pub open spec fn kraft_seq(lens: Seq<u32>, order: Seq<u16>) -> int
    decreases order.len(),
{
    if order.len() == 0 {
        0
    } else {
        kraft_seq(lens, order.drop_last()) + pow2((17 - lens[order.last() as int]) as nat)
    }
}

/// The Kraft sum of the symbols `0..n` whose length is `1..=m`.
spec fn kraft_le(lens: Seq<u32>, n: int, m: int) -> int
    decreases n,
{
    if n <= 0 {
        0
    } else {
        kraft_le(lens, n - 1, m) + if 1 <= lens[n - 1] <= m {
            pow2((17 - lens[n - 1]) as nat)
        } else {
            0
        }
    }
}

/// The Kraft sum of the symbols `0..n` whose length is `m`.
spec fn kraft_eq(lens: Seq<u32>, n: int, m: int) -> int
    decreases n,
{
    if n <= 0 {
        0
    } else {
        kraft_eq(lens, n - 1, m) + if lens[n - 1] as int == m {
            pow2((17 - m) as nat)
        } else {
            0
        }
    }
}

proof fn lemma_kraft_seq_add(lens: Seq<u32>, a: Seq<u16>, b: Seq<u16>)
    ensures
        kraft_seq(lens, a + b) == kraft_seq(lens, a) + kraft_seq(lens, b),
    decreases b.len(),
{
    if b.len() == 0 {
        assert(a + b =~= a);
    } else {
        lemma_kraft_seq_add(lens, a, b.drop_last());
        assert((a + b).drop_last() =~= a + b.drop_last());
        assert((a + b).last() == b.last());
    }
}

proof fn lemma_kraft_seq_nonneg(lens: Seq<u32>, a: Seq<u16>)
    ensures
        kraft_seq(lens, a) >= 0,
    decreases a.len(),
{
    if a.len() > 0 {
        lemma_kraft_seq_nonneg(lens, a.drop_last());
        lemma_pow2_pos((17 - lens[a.last() as int]) as nat);
    }
}

proof fn lemma_kraft_with_len(lens: Seq<u32>, m: int, n: int)
    requires
        0 <= n <= 0x10000,
    ensures
        kraft_seq(lens, with_len(lens, m, n)) == kraft_eq(lens, n, m),
    decreases n,
{
    if n > 0 {
        lemma_kraft_with_len(lens, m, n - 1);
        let a = with_len(lens, m, n - 1);
        let x = (n - 1) as u16;
        assert(x as int == n - 1);
        if lens[n - 1] as int == m {
            assert(with_len(lens, m, n) == a + seq![x]);
            lemma_kraft_seq_add(lens, a, seq![x]);
            assert(seq![x].drop_last() =~= Seq::<u16>::empty());
            assert(seq![x].last() == x);
            assert(kraft_seq(lens, Seq::<u16>::empty()) == 0);
            assert(kraft_seq(lens, seq![x]) == kraft_seq(lens, seq![x].drop_last()) + pow2(
                (17 - lens[x as int]) as nat,
            ));
            assert(lens[x as int] == lens[n - 1]);
            assert(kraft_seq(lens, seq![x]) == pow2((17 - m) as nat));
        } else {
            assert(with_len(lens, m, n) =~= a);
        }
    }
}

proof fn lemma_kraft_le_step(lens: Seq<u32>, n: int, m: int)
    requires
        1 <= m,
    ensures
        kraft_le(lens, n, m) == kraft_le(lens, n, m - 1) + kraft_eq(lens, n, m),
    decreases n,
{
    if n > 0 {
        lemma_kraft_le_step(lens, n - 1, m);
    }
}

proof fn lemma_kraft_canon_order(lens: Seq<u32>, n: int, m: int)
    requires
        0 <= n <= 0x10000,
        0 <= m,
    ensures
        kraft_seq(lens, canon_order(lens, n, m)) == kraft_le(lens, n, m),
    decreases m,
{
    if m == 0 {
        lemma_kraft_le_zero(lens, n);
    } else {
        lemma_kraft_canon_order(lens, n, m - 1);
        lemma_kraft_seq_add(lens, canon_order(lens, n, m - 1), with_len(lens, m, n));
        lemma_kraft_with_len(lens, m, n);
        lemma_kraft_le_step(lens, n, m);
    }
}

proof fn lemma_kraft_le_zero(lens: Seq<u32>, n: int)
    ensures
        kraft_le(lens, n, 0) == 0,
    decreases n,
{
    if n > 0 {
        lemma_kraft_le_zero(lens, n - 1);
    }
}

proof fn lemma_kraft_le_all(lens: Seq<u32>, n: int)
    requires
        lengths_in_range(lens, n),
    ensures
        kraft_le(lens, n, 17) == kraft(lens, n),
    decreases n,
{
    if n > 0 {
        lemma_kraft_le_all(lens, n - 1);
        assert(1 <= lens[n - 1] <= 17);
    }
}

/// A longer prefix of an order has at least the Kraft sum of a shorter one.
proof fn lemma_kraft_prefix(lens: Seq<u32>, order: Seq<u16>, k: int)
    requires
        0 <= k <= order.len(),
    ensures
        kraft_seq(lens, order.take(k)) <= kraft_seq(lens, order),
{
    lemma_kraft_seq_add(lens, order.take(k), order.skip(k));
    assert(order.take(k) + order.skip(k) =~= order);
    lemma_kraft_seq_nonneg(lens, order.skip(k));
}

/// The symbols of length `len` below `m` come first among those below `n`; the rest are
/// at least `m`.
proof fn lemma_with_len_prefix(lens: Seq<u32>, len: int, m: int, n: int)
    requires
        0 <= m <= n <= 0x10000,
    ensures
        with_len(lens, len, m).len() <= with_len(lens, len, n).len(),
        with_len(lens, len, n).take(with_len(lens, len, m).len() as int) == with_len(lens, len, m),
        forall|j: int|
            with_len(lens, len, m).len() <= j < with_len(lens, len, n).len() ==> (#[trigger] with_len(
                lens,
                len,
                n,
            )[j] as int) >= m,
    decreases n - m,
{
    if n > m {
        lemma_with_len_prefix(lens, len, m, n - 1);
        let a = with_len(lens, len, n - 1);
        let b = with_len(lens, len, n);
        assert(b.take(a.len() as int) =~= a);
        assert(b.take(with_len(lens, len, m).len() as int) =~= a.take(with_len(lens, len, m).len() as int));
        assert forall|j: int| with_len(lens, len, m).len() <= j < b.len() implies (#[trigger] b[j] as int) >= m by {
            if j < a.len() {
                assert(b[j] == a[j]);
            }
        }
    } else {
        assert(with_len(lens, len, n).take(with_len(lens, len, m).len() as int) =~= with_len(lens, len, m));
    }
}

/// The order over lengths up to `m` starts the order over lengths up to `m2`; the rest
/// have lengths above `m`.
proof fn lemma_canon_order_prefix(lens: Seq<u32>, n: int, m: int, m2: int)
    requires
        0 <= m <= m2,
        0 <= n <= 0x10000,
    ensures
        canon_order(lens, n, m).len() <= canon_order(lens, n, m2).len(),
        canon_order(lens, n, m2).take(canon_order(lens, n, m).len() as int) == canon_order(lens, n, m),
        forall|j: int|
            canon_order(lens, n, m).len() <= j < canon_order(lens, n, m2).len() ==> lens[#[trigger] canon_order(
                lens,
                n,
                m2,
            )[j] as int] > m,
    decreases m2 - m,
{
    if m2 > m {
        lemma_canon_order_prefix(lens, n, m, m2 - 1);
        lemma_with_len_syms(lens, m2, n);
        let a = canon_order(lens, n, m2 - 1);
        let b = canon_order(lens, n, m2);
        assert(b == a + with_len(lens, m2, n));
        assert(b.take(canon_order(lens, n, m).len() as int) =~= a.take(canon_order(lens, n, m).len() as int));
        assert forall|j: int| canon_order(lens, n, m).len() <= j < b.len() implies lens[#[trigger] b[j] as int] > m by {
            if j < a.len() {
                assert(b[j] == a[j]);
            } else {
                assert(b[j] == with_len(lens, m2, n)[j - a.len()]);
            }
        }
    } else {
        assert(canon_order(lens, n, m2).take(canon_order(lens, n, m).len() as int) =~= canon_order(lens, n, m));
    }
}

/// Turn the code lengths of the symbols `0..n` into canonical codes: symbols ordered by
/// length and then by symbol get consecutive codes, shifted left whenever the length
/// grows.
pub fn canonical_codes(lens: &Vec<u32>, n: usize) -> (res: Result<Vec<u32>, CodeError>)
    requires
        n <= lens@.len(),
        n <= 258,
    ensures
        (res is Err && res->Err_0 == CodeError::BadLength) <==> !lengths_in_range(lens@, n as int),
        (res is Err && res->Err_0 == CodeError::Overfull) <==> lengths_in_range(lens@, n as int)
            && kraft(lens@, n as int) > pow2(17),
        res is Ok ==> {
            let codes = res->Ok_0;
            &&& codes@.len() == n
            &&& forall|s: int| 0 <= s < n ==> codes@[s] as int == #[trigger] canon_codes(lens@, n as int)[s]
            &&& codes_fit(lens@, codes@, n as int)
        },
{
    // every length must be in 1..=17
    let mut s: usize = 0;
    while s < n
        invariant
            s <= n,
            n <= lens@.len(),
            forall|q: int| 0 <= q < s ==> 1 <= #[trigger] lens@[q] <= 17,
        decreases n - s,
    {
        if lens[s] < 1 || lens[s] > 17 {
            return Err(CodeError::BadLength);
        }
        s = s + 1;
    }
    let ghost l = lens@;
    let mut codes: Vec<u32> = Vec::with_capacity(n);
    let mut k: usize = 0;
    while k < n
        invariant
            k <= n,
            codes@.len() == k,
        decreases n - k,
    {
        codes.push(0);
        k = k + 1;
    }
    let mut cur: u32 = 0;
    let mut next: u32 = 0;
    let ghost mut count: int = 0;
    let ghost mut map: Map<int, int> = Map::empty();
    let mut len: u32 = 1;
    proof {
        vstd::arithmetic::power2::lemma2_to64();
    }
    while len <= 17
        invariant
            l == lens@,
            n <= l.len(),
            n <= 258,
            lengths_in_range(l, n as int),
            1 <= len <= 18,
            codes@.len() == n,
            cur <= 17,
            cur < len,
            0 <= count <= 4644,
            count == canon_order(l, n as int, len - 1).len(),
            (map, cur as int, next as int) == canon_fold(l, canon_order(l, n as int, len - 1), 0),
            next as nat <= (count as nat) * pow2(cur as nat),
            forall|q: int| 0 <= q < n && map.contains_key(q) ==> codes@[q] as int == map[q],
            forall|q: int| 0 <= q < n && map.contains_key(q) ==> (codes@[q] as nat) < pow2(l[q] as nat),
            pow2(17) == 0x20000,
            next as nat <= pow2(cur as nat),
            next * pow2((17 - cur) as nat) == kraft_seq(l, canon_order(l, n as int, len - 1)),
        decreases 18 - len,
    {
        let mut s: usize = 0;
        let ghost base = canon_order(l, n as int, len - 1);
        proof {
            lemma_canon_order_syms(l, n as int, len - 1);
            assert((len - 1) * n <= 16 * 258) by (nonlinear_arith)
                requires
                    len - 1 <= 16,
                    n <= 258,
                    len >= 1,
            ;
        }
        while s < n
            invariant
                l == lens@,
                n <= l.len(),
                n <= 258,
                lengths_in_range(l, n as int),
                1 <= len <= 17,
                s <= n,
                codes@.len() == n,
                cur <= len,
                base == canon_order(l, n as int, len - 1),
                0 <= count <= 4644,
                base.len() <= 16 * 258,
                with_len(l, len as int, s as int).len() <= s,
                count == base.len() + with_len(l, len as int, s as int).len(),
                (map, cur as int, next as int) == canon_fold(l, base + with_len(l, len as int, s as int), 0),
                next as nat <= (count as nat) * pow2(cur as nat),
                forall|q: int| 0 <= q < n && map.contains_key(q) ==> codes@[q] as int == map[q],
                forall|q: int| 0 <= q < n && map.contains_key(q) ==> (codes@[q] as nat) < pow2(l[q] as nat),
                pow2(17) == 0x20000,
                next as nat <= pow2(cur as nat),
                next * pow2((17 - cur) as nat) == kraft_seq(l, base + with_len(l, len as int, s as int)),
            decreases n - s,
        {
            if lens[s] == len {
                let ghost prefix = base + with_len(l, len as int, s as int);
                proof {
                    assert(base + with_len(l, len as int, s + 1) =~= prefix.push(s as u16));
                    assert((prefix.push(s as u16)).drop_last() =~= prefix);
                    lemma_canon_order_syms(l, n as int, len - 1);
                    lemma_with_len_syms(l, len as int, s as int);
                    lemma_with_len_syms(l, len as int, n as int);
                    if len < 17 {
                        vstd::arithmetic::power2::lemma_pow2_strictly_increases(len as nat, 17);
                    }
                    lemma_pow2_pos(cur as nat);
                    lemma_pow2_adds(cur as nat, (len - cur) as nat);
                }
                let d = len - cur;
                proof {
                    lemma_pow2_pos(d as nat);
                    assert((next as nat) * pow2(d as nat) <= (count as nat) * pow2(len as nat)) by (nonlinear_arith)
                        requires
                            next as nat <= (count as nat) * pow2(cur as nat),
                            pow2(cur as nat) * pow2(d as nat) == pow2(len as nat),
                    ;
                    assert((count as nat) * pow2(len as nat) <= 4644 * 0x20000) by (nonlinear_arith)
                        requires
                            0 <= count <= 4644,
                            pow2(len as nat) <= 0x20000,
                    ;
                    if d > 0 {
                        vstd::bits::lemma_u32_shl_is_mul(next, d);
                    }
                }
                let code: u32 = if d > 0 {
                    next << d
                } else {
                    next
                };
                proof {
                    assert(code as int == (if len as int != cur as int {
                        next * pow2((len - cur) as nat)
                    } else {
                        next as int
                    }));
                }
                if code >= (1u32 << len) {
                    proof {
                        vstd::bits::lemma_u32_shl_is_mul(1, len);
                        let full = canon_order(l, n as int, 17);
                        let pre = prefix.push(s as u16);
                        lemma_with_len_prefix(l, len as int, s + 1, n as int);
                        lemma_canon_order_prefix(l, n as int, len as int, 17);
                        assert(canon_order(l, n as int, len as int) == base + with_len(l, len as int, n as int));
                        assert(base + with_len(l, len as int, s + 1) =~= pre);
                        let k = pre.len() as int;
                        assert(full.take(k) =~= pre) by {
                            assert(canon_order(l, n as int, len as int).take(k) =~= pre);
                        }
                        lemma_kraft_prefix(l, full, k);
                        lemma_kraft_canon_order(l, n as int, 17);
                        lemma_kraft_le_all(l, n as int);
                        lemma_pow2_adds((len - cur) as nat, (17 - len) as nat);
                        lemma_pow2_adds(len as nat, (17 - len) as nat);
                        let a1 = pow2((len - cur) as nat);
                        let b1 = pow2((17 - len) as nat);
                        assert(code as int * b1 >= pow2(len as nat) * b1) by (nonlinear_arith)
                            requires
                                code as int >= pow2(len as nat),
                                b1 >= 0,
                        ;
                        if len != cur {
                            assert(code as int * b1 == next * pow2((17 - cur) as nat)) by (nonlinear_arith)
                                requires
                                    code as int == next * a1,
                                    a1 * b1 == pow2((17 - cur) as nat),
                            ;
                        }
                        assert(pre.drop_last() =~= prefix);
                        lemma_pow2_pos((17 - len) as nat);
                        assert(kraft_seq(l, pre) == kraft_seq(l, prefix) + b1);
                        assert(kraft(l, n as int) > pow2(17));
                    }
                    return Err(CodeError::Overfull);
                }
                proof {
                    vstd::bits::lemma_u32_shl_is_mul(1, len);
                    map = map.insert(s as int, code as int);
                    count = count + 1;
                    assert((code as nat + 1) <= (count as nat) * pow2(len as nat)) by (nonlinear_arith)
                        requires
                            (code as nat) <= ((count - 1) as nat) * pow2(len as nat),
                            pow2(len as nat) >= 1,
                            count >= 1,
                    ;
                }
                proof {
                    lemma_pow2_adds((len - cur) as nat, (17 - len) as nat);
                    lemma_pow2_adds(len as nat, (17 - len) as nat);
                    let a1 = pow2((len - cur) as nat);
                    let b1 = pow2((17 - len) as nat);
                    if len != cur {
                        assert(code as int * b1 == next * pow2((17 - cur) as nat)) by (nonlinear_arith)
                            requires
                                code as int == next * a1,
                                a1 * b1 == pow2((17 - cur) as nat),
                        ;
                    }
                    assert((code as int + 1) * b1 == code as int * b1 + b1) by (nonlinear_arith);
                    let pre = base + with_len(l, len as int, s + 1);
                    assert(pre.drop_last() =~= base + with_len(l, len as int, s as int));
                    assert(pre.last() == s as u16);
                }
                codes.set(s, code);
                cur = len;
                next = code + 1;
            }
            proof {
                if lens@[s as int] != len {
                    assert(base + with_len(l, len as int, s + 1) =~= base + with_len(l, len as int, s as int));
                }
                lemma_with_len_syms(l, len as int, s + 1);
            }
            s = s + 1;
        }
        proof {
            assert(canon_order(l, n as int, len as int) == base + with_len(l, len as int, n as int));
        }
        len = len + 1;
    }
    proof {
        assert forall|q: int| 0 <= q < n implies codes@[q] as int == #[trigger] canon_codes(l, n as int)[q] && (codes@[q] as nat) < pow2(l[q] as nat) by {
            lemma_canon_order_contains(l, n as int, 17, q);
            lemma_canon_fold_keys(l, canon_order(l, n as int, 17), 0, q);
            assert(map == canon_codes(l, n as int));
            assert(map.contains_key(q));
        }
        lemma_kraft_canon_order(l, n as int, 17);
        lemma_kraft_le_all(l, n as int);
        lemma_pow2_adds(cur as nat, (17 - cur) as nat);
        assert(next * pow2((17 - cur) as nat) <= pow2(cur as nat) * pow2((17 - cur) as nat)) by (nonlinear_arith)
            requires
                next as nat <= pow2(cur as nat),
                pow2((17 - cur) as nat) >= 0,
        ;
        assert(kraft(l, n as int) <= pow2(17));
        assert(codes_fit(l, codes@, n as int)) by {
            assert forall|q: int| 0 <= q < n implies (#[trigger] codes@[q] as nat) < pow2(l[q] as nat) by {
                lemma_canon_order_contains(l, n as int, 17, q);
                lemma_canon_fold_keys(l, canon_order(l, n as int, 17), 0, q);
            }
        }
    }
    Ok(codes)
}

} // verus!
