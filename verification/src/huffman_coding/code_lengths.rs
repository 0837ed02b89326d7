//! Code lengths from symbol weights: a Huffman tree is built from the weights, and the
//! depth of each symbol's leaf is its code length. Codes may be at most 17 bits long;
//! while the tree is deeper, the weights are flattened and the tree is built again.
use vstd::prelude::*;
use crate::huffman_coding::tree::{
    forest_syms, height, leaf_list, leaf_syms, lemma_forest_perm, lemma_forest_remove, node_ok, return_leaves, sort_by_weight_desc,
    syms_at_most, Node, NodeData,
};
use vstd::multiset::Multiset;
use vstd::arithmetic::power2::{pow2, lemma_pow2_pos};
use crate::huffman_coding::codes::kraft;

verus! {

broadcast use vstd::seq_lib::group_to_multiset_ensures;

/// Why no code lengths came out.
#[derive(Debug, Clone, Copy, PartialEq, Eq)]
pub enum LengthError {
    /// The weights of a node no longer fit in 32 bits.
    WeightOverflow,
    /// A node would be deeper than its 8-bit depth can hold.
    TooDeep,
    /// Flattening no longer changes the weights, and the tree is still too deep.
    NoProgress,
}

/// Pairs ordered by their first element, then by their second.
pub open spec fn pair_lt(a: (u32, u16), b: (u32, u16)) -> bool {
    a.0 < b.0 || (a.0 == b.0 && a.1 < b.1)
}

/// The list after the element at `idx` moves toward the front while it is smaller than
/// the element at half its index.
pub open spec fn slide(s: Seq<(u32, u16)>, idx: int) -> Seq<(u32, u16)>
    decreases idx,
{
    if idx <= 0 || !pair_lt(s[idx], s[idx / 2]) {
        s
    } else {
        slide(s.update(idx, s[idx / 2]).update(idx / 2, s[idx]), idx / 2)
    }
}

proof fn lemma_slide_len(s: Seq<(u32, u16)>, idx: int)
    requires
        0 <= idx < s.len(),
    ensures
        slide(s, idx).len() == s.len(),
    decreases idx,
{
    if idx > 0 && pair_lt(s[idx], s[idx / 2]) {
        lemma_slide_len(s.update(idx, s[idx / 2]).update(idx / 2, s[idx]), idx / 2);
    }
}

/// The pairs `1..n` each hold no less than the pair at half their index: a heap with the
/// smallest pair first.
pub open spec fn heap_upto(s: Seq<(u32, u16)>, n: int) -> bool {
    forall|k: int| 1 <= k < n ==> !pair_lt(#[trigger] s[k], s[k / 2])
}

/// Whether `k` is `idx` or one of the positions got by halving it.
pub open spec fn on_path(idx: int, k: int) -> bool
    decreases idx,
{
    if idx <= 0 {
        k == idx
    } else {
        k == idx || on_path(idx / 2, k)
    }
}

/// The heap holds up to `top` in `s` except at `i`, and the children of `i` hold no less
/// than the parent of `i`.
spec fn heap_but(s: Seq<(u32, u16)>, i: int, top: int) -> bool {
    &&& forall|k: int| 1 <= k <= top && k != i ==> !pair_lt(#[trigger] s[k], s[k / 2])
    &&& i >= 1 ==> forall|k: int| 1 <= k <= top && k / 2 == i && k != i ==> !pair_lt(#[trigger] s[k], s[i / 2])
}

proof fn lemma_slide_heap(s: Seq<(u32, u16)>, i: int, top: int)
    requires
        0 <= i <= top < s.len(),
        heap_but(s, i, top),
    ensures
        heap_upto(slide(s, i), top + 1),
        slide(s, i).to_multiset() == s.to_multiset(),
        forall|k: int| 0 <= k < s.len() && !on_path(i, k) ==> #[trigger] slide(s, i)[k] == s[k],
    decreases i,
{
    if i > 0 && pair_lt(s[i], s[i / 2]) {
        let h = i / 2;
        let t = s.update(i, s[h]).update(h, s[i]);
        assert(heap_but(t, h, top)) by {
            assert forall|k: int| 1 <= k <= top && k != h implies !pair_lt(#[trigger] t[k], t[k / 2]) by {
                if k == i {
                } else if k / 2 == i {
                    assert(t[k] == s[k]);
                } else if k / 2 == h {
                    assert(t[k] == s[k]);
                    assert(!pair_lt(s[k], s[h]));
                } else {
                    assert(t[k] == s[k]);
                    assert(t[k / 2] == s[k / 2]);
                }
            }
            if h >= 1 {
                assert forall|k: int| 1 <= k <= top && k / 2 == h && k != h implies !pair_lt(#[trigger] t[k], t[h / 2]) by {
                    assert(t[h / 2] == s[h / 2]);
                    assert(!pair_lt(s[h], s[h / 2]));
                    if k != i {
                        assert(t[k] == s[k]);
                        assert(!pair_lt(s[k], s[h]));
                    }
                }
            }
        }
        lemma_slide_heap(t, h, top);
        assert(t.to_multiset() == s.to_multiset()) by {
            broadcast use vstd::multiset::group_multiset_axioms;
            let m1 = s.update(i, s[h]);
            assert(m1.to_multiset() == s.to_multiset().insert(s[h]).remove(s[i]));
            assert(t.to_multiset() == m1.to_multiset().insert(s[i]).remove(m1[h]));
            assert(s.to_multiset().count(s[i]) > 0) by {
                assert(s.contains(s[i]));
            }
            assert(t.to_multiset() =~= s.to_multiset());
        }
        assert forall|k: int| 0 <= k < s.len() && !on_path(i, k) implies #[trigger] slide(s, i)[k] == s[k] by {
            assert(!on_path(h, k));
            assert(slide(t, h)[k] == t[k]);
        }
    } else {
        assert forall|k: int| 1 <= k < top + 1 implies !pair_lt(#[trigger] s[k], s[k / 2]) by {
            if k == i {
            }
        }
    }
}

/// Sliding the pair at `idx` of a heap on `1..idx` gives a heap on `1..=idx` holding the
/// same pairs, where only `idx` and the positions got by halving it may change.
pub proof fn lemma_push_big_down_heap(s: Seq<(u32, u16)>, idx: int)
    requires
        0 <= idx < s.len(),
        heap_upto(s, idx),
    ensures
        heap_upto(slide(s, idx), idx + 1),
        slide(s, idx).to_multiset() == s.to_multiset(),
        forall|k: int| 0 <= k < s.len() && !on_path(idx, k) ==> #[trigger] slide(s, idx)[k] == s[k],
{
    assert(heap_but(s, idx, idx)) by {
        assert forall|k: int| 1 <= k <= idx && k != idx implies !pair_lt(#[trigger] s[k], s[k / 2]) by {
            assert(k < idx);
        }
    }
    lemma_slide_heap(s, idx, idx);
}

/// Sliding keeps the pairs, and moves only positions on the path from `idx`.
proof fn lemma_slide_keeps(s: Seq<(u32, u16)>, i: int)
    requires
        0 <= i < s.len(),
    ensures
        slide(s, i).to_multiset() == s.to_multiset(),
        forall|k: int| 0 <= k < s.len() && !on_path(i, k) ==> #[trigger] slide(s, i)[k] == s[k],
    decreases i,
{
    if i > 0 && pair_lt(s[i], s[i / 2]) {
        let h = i / 2;
        let t = s.update(i, s[h]).update(h, s[i]);
        lemma_slide_keeps(t, h);
        assert(t.to_multiset() == s.to_multiset()) by {
            broadcast use vstd::multiset::group_multiset_axioms;
            let m1 = s.update(i, s[h]);
            assert(m1.to_multiset() == s.to_multiset().insert(s[h]).remove(s[i]));
            assert(t.to_multiset() == m1.to_multiset().insert(s[i]).remove(m1[h]));
            assert(s.to_multiset().count(s[i]) > 0) by {
                assert(s.contains(s[i]));
            }
            assert(t.to_multiset() =~= s.to_multiset());
        }
        assert forall|k: int| 0 <= k < s.len() && !on_path(i, k) implies #[trigger] slide(s, i)[k] == s[k] by {
            assert(!on_path(h, k));
            assert(slide(t, h)[k] == t[k]);
        }
    }
}

/// Slide sort. Gets things in the right direction but not fully sorted.
pub fn push_big_down(vec: &mut Vec<(u32, u16)>, idx: usize)
    requires
        idx < old(vec)@.len(),
    ensures
        final(vec)@ == slide(old(vec)@, idx as int),
        heap_upto(old(vec)@, idx as int) ==> heap_upto(final(vec)@, idx + 1),
        final(vec)@.to_multiset() == old(vec)@.to_multiset(),
        forall|k: int| 0 <= k < old(vec)@.len() && !on_path(idx as int, k) ==> #[trigger] final(vec)@[k] == old(vec)@[k],
{
    proof {
        lemma_slide_keeps(old(vec)@, idx as int);
        if heap_upto(old(vec)@, idx as int) {
            lemma_push_big_down_heap(old(vec)@, idx as int);
        }
    }
    if idx == 0 {
        return;
    }
    let tmp = vec[idx];
    let ghost orig = vec@;
    let ghost i0 = idx as int;
    let mut idx = idx;
    loop
        invariant
            idx < vec@.len(),
            vec@.len() == orig.len(),
            vec@[idx as int] == tmp,
            slide(vec@, idx as int) == slide(orig, i0),
        ensures
            idx < vec@.len(),
            vec@[idx as int] == tmp,
            vec@ == slide(orig, i0),
        decreases idx,
    {
        let a = vec[idx];
        let h = idx / 2;
        let b = vec[h];
        if !(a.0 < b.0 || (a.0 == b.0 && a.1 < b.1)) {
            break;
        }
        vec.set(idx, b);
        vec.set(h, a);
        idx = h;
    }
    vec.set(idx, tmp);
    proof {
        assert(vec@ =~= slide(orig, i0));
    }
}

/// Weight adding for parent nodes: the weights above the low byte
/// add up, and the low byte holds one more than the larger of the two low bytes.
pub open spec fn add_weights_spec(a: u32, b: u32) -> u32 {
    ((((a & 0xffffff00u32) + (b & 0xffffff00u32)) as u32) | ((1 + if (a & 0xffu32) >= (b & 0xffu32) {
        a & 0xffu32
    } else {
        b & 0xffu32
    }) as u32)) as u32
}

/// Weight adding for parent nodes
fn add_weights(a: u32, b: u32) -> (w: u32)
    requires
        (a & 0xffffff00u32) + (b & 0xffffff00u32) <= u32::MAX,
    ensures
        w == add_weights_spec(a, b),
{
    let weigh_mask: u32 = 0xffffff00;
    let depth_mask: u32 = 0x000000ff;
    let da = a & depth_mask;
    let db = b & depth_mask;
    proof {
        assert(da <= 255 && db <= 255) by (bit_vector)
            requires
                da == a & 0xffu32,
                db == b & 0xffu32,
        ;
    }
    let m = if da >= db {
        da
    } else {
        db
    };
    ((a & weigh_mask) + (b & weigh_mask)) | (1 + m)
}

/// A weight after flattening: half the part above the low byte, plus one.
pub open spec fn flat_weight(w: u32) -> u32 {
    (((1 + (w >> 8u32) / 2) as u32) << 8u32) as u32
}

/// The flattening measure of one weight.
pub open spec fn phi(w: u32) -> int {
    let j = (w >> 8u32) as int;
    if j == 0 {
        3
    } else {
        j
    }
}

/// The flattening measure of the first `k` weights.
pub open spec fn measure(ws: Seq<(u32, u16)>, k: int) -> int
    decreases k,
{
    if k <= 0 {
        0
    } else {
        measure(ws, k - 1) + phi(ws[k - 1].0)
    }
}

proof fn lemma_measure_nonneg(ws: Seq<(u32, u16)>, k: int)
    ensures
        measure(ws, k) >= 0,
    decreases k,
{
    if k > 0 {
        lemma_measure_nonneg(ws, k - 1);
    }
}

/// Flattening never raises a weight's measure, and lowers it unless the weight stays.
proof fn lemma_flat_step(w: u32)
    requires
        w & 0xffu32 == 0,
    ensures
        flat_weight(w) & 0xffu32 == 0,
        phi(flat_weight(w)) <= phi(w),
        flat_weight(w) != w ==> phi(flat_weight(w)) < phi(w),
        (flat_weight(w) >> 8u32) == 1 + (w >> 8u32) / 2,
{
    let j = w >> 8u32;
    assert((w >> 8u32) < 0x100_0000) by (bit_vector);
    let nj: u32 = (1 + j / 2) as u32;
    assert(((nj << 8u32) >> 8u32) == nj && (nj << 8u32) & 0xffu32 == 0) by (bit_vector)
        requires
            nj < 0x100_0000,
    ;
    assert(w == ((w >> 8u32) << 8u32)) by (bit_vector)
        requires
            w & 0xffu32 == 0,
    ;
}

/// The codes after each leaf's symbol gets the leaf's depth, in order.
pub open spec fn apply_leaves(c: Seq<u32>, l: Seq<(u16, u8)>) -> Seq<u32>
    decreases l.len(),
{
    if l.len() == 0 {
        c
    } else {
        apply_leaves(c, l.drop_last()).update(l.last().0 as int, l.last().1 as u32)
    }
}

proof fn lemma_apply_len(c: Seq<u32>, l: Seq<(u16, u8)>)
    requires
        forall|k: int| 0 <= k < l.len() ==> (l[k].0 as int) < c.len(),
    ensures
        apply_leaves(c, l).len() == c.len(),
    decreases l.len(),
{
    if l.len() > 0 {
        lemma_apply_len(c, l.drop_last());
    }
}

/// No leaf lies deeper than the tree's height below the node.
proof fn lemma_leaf_depths(n: Node, d: int)
    requires
        0 <= d,
        d + height(n) <= 255,
    ensures
        forall|k: int| 0 <= k < leaf_list(n, d).len() ==> (leaf_list(n, d)[k].1 as int) <= d + height(n),
    decreases n,
{
    match n.node_data {
        NodeData::Leaf(_) => {},
        NodeData::Kids(l, r) => {
            lemma_leaf_depths(*l, d + 1);
            lemma_leaf_depths(*r, d + 1);
            let a = leaf_list(*l, d + 1);
            let b = leaf_list(*r, d + 1);
            assert forall|k: int| 0 <= k < (a + b).len() implies ((a + b)[k].1 as int) <= d + height(n) by {
                if k >= a.len() {
                    assert((a + b)[k] == b[k - a.len()]);
                }
            }
        },
    }
}

/// The symbols of a tree's leaves are those of the tree.
proof fn lemma_leaf_syms(n: Node, d: int, bound: int)
    requires
        syms_at_most(n, bound),
    ensures
        forall|k: int| 0 <= k < leaf_list(n, d).len() ==> (leaf_list(n, d)[k].0 as int) <= bound,
    decreases n,
{
    match n.node_data {
        NodeData::Leaf(_) => {},
        NodeData::Kids(l, r) => {
            lemma_leaf_syms(*l, d + 1, bound);
            lemma_leaf_syms(*r, d + 1, bound);
            let a = leaf_list(*l, d + 1);
            let b = leaf_list(*r, d + 1);
            assert forall|k: int| 0 <= k < (a + b).len() implies ((a + b)[k].0 as int) <= bound by {
                if k >= a.len() {
                    assert((a + b)[k] == b[k - a.len()]);
                }
            }
        },
    }
}

/// Every pair's symbol is at most `bound`, and its weight has a clear low byte.
pub open spec fn pair_syms_ok(ws: Seq<(u32, u16)>, bound: int) -> bool {
    forall|k: int| 0 <= k < ws.len() ==> (ws[k].1 as int) <= bound && ws[k].0 & 0xffu32 == 0
}

proof fn lemma_slide_syms(s: Seq<(u32, u16)>, idx: int, bound: int)
    requires
        0 <= idx < s.len(),
        pair_syms_ok(s, bound),
    ensures
        pair_syms_ok(slide(s, idx), bound),
    decreases idx,
{
    if idx > 0 && pair_lt(s[idx], s[idx / 2]) {
        let t = s.update(idx, s[idx / 2]).update(idx / 2, s[idx]);
        assert(pair_syms_ok(t, bound));
        lemma_slide_syms(t, idx / 2, bound);
    }
}

/// The symbols of the pairs `lo..hi` of `ws`.
pub open spec fn sym_bag(ws: Seq<(u32, u16)>, lo: int, hi: int) -> Multiset<u16> {
    ws.subrange(lo, hi).map_values(|p: (u32, u16)| p.1).to_multiset()
}

/// The symbols `0..m`, each once.
pub open spec fn syms_upto(m: int) -> Multiset<u16> {
    Seq::new(m as nat, |k: int| k as u16).to_multiset()
}

proof fn lemma_bag_push(ws: Seq<(u32, u16)>, lo: int, hi: int)
    requires
        0 <= lo <= hi < ws.len(),
    ensures
        sym_bag(ws, lo, hi + 1) == sym_bag(ws, lo, hi).insert(ws[hi].1),
{
    assert(ws.subrange(lo, hi + 1).map_values(|p: (u32, u16)| p.1) =~= ws.subrange(lo, hi).map_values(
        |p: (u32, u16)| p.1,
    ).push(ws[hi].1));
}

proof fn lemma_bag_front(ws: Seq<(u32, u16)>, lo: int, hi: int)
    requires
        0 <= lo < hi <= ws.len(),
    ensures
        sym_bag(ws, lo, hi) == sym_bag(ws, lo + 1, hi).add(Multiset::singleton(ws[lo].1)),
{
    broadcast use vstd::seq_lib::lemma_multiset_commutative;
    let a = seq![ws[lo].1];
    let b = ws.subrange(lo + 1, hi).map_values(|p: (u32, u16)| p.1);
    assert(ws.subrange(lo, hi).map_values(|p: (u32, u16)| p.1) =~= a + b);
    assert(a =~= Seq::<u16>::empty().push(ws[lo].1));
    assert(a.to_multiset() =~= Multiset::singleton(ws[lo].1));
    assert((a + b).to_multiset() =~= b.to_multiset().add(a.to_multiset()));
}

proof fn lemma_bag_same(a: Seq<(u32, u16)>, b: Seq<(u32, u16)>, lo: int, hi: int)
    requires
        0 <= lo <= hi <= a.len(),
        hi <= b.len(),
        forall|k: int| lo <= k < hi ==> #[trigger] a[k].1 == b[k].1,
    ensures
        sym_bag(a, lo, hi) == sym_bag(b, lo, hi),
{
    assert(a.subrange(lo, hi).map_values(|p: (u32, u16)| p.1) =~= b.subrange(lo, hi).map_values(
        |p: (u32, u16)| p.1,
    ));
}

/// Sliding keeps the first pair (the smallest there is) and the symbols of the pairs
/// `1..hi`, and leaves the pairs after `idx` alone.
proof fn lemma_slide_bag(s: Seq<(u32, u16)>, idx: int, hi: int)
    requires
        0 <= idx < hi <= s.len(),
        s[0] == (0u32, 0u16),
    ensures
        slide(s, idx).len() == s.len(),
        slide(s, idx)[0] == s[0],
        sym_bag(slide(s, idx), 1, hi) == sym_bag(s, 1, hi),
        forall|k: int| idx < k < s.len() ==> #[trigger] slide(s, idx)[k] == s[k],
    decreases idx,
{
    broadcast use vstd::multiset::group_multiset_axioms;
    if idx > 0 && pair_lt(s[idx], s[idx / 2]) {
        let h = idx / 2;
        assert(h >= 1);
        let t = s.update(idx, s[h]).update(h, s[idx]);
        let m = s.subrange(1, hi).map_values(|p: (u32, u16)| p.1);
        let a = m[idx - 1];
        let b = m[h - 1];
        let m1 = m.update(idx - 1, b);
        let m2 = m1.update(h - 1, a);
        assert(t.subrange(1, hi).map_values(|p: (u32, u16)| p.1) =~= m2);
        assert(m1.to_multiset() == m.to_multiset().insert(b).remove(a));
        assert(m2.to_multiset() == m1.to_multiset().insert(a).remove(m1[h - 1]));
        assert(m1[h - 1] == b);
        assert(m.to_multiset().count(a) > 0) by {
            assert(m.contains(a));
        }
        assert(m2.to_multiset() =~= m.to_multiset());
        lemma_slide_bag(t, h, hi);
        assert forall|k: int| idx < k < s.len() implies #[trigger] slide(s, idx)[k] == s[k] by {
            assert(slide(t, h)[k] == t[k]);
        }
    }
}

/// The Kraft sum of the leaves `l`, scaled by `2^17`: a leaf at depth `d` counts `2^(17 - d)`.
pub open spec fn depth_sum(l: Seq<(u16, u8)>) -> int
    decreases l.len(),
{
    if l.len() == 0 {
        0
    } else {
        depth_sum(l.drop_last()) + pow2((17 - l.last().1) as nat)
    }
}

/// The Kraft sum of the symbols `a` under the lengths `c`.
pub open spec fn sym_sum(c: Seq<u32>, a: Seq<u16>) -> int
    decreases a.len(),
{
    if a.len() == 0 {
        0
    } else {
        sym_sum(c, a.drop_last()) + pow2((17 - c[a.last() as int]) as nat)
    }
}

proof fn lemma_depth_sum_add(a: Seq<(u16, u8)>, b: Seq<(u16, u8)>)
    ensures
        depth_sum(a + b) == depth_sum(a) + depth_sum(b),
    decreases b.len(),
{
    if b.len() == 0 {
        assert(a + b =~= a);
    } else {
        lemma_depth_sum_add(a, b.drop_last());
        assert((a + b).drop_last() =~= a + b.drop_last());
        assert((a + b).last() == b.last());
    }
}

/// The leaves of a full binary tree no deeper than 17 make a complete code.
proof fn lemma_tree_kraft(n: Node, d: int)
    requires
        0 <= d,
        d + height(n) <= 17,
    ensures
        depth_sum(leaf_list(n, d)) == pow2((17 - d) as nat),
    decreases n,
{
    match n.node_data {
        NodeData::Leaf(s) => {
            let l = leaf_list(n, d);
            assert(l.drop_last() =~= Seq::<(u16, u8)>::empty());
            assert(depth_sum(Seq::<(u16, u8)>::empty()) == 0);
            assert(l.last() == (s, d as u8));
            assert((d as u8) as int == d);
            assert(depth_sum(l) == depth_sum(l.drop_last()) + pow2((17 - l.last().1) as nat));
        },
        NodeData::Kids(l, r) => {
            lemma_tree_kraft(*l, d + 1);
            lemma_tree_kraft(*r, d + 1);
            lemma_depth_sum_add(leaf_list(*l, d + 1), leaf_list(*r, d + 1));
            vstd::arithmetic::power2::lemma_pow2_unfold((17 - d) as nat);
        },
    }
}

proof fn lemma_sym_sum_remove(c: Seq<u32>, a: Seq<u16>, j: int)
    requires
        0 <= j < a.len(),
    ensures
        sym_sum(c, a) == sym_sum(c, a.remove(j)) + pow2((17 - c[a[j] as int]) as nat),
    decreases a.len(),
{
    if j == a.len() - 1 {
        assert(a.remove(j) =~= a.drop_last());
    } else {
        lemma_sym_sum_remove(c, a.drop_last(), j);
        assert(a.remove(j).drop_last() =~= a.drop_last().remove(j));
        assert(a.remove(j).last() == a.last());
    }
}

/// The Kraft sum of symbols does not depend on their order.
proof fn lemma_sym_sum_perm(c: Seq<u32>, a: Seq<u16>, b: Seq<u16>)
    requires
        a.to_multiset() == b.to_multiset(),
    ensures
        sym_sum(c, a) == sym_sum(c, b),
    decreases a.len(),
{
    if a.len() == 0 {
        assert(b.len() == a.to_multiset().len());
        assert(b =~= Seq::<u16>::empty());
    } else {
        let x = a.last();
        assert(a =~= a.drop_last().push(x));
        assert(a.to_multiset().count(x) > 0);
        assert(b.to_multiset().count(x) > 0);
        assert(b.contains(x));
        let j = choose|j: int| 0 <= j < b.len() && b[j] == x;
        let b2 = b.remove(j);
        assert(b2.to_multiset() =~= a.drop_last().to_multiset());
        lemma_sym_sum_perm(c, a.drop_last(), b2);
        lemma_sym_sum_remove(c, b, j);
    }
}

proof fn lemma_sym_sum_all(c: Seq<u32>, m: int)
    requires
        0 <= m <= 0x10000,
    ensures
        sym_sum(c, Seq::new(m as nat, |k: int| k as u16)) == kraft(c, m),
    decreases m,
{
    if m > 0 {
        lemma_sym_sum_all(c, m - 1);
        assert(Seq::new(m as nat, |k: int| k as u16).drop_last() =~= Seq::new((m - 1) as nat, |k: int| k as u16));
        assert(((m - 1) as u16) as int == m - 1);
    }
}

/// With each leaf's symbol holding the leaf's depth, the leaves' and the symbols' sums agree.
proof fn lemma_depth_sum_syms(c: Seq<u32>, l: Seq<(u16, u8)>)
    requires
        forall|k: int| 0 <= k < l.len() ==> #[trigger] c[l[k].0 as int] == l[k].1 as u32,
    ensures
        depth_sum(l) == sym_sum(c, l.map_values(|x: (u16, u8)| x.0)),
    decreases l.len(),
{
    if l.len() > 0 {
        let lt = l.drop_last();
        assert forall|k: int| 0 <= k < lt.len() implies #[trigger] c[lt[k].0 as int] == lt[k].1 as u32 by {
            assert(lt[k] == l[k]);
        }
        lemma_depth_sum_syms(c, lt);
        assert(l.map_values(|x: (u16, u8)| x.0).drop_last() =~= lt.map_values(|x: (u16, u8)| x.0));
        assert(c[l.last().0 as int] == l.last().1 as u32);
    }
}

/// With distinct symbols, each leaf's symbol ends up holding the leaf's depth.
proof fn lemma_apply_distinct(c: Seq<u32>, l: Seq<(u16, u8)>, k: int)
    requires
        l.map_values(|x: (u16, u8)| x.0).no_duplicates(),
        forall|q: int| 0 <= q < l.len() ==> (l[q].0 as int) < c.len(),
        0 <= k < l.len(),
    ensures
        apply_leaves(c, l)[l[k].0 as int] == l[k].1 as u32,
    decreases l.len(),
{
    let m = l.map_values(|x: (u16, u8)| x.0);
    lemma_apply_len(c, l.drop_last());
    if k < l.len() - 1 {
        let lt = l.drop_last();
        assert(lt.map_values(|x: (u16, u8)| x.0) =~= m.drop_last());
        assert(m[k] != m[l.len() - 1]);
        lemma_apply_distinct(c, lt, k);
        assert(lt[k] == l[k]);
    }
}

/// No leaf lies above the node's own depth `d`.
proof fn lemma_leaf_depth_min(n: Node, d: int)
    requires
        0 <= d,
        d + height(n) <= 255,
    ensures
        forall|k: int| 0 <= k < leaf_list(n, d).len() ==> (leaf_list(n, d)[k].1 as int) >= d,
    decreases n,
{
    match n.node_data {
        NodeData::Leaf(_) => {},
        NodeData::Kids(l, r) => {
            lemma_leaf_depth_min(*l, d + 1);
            lemma_leaf_depth_min(*r, d + 1);
            let a = leaf_list(*l, d + 1);
            let b = leaf_list(*r, d + 1);
            assert forall|k: int| 0 <= k < (a + b).len() implies ((a + b)[k].1 as int) >= d by {
                if k >= a.len() {
                    assert((a + b)[k] == b[k - a.len()]);
                }
            }
        },
    }
}

/// The codes from a tree over the symbols `0..=eob`, each at one leaf, no deeper than 17:
/// a complete code, and each length in `1..=17` when there are two symbols or more.
proof fn lemma_complete_code(c0: Seq<u32>, c: Seq<u32>, root: Node, eob: int)
    requires
        0 <= eob < c0.len(),
        eob < 0x10000,
        node_ok(root, eob),
        height(root) <= 17,
        leaf_syms(root) == syms_upto(eob + 1),
        c == apply_leaves(c0, leaf_list(root, 0)),
    ensures
        kraft(c, eob + 1) == pow2(17),
        eob >= 1 ==> forall|s: int| 0 <= s <= eob ==> 1 <= #[trigger] c[s] <= 17,
{
    broadcast use vstd::multiset::group_multiset_axioms;
    let l = leaf_list(root, 0);
    let m = l.map_values(|x: (u16, u8)| x.0);
    let all = Seq::new((eob + 1) as nat, |k: int| k as u16);
    crate::huffman_coding::tree::lemma_leaf_list_syms(root, 0);
    lemma_leaf_syms(root, 0, eob);
    lemma_leaf_depths(root, 0);
    assert(m.to_multiset() == all.to_multiset());
    assert(all.no_duplicates()) by {
        assert forall|i: int, j: int| 0 <= i < all.len() && 0 <= j < all.len() && i != j implies all[i] != all[j] by {
            assert((i as u16) as int == i && (j as u16) as int == j);
        }
    }
    all.lemma_multiset_has_no_duplicates();
    m.lemma_multiset_has_no_duplicates_conv();
    assert forall|q: int| 0 <= q < l.len() implies (l[q].0 as int) < c0.len() by {
        assert(m[q] == l[q].0);
    }
    assert forall|k: int| 0 <= k < l.len() implies #[trigger] c[l[k].0 as int] == l[k].1 as u32 by {
        lemma_apply_distinct(c0, l, k);
    }
    lemma_depth_sum_syms(c, l);
    lemma_sym_sum_perm(c, m, all);
    lemma_sym_sum_all(c, eob + 1);
    lemma_tree_kraft(root, 0);
    if eob >= 1 {
        assert(all[0] == 0u16 && all[1] == 1u16);
        assert(all.to_multiset().count(0u16) > 0);
        assert(all.to_multiset().count(1u16) > 0);
        match root.node_data {
            NodeData::Leaf(x) => {
                assert(leaf_syms(root) == Multiset::singleton(x));
                assert(false);
            },
            NodeData::Kids(a, b) => {
                lemma_leaf_depth_min(*a, 1);
                lemma_leaf_depth_min(*b, 1);
                let la = leaf_list(*a, 1);
                let lb = leaf_list(*b, 1);
                assert(l == la + lb);
                assert forall|k: int| 0 <= k < l.len() implies (l[k].1 as int) >= 1 by {
                    if k >= la.len() {
                        assert(l[k] == lb[k - la.len()]);
                    }
                }
            },
        }
        assert forall|s: int| 0 <= s <= eob implies 1 <= #[trigger] c[s] <= 17 by {
            assert(all[s] == s as u16);
            assert(all.to_multiset().count(s as u16) > 0);
            assert(m.contains(s as u16));
            let k = choose|k: int| 0 <= k < m.len() && m[k] == s as u16;
            assert(l[k].0 == s as u16);
            assert((s as u16) as int == s);
            assert(c[l[k].0 as int] == l[k].1 as u32);
        }
    }
}

/// A symbol's weight as a count: a weight of 0 counts as 1.
pub open spec fn unit_weight(f: u32) -> int {
    if f == 0 {
        1
    } else {
        f as int
    }
}

/// Symbol `x` outweighs each other symbol of `0..=eob` more than `eob` times over, in a
/// block of 2 to 18 symbols whose weights are below 2^16; `x` is the last symbol, or the
/// block has at least 5 symbols.
pub open spec fn dominant(ws: Seq<u32>, eob: int, x: int) -> bool {
    &&& 1 <= eob <= 17
    &&& eob < ws.len()
    &&& 0 <= x <= eob
    &&& x == eob || eob >= 4
    &&& forall|s: int| 0 <= s <= eob ==> #[trigger] ws[s] < 0x10000
    &&& forall|s: int| 0 <= s <= eob && s != x ==> eob * unit_weight(#[trigger] ws[s]) < ws[x]
}

/// The dominant symbol, where there is one.
pub open spec fn dominant_symbol(ws: Seq<u32>, eob: int) -> int {
    choose|x: int| dominant(ws, eob, x)
}

/// A pair of the weight vector: the dominant symbol's pair, or a light pair of another
/// symbol.
pub open spec fn okq(p: (u32, u16), eob: int, wx: int, x: int) -> bool {
    ||| p == (#[verifier::truncate] ((256 * wx) as u32), x as u16)
    ||| light(p, eob, wx) && p.1 != x as u16
}

/// A pair whose weight, in units of 256, is less than a `eob`-th of `wx`.
pub open spec fn light(p: (u32, u16), eob: int, wx: int) -> bool {
    &&& (p.0 as int) % 256 == 0
    &&& ((p.0 as int) / 256) * eob < wx
}

/// The leaf of the dominant symbol `x`, of weight `wx`.
pub open spec fn x_leaf(wx: int, x: int) -> Node {
    Node { weight: #[verifier::truncate] ((256 * wx) as u32), depth: 0, syms: 0, node_data: NodeData::Leaf(x as u16) }
}

/// A node without the last symbol: its low byte is its depth, its weight in units of 256
/// is less than `wx` for each `eob` of its leaves, and it has more leaves than its height,
/// but no more than `eob`.
pub open spec fn node_small(n: Node, eob: int, wx: int) -> bool {
    &&& (n.weight as int) % 256 == n.depth as int
    &&& ((n.weight as int) / 256) * eob < wx * leaf_syms(n).len()
    &&& height(n) + 1 <= leaf_syms(n).len() <= eob
}

/// The root holds the last symbol's leaf as its right child, and a small node as its left.
pub open spec fn x_child(n: Node, x: int, eob: int, wx: int) -> bool {
    match n.node_data {
        NodeData::Kids(l, r) => *r == x_leaf(wx, x) && node_small(*l, eob, wx),
        NodeData::Leaf(_) => false,
    }
}

/// The bits of a weight: its low byte, the part above it, a sum of a multiple of 256
/// and a byte, and a weight below 2^16 shifted up a byte.
proof fn lemma_weight_bits(w: u32, a: u32, b: u32, f: u32)
    ensures
        w & 0xffu32 == w % 256,
        w & 0xffffff00u32 == w - w % 256,
        (a % 256 == 0 && b < 256) ==> (a | b) == a + b,
        f < 0x10000 ==> (f << 8u32) == f * 256,
{
    assert(w & 0xffu32 == w % 256 && w & 0xffffff00u32 == w - w % 256 && ((a % 256 == 0 && b < 256) ==> (a
        | b) == a + b) && (f < 0x10000 ==> (f << 8u32) == f * 256)) by (bit_vector);
}

/// The positions on the path from `idx` are at most `idx`.
proof fn lemma_on_path_le(idx: int, k: int)
    requires
        on_path(idx, k),
    ensures
        k <= idx,
    decreases idx,
{
    if idx > 0 && k != idx {
        lemma_on_path_le(idx / 2, k);
    }
}

/// Sliding keeps the pairs `1..=idx` good when the first pair is the smallest there is.
proof fn lemma_slide_okq(s: Seq<(u32, u16)>, idx: int, eob: int, wx: int, x: int)
    requires
        0 <= idx < s.len(),
        s[0] == (0u32, 0u16),
        forall|j: int| 1 <= j <= idx ==> okq(#[trigger] s[j], eob, wx, x),
    ensures
        forall|k: int| 1 <= k <= idx ==> okq(#[trigger] slide(s, idx)[k], eob, wx, x),
        slide(s, idx)[0] == (0u32, 0u16),
    decreases idx,
{
    if idx > 0 && pair_lt(s[idx], s[idx / 2]) {
        let h = idx / 2;
        assert(h >= 1);
        let t = s.update(idx, s[h]).update(h, s[idx]);
        assert forall|j: int| 1 <= j <= h implies okq(#[trigger] t[j], eob, wx, x) by {
            if j != h {
                assert(t[j] == s[j]);
            }
        }
        lemma_slide_okq(t, h, eob, wx, x);
        lemma_slide_keeps(t, h);
        assert forall|k: int| 1 <= k <= idx implies okq(#[trigger] slide(s, idx)[k], eob, wx, x) by {
            if k > h {
                if on_path(h, k) {
                    lemma_on_path_le(h, k);
                }
                assert(slide(t, h)[k] == t[k]);
                if k != idx {
                    assert(t[k] == s[k]);
                }
            }
        }
    }
}

/// Two trees of a forest hold no more leaves than the forest.
proof fn lemma_two_trees(f: Seq<Node>, k: int)
    requires
        1 <= k < f.len(),
    ensures
        leaf_syms(f[0]).len() + leaf_syms(f[k]).len() <= forest_syms(f).len(),
{
    broadcast use vstd::multiset::group_multiset_axioms;
    lemma_forest_remove(f, k);
    let g = f.remove(k);
    assert(g[0] == f[0]);
    lemma_forest_remove(g, 0);
}

/// A node that is small is lighter than the last symbol's leaf, and is not that leaf.
proof fn lemma_small_lighter(n: Node, eob: int, wx: int, x: int)
    requires
        node_small(n, eob, wx),
        1 <= eob,
        0 < wx < 0x10000,
    ensures
        (n.weight as int) < 256 * wx,
        n != x_leaf(wx, x),
{
    let u = (n.weight as int) / 256;
    let c = leaf_syms(n).len() as int;
    assert(u * eob < wx * c);
    assert(wx * c <= wx * eob) by (nonlinear_arith)
        requires
            c <= eob,
            0 < wx,
    ;
    assert(u < wx) by (nonlinear_arith)
        requires
            u * eob < wx * eob,
            1 <= eob,
    ;
    assert(n.depth <= 255);
    if n == x_leaf(wx, x) {
        assert(x_leaf(wx, x).weight as int == 256 * wx);
    }
}

/// After sorting by weight, the dominant symbol's leaf, heavier than every other tree,
/// comes first, and the others stay small.
proof fn lemma_sorted_x_first(t1: Seq<Node>, t: Seq<Node>, jx: int, eob: int, wx: int, x: int)
    requires
        1 <= eob,
        0 < wx < 0x10000,
        t.to_multiset() == t1.to_multiset(),
        t.len() == t1.len(),
        0 <= jx < t1.len(),
        t1[jx] == x_leaf(wx, x),
        forall|k: int| 0 <= k < t1.len() && k != jx ==> node_small(#[trigger] t1[k], eob, wx),
        forall|i: int, j: int| 0 <= i < j < t.len() ==> t[i].weight >= t[j].weight,
    ensures
        t[0] == x_leaf(wx, x),
        forall|k: int| 1 <= k < t.len() ==> node_small(#[trigger] t[k], eob, wx),
{
    broadcast use vstd::seq_lib::group_to_multiset_ensures;
    broadcast use vstd::multiset::group_multiset_axioms;
    let xl = x_leaf(wx, x);
    assert((xl.weight as int) == 256 * wx);
    assert forall|k: int| 0 <= k < t.len() implies #[trigger] t[k] == xl || node_small(t[k], eob, wx) by {
        assert(t.to_multiset().count(t[k]) > 0);
        assert(t1.to_multiset().count(t[k]) > 0);
        assert(t1.contains(t[k]));
        let j = choose|j: int| 0 <= j < t1.len() && t1[j] == t[k];
    }
    assert(t1.to_multiset().count(xl) > 0) by {
        assert(t1.contains(xl));
    }
    assert(t.contains(xl));
    let jt = choose|j: int| 0 <= j < t.len() && t[j] == xl;
    if t[0] != xl {
        lemma_small_lighter(t[0], eob, wx, x);
        assert(t[0].weight >= t[jt].weight);
    }
    // the dominant symbol's leaf occurs once
    let r = t1.remove(jx);
    assert forall|k: int| 0 <= k < r.len() implies #[trigger] r[k] != xl by {
        if k < jx {
            assert(r[k] == t1[k]);
            lemma_small_lighter(t1[k], eob, wx, x);
        } else {
            assert(r[k] == t1[k + 1]);
            lemma_small_lighter(t1[k + 1], eob, wx, x);
        }
    }
    assert(!r.contains(xl));
    assert(r.to_multiset().count(xl) == 0);
    assert(t1.to_multiset().count(xl) == 1);
    assert forall|k: int| 1 <= k < t.len() implies node_small(#[trigger] t[k], eob, wx) by {
        if t[k] == xl {
            let q = t.remove(0);
            assert(q[k - 1] == xl);
            assert(q.contains(xl));
            assert(q.to_multiset().count(xl) > 0);
            assert(t.to_multiset().count(xl) >= 2);
        }
    }
}

/// A tree whose weight comes from a small node or the last symbol's leaf: its weight
/// above the low byte, in units of 256, is below 2^16, and its depth is not 255.
proof fn lemma_node_bounds(n: Node, eob: int, wx: int, x: int)
    requires
        node_small(n, eob, wx) || n == x_leaf(wx, x),
        node_ok(n, eob),
        1 <= eob <= 17,
        0 < wx < 0x10000,
    ensures
        n.weight & 0xffffff00u32 == 256 * ((n.weight as int) / 256),
        n.weight & 0xffu32 == (n.weight as int) % 256,
        (n.weight as int) / 256 <= wx,
        n.depth <= 16,
{
    lemma_weight_bits(n.weight, 0, 0, 0);
    if node_small(n, eob, wx) {
        lemma_small_lighter(n, eob, wx, x);
    }
}

/// Merging two trees that are small, or one small and the last symbol's leaf: the sum
/// of their weights fits, and neither is 255 deep.
proof fn lemma_merge_bounds(l: Node, r: Node, eob: int, wx: int, x: int)
    requires
        node_small(l, eob, wx),
        node_small(r, eob, wx) || r == x_leaf(wx, x),
        node_ok(l, eob),
        node_ok(r, eob),
        1 <= eob <= 17,
        0 < wx < 0x10000,
    ensures
        (l.weight & 0xffffff00u32) + (r.weight & 0xffffff00u32) <= 0xffff_ffff,
        l.depth != 255,
        r.depth != 255,
{
    lemma_node_bounds(l, eob, wx, x);
    lemma_node_bounds(r, eob, wx, x);
}

/// The parent of two trees as the merge builds it: weight, depth and children.
pub open spec fn merged(p: Node, l: Node, r: Node) -> bool {
    &&& p.weight == add_weights_spec(l.weight, r.weight)
    &&& p.depth as int == 1 + if l.depth >= r.depth {
        l.depth as int
    } else {
        r.depth as int
    }
    &&& p.node_data == NodeData::Kids(Box::new(l), Box::new(r))
}

/// The parent of two small trees with at most `eob` leaves between them is small; the
/// parent of a small tree and the last symbol's leaf holds that leaf as its right child.
proof fn lemma_merge_parent(p: Node, l: Node, r: Node, eob: int, wx: int, x: int)
    requires
        merged(p, l, r),
        node_small(l, eob, wx),
        node_small(r, eob, wx) || r == x_leaf(wx, x),
        node_small(r, eob, wx) ==> leaf_syms(l).len() + leaf_syms(r).len() <= eob,
        node_ok(l, eob),
        node_ok(r, eob),
        1 <= eob <= 17,
        0 < wx < 0x10000,
    ensures
        node_small(r, eob, wx) ==> node_small(p, eob, wx),
        r == x_leaf(wx, x) ==> x_child(p, x, eob, wx),
        p.depth <= 17,
{
    broadcast use vstd::multiset::group_multiset_axioms;
    lemma_node_bounds(l, eob, wx, x);
    lemma_node_bounds(r, eob, wx, x);
    let ul = (l.weight as int) / 256;
    let ur = (r.weight as int) / 256;
    let y: int = 1 + if l.depth >= r.depth {
        l.depth as int
    } else {
        r.depth as int
    };
    let a = (256 * (ul + ur)) as u32;
    assert(a as int == 256 * (ul + ur));
    assert((a as int) % 256 == 0);
    lemma_weight_bits(0, a, y as u32, 0);
    assert(l.weight & 0xffu32 == l.depth as u32);
    assert(r.weight & 0xffu32 == r.depth as u32);
    assert(p.weight == (a | (y as u32)));
    assert(p.weight as int == 256 * (ul + ur) + y);
    assert((p.weight as int) % 256 == y && (p.weight as int) / 256 == ul + ur);
    if node_small(r, eob, wx) {
        let cl = leaf_syms(l).len() as int;
        let cr = leaf_syms(r).len() as int;
        assert(leaf_syms(p) == leaf_syms(l).add(leaf_syms(r)));
        assert(leaf_syms(p).len() == cl + cr);
        assert((ul + ur) * eob < wx * (cl + cr)) by (nonlinear_arith)
            requires
                ul * eob < wx * cl,
                ur * eob < wx * cr,
        ;
    }
}

/// Every node of the forest is well formed.
pub open spec fn forest_ok(tree: Seq<Node>, bound: int) -> bool {
    forall|k: int| 0 <= k < tree.len() ==> node_ok(#[trigger] tree[k], bound)
}

/// The codes hold the depths of the leaves of a tree over the symbols `0..=eob`, none
/// deeper than 17, and nothing else has changed.
pub open spec fn tree_lengths(c0: Seq<u32>, c: Seq<u32>, eob: int) -> bool {
    exists|root: Node|
        {
            &&& node_ok(root, eob)
            &&& leaf_syms(root) == syms_upto(eob + 1)
            &&& height(root) <= 17
            &&& c == apply_leaves(c0, leaf_list(root, 0))
        }
}

/// A light pair weighs less than the dominant symbol's pair.
proof fn lemma_light_lt(p: (u32, u16), eob: int, wx: int)
    requires
        light(p, eob, wx),
        1 <= eob,
    ensures
        (p.0 as int) < 256 * wx,
{
    let u = (p.0 as int) / 256;
    assert(u * eob >= u) by (nonlinear_arith)
        requires
            u >= 0,
            eob >= 1,
    ;
}

/// At most one symbol is dominant.
proof fn lemma_dominant_unique(ws: Seq<u32>, eob: int, x: int, y: int)
    requires
        dominant(ws, eob, x),
        dominant(ws, eob, y),
    ensures
        x == y,
{
    if x != y {
        let ux = unit_weight(ws[x]);
        let uy = unit_weight(ws[y]);
        assert(eob * uy < ws[x]);
        assert(eob * ux < ws[y]);
        assert(eob * uy >= uy && eob * ux >= ux) by (nonlinear_arith)
            requires
                eob >= 1,
                ux >= 1,
                uy >= 1,
        ;
    }
}

/// Two places of a sequence holding the same value make it occur twice.
proof fn lemma_twice(m: Seq<u16>, a: int, b: int)
    requires
        0 <= a < m.len(),
        0 <= b < m.len(),
        a != b,
        m[a] == m[b],
    ensures
        m.to_multiset().count(m[a]) >= 2,
{
    broadcast use vstd::seq_lib::group_to_multiset_ensures;
    broadcast use vstd::multiset::group_multiset_axioms;
    let r = m.remove(a);
    let bi = if b < a { b } else { b - 1 };
    assert(r[bi] == m[b]);
    assert(r.contains(m[a]));
    assert(r.to_multiset().count(m[a]) > 0);
}

/// The code lengths built from the weights: the depths of the leaves of a Huffman tree,
/// with the weights flattened until it is at most 17 deep. It fails where a node's
/// weight passes 32 bits, a node would be deeper than 255, or flattening no longer
/// changes the weights.
fn weighted_code_lengths(codes: &mut [u32], sym_weight: &[u32], eob: u16) -> (res: Result<(), LengthError>)
    requires
        (eob as int) < old(codes)@.len(),
        (eob as int) < sym_weight@.len(),
    ensures
        final(codes)@.len() == old(codes)@.len(),
        res is Ok ==> tree_lengths(old(codes)@, final(codes)@, eob as int),
        res is Ok ==> kraft(final(codes)@, eob + 1) == pow2(17),
        res is Ok && eob >= 1 ==> forall|s: int| 0 <= s <= eob ==> 1 <= #[trigger] final(codes)@[s] <= 17,
        res is Err ==> final(codes)@ == old(codes)@,
        forall|k: int| eob < k < final(codes)@.len() ==> final(codes)@[k] == old(codes)@[k],
        forall|y: int| dominant(sym_weight@, eob as int, y) ==> res is Ok && final(codes)@[y] == 1,
{
    let n = eob as usize + 2;
    let ghost x: int = dominant_symbol(sym_weight@, eob as int);
    let ghost dom = dominant(sym_weight@, eob as int, x);
    let ghost wx: int = if 0 <= x < sym_weight@.len() {
        sym_weight@[x] as int
    } else {
        0
    };
    let ghost xp: (u32, u16) = (#[verifier::truncate] ((256 * wx) as u32), x as u16);
    proof {
        if dom {
            let s0: int = if x == 0 {
                1
            } else {
                0
            };
            let u0 = unit_weight(sym_weight@[s0]);
            assert(eob * u0 < sym_weight@[x]);
            assert(eob * u0 >= 1) by (nonlinear_arith)
                requires
                    eob >= 1,
                    u0 >= 1,
            ;
            assert(sym_weight@[x] < 0x10000);
            assert(xp.0 as int == 256 * wx);
        }
    }
    let mut weight: Vec<(u32, u16)> = Vec::with_capacity(n);
    let mut k: usize = 0;
    while k < n
        invariant
            k <= n,
            n == eob + 2,
            weight@.len() == k,
            pair_syms_ok(weight@, eob as int),
            forall|q: int| 0 <= q < k ==> #[trigger] weight@[q] == (0u32, 0u16),
        decreases n - k,
    {
        weight.push((0, 0));
        proof {
            assert(0u32 & 0xffu32 == 0) by (bit_vector);
        }
        k = k + 1;
    }
    let mut i: usize = 0;
    while i <= eob as usize
        invariant
            i <= eob + 1,
            n == eob + 2,
            weight@.len() == n,
            (eob as int) < sym_weight@.len(),
            pair_syms_ok(weight@, eob as int),
            weight@[0] == (0u32, 0u16),
            forall|q: int| i < q < n ==> #[trigger] weight@[q] == (0u32, 0u16),
            sym_bag(weight@, 1, i + 1) == syms_upto(i as int),
            dom == dominant(sym_weight@, eob as int, x),
            dom ==> wx == sym_weight@[x] as int && xp.0 as int == 256 * wx && xp.1 == x as u16,
            dom ==> 0 < wx < 0x10000,
            dom ==> forall|q: int| 1 <= q <= i ==> okq(#[trigger] weight@[q], eob as int, wx, x),
            dom && x == eob && i > eob ==> weight@[n - 1] == xp,
            heap_upto(weight@, i as int),
        decreases eob + 1 - i,
    {
        let f = sym_weight[i];
        let w: u32 = if f == 0 {
            256
        } else {
            f << 8
        };
        proof {
            assert(256u32 & 0xffu32 == 0 && (f << 8u32) & 0xffu32 == 0) by (bit_vector);
        }
        let ghost w0 = weight@;
        weight.set(i + 1, (w, i as u16));
        proof {
            if dom {
                lemma_weight_bits(0, 0, 0, f);
                assert(f < 0x10000);
                assert(w as int == 256 * unit_weight(f));
                if i != x {
                    assert(eob * unit_weight(f) < wx);
                    assert(light((w, i as u16), eob as int, wx)) by {
                        assert((w as int) / 256 == unit_weight(f));
                        assert(unit_weight(f) * eob == eob * unit_weight(f)) by (nonlinear_arith);
                    }
                    assert(i as u16 != x as u16);
                } else {
                    assert(unit_weight(f) == wx);
                }
                assert(okq(weight@[i + 1], eob as int, wx, x));
                assert forall|q: int| 1 <= q <= i + 1 implies okq(#[trigger] weight@[q], eob as int, wx, x) by {
                    if q <= i {
                        assert(weight@[q] == w0[q]);
                    }
                }
            }
            assert forall|k: int| 1 <= k < i implies !pair_lt(#[trigger] weight@[k], weight@[k / 2]) by {
                assert(weight@[k] == w0[k]);
                assert(weight@[k / 2] == w0[k / 2]);
            }
            assert(heap_upto(weight@, i as int));
            let w1 = weight@;
            lemma_bag_same(w1, w0, 1, i + 1);
            lemma_bag_push(w1, 1, i + 1);
            assert(Seq::new((i + 1) as nat, |k: int| k as u16) =~= Seq::new(i as nat, |k: int| k as u16).push(
                i as u16,
            ));
            assert(sym_bag(w1, 1, i + 2) == syms_upto(i + 1));
            lemma_slide_bag(w1, i as int, i + 2);
            lemma_slide_syms(weight@, i as int, eob as int);
            lemma_slide_len(weight@, i as int);
        }
        let ghost wb = weight@;
        push_big_down(&mut weight, i);
        proof {
            if dom {
                lemma_slide_okq(wb, i as int, eob as int, wx, x);
                assert forall|q: int| 1 <= q <= i + 1 implies okq(#[trigger] weight@[q], eob as int, wx, x) by {
                    if q > i {
                        if on_path(i as int, q) {
                            lemma_on_path_le(i as int, q);
                        }
                        assert(weight@[q] == wb[q]);
                    }
                }
                if i == eob {
                    if on_path(i as int, n - 1) {
                        lemma_on_path_le(i as int, n - 1);
                    }
                    assert(weight@[n - 1] == wb[n - 1]);
                }
            }
        }
        i = i + 1;
    }
    loop
        invariant
            n == eob + 2,
            weight@.len() == n,
            pair_syms_ok(weight@, eob as int),
            (eob as int) < codes@.len(),
            codes@ == old(codes)@,
            sym_bag(weight@, 1, n as int) == syms_upto(eob + 1),
            x == dominant_symbol(sym_weight@, eob as int),
            dom == dominant(sym_weight@, eob as int, x),
            dom ==> wx == sym_weight@[x] as int && xp.0 as int == 256 * wx && xp.1 == x as u16,
            dom ==> 0 < wx < 0x10000,
            dom ==> forall|q: int| 1 <= q < n ==> okq(#[trigger] weight@[q], eob as int, wx, x),
            dom && x == eob ==> weight@[n - 1] == xp,
            dom ==> heap_upto(weight@, eob + 1),
        decreases measure(weight@, eob as int + 1),
    {
        // Where the dominant symbol's pair stands: once, and not among the first two
        // pairs taken (or last, with fewer than three symbols besides it).
        let ghost i0: int = choose|q: int| 1 <= q < n && weight@[q].1 == x as u16;
        proof {
            if dom {
                broadcast use vstd::multiset::group_multiset_axioms;
                let m = weight@.subrange(1, n as int).map_values(|p: (u32, u16)| p.1);
                let all = Seq::new((eob + 1) as nat, |k: int| k as u16);
                assert(all[x] == x as u16);
                assert(all.contains(x as u16));
                assert(all.to_multiset().count(x as u16) > 0);
                assert(m.to_multiset().count(x as u16) > 0);
                assert(m.contains(x as u16));
                let km = choose|k: int| 0 <= k < m.len() && m[k] == x as u16;
                assert(weight@[km + 1].1 == x as u16);
                assert(1 <= i0 < n && weight@[i0].1 == x as u16);
                assert(all.no_duplicates());
                all.lemma_multiset_has_no_duplicates();
                assert forall|q: int| 1 <= q < n && q != i0 implies #[trigger] weight@[q].1 != x as u16 by {
                    if weight@[q].1 == x as u16 {
                        assert(m[q - 1] == weight@[q].1);
                        assert(m[i0 - 1] == weight@[i0].1);
                        lemma_twice(m, q - 1, i0 - 1);
                    }
                }
                assert(okq(weight@[i0], eob as int, wx, x));
                assert(weight@[i0] == xp);
                if x == eob {
                    if i0 != n - 1 {
                        assert(weight@[n - 1].1 == x as u16);
                    }
                } else {
                    if i0 == 1 {
                        assert(!pair_lt(weight@[2], weight@[1]));
                        assert(okq(weight@[2], eob as int, wx, x));
                        lemma_light_lt(weight@[2], eob as int, wx);
                    }
                    if i0 == 2 {
                        assert(!pair_lt(weight@[4], weight@[2]));
                        assert(okq(weight@[4], eob as int, wx, x));
                        lemma_light_lt(weight@[4], eob as int, wx);
                    }
                }
            }
        }
        // Turn the array into a tree, lightest weights last
        let mut tree: Vec<Node> = Vec::with_capacity(n);
        let mut k: usize = n - 1;
        while k >= 1
            invariant
                k < n,
                n == eob + 2,
                weight@.len() == n,
                pair_syms_ok(weight@, eob as int),
                forest_ok(tree@, eob as int),
                tree@.len() == n - 1 - k,
                forest_syms(tree@) == sym_bag(weight@, k + 1, n as int),
                sym_bag(weight@, 1, n as int) == syms_upto(eob + 1),
                dom == dominant(sym_weight@, eob as int, x),
                dom ==> wx == sym_weight@[x] as int && xp.0 as int == 256 * wx && xp.1 == x as u16,
                dom ==> 0 < wx < 0x10000,
                dom ==> 1 <= i0 < n && weight@[i0] == xp,
                dom ==> forall|q: int| 1 <= q < n && q != i0 ==> light(#[trigger] weight@[q], eob as int, wx),
                dom ==> forall|t: int| 0 <= t < tree@.len() && t == n - 1 - i0 ==> tree@[t] == x_leaf(wx, x),
                dom ==> forall|t: int| 0 <= t < tree@.len() && t != n - 1 - i0 ==> node_small(#[trigger] tree@[t], eob as int, wx),
            decreases k,
        {
            let (f, m) = weight[k];
            let leaf = Node::new(f, 0, 0, NodeData::Leaf(m));
            let ghost tb = tree@;
            tree.push(leaf);
            proof {
                if dom {
                    if k != i0 {
                        assert(light(weight@[k as int], eob as int, wx));
                        assert(leaf_syms(leaf) =~= Multiset::singleton(m));
                        assert(leaf_syms(leaf).len() == 1);
                        assert(node_small(leaf, eob as int, wx));
                    } else {
                        assert(leaf == x_leaf(wx, x));
                    }
                    assert forall|t: int| 0 <= t < tree@.len() && t != n - 1 - i0 implies node_small(#[trigger] tree@[t], eob as int, wx) by {
                        if t < tb.len() {
                            assert(tree@[t] == tb[t]);
                        }
                    }
                    assert forall|t: int| 0 <= t < tree@.len() && t == n - 1 - i0 implies tree@[t] == x_leaf(wx, x) by {
                        if t < tb.len() {
                            assert(tree@[t] == tb[t]);
                        }
                    }
                }
                assert(tree@.drop_last() =~= tb);
                lemma_bag_front(weight@, k as int, n as int);
                assert(node_ok(leaf, eob as int));
                assert(forest_ok(tree@, eob as int));
            }
            k = k - 1;
        }
        // ...then pare it down to one single node with child nodes - keep it sorted.
        let ghost mut done = false;
        let ghost mut jx: int = n - 1 - i0;
        proof {
            if dom {
                assert(tree@.len() == eob + 1);
                assert(tree@[jx] == x_leaf(wx, x));
            }
        }
        while tree.len() > 1
            invariant
                forest_ok(tree@, eob as int),
                tree@.len() >= 1,
                codes@ == old(codes)@,
                forest_syms(tree@) == syms_upto(eob + 1),
                x == dominant_symbol(sym_weight@, eob as int),
                dom == dominant(sym_weight@, eob as int, x),
                dom ==> wx == sym_weight@[x] as int,
                dom ==> 0 < wx < 0x10000,
                dom && !done ==> tree@.len() >= 2 && 0 <= jx < tree@.len() && tree@[jx] == x_leaf(wx, x),
                dom && !done ==> (tree@.len() >= 3 ==> jx + 3 <= tree@.len()) && (tree@.len() == 2 ==> jx == 0),
                dom && !done ==> forall|t: int| 0 <= t < tree@.len() && t != jx ==> node_small(#[trigger] tree@[t], eob as int, wx),
                dom && done ==> tree@.len() == 1 && x_child(tree@[0], x, eob as int, wx),
            decreases tree@.len(),
        {
            let ghost t0 = tree@;
            let left_child = tree.pop().unwrap();
            let right_child = tree.pop().unwrap();
            proof {
                assert(node_ok(t0[t0.len() - 1], eob as int));
                assert(node_ok(t0[t0.len() - 2], eob as int));
                if dom {
                    assert(left_child == t0[t0.len() - 1]);
                    assert(right_child == t0[t0.len() - 2]);
                    assert(node_small(left_child, eob as int, wx));
                    lemma_merge_bounds(left_child, right_child, eob as int, wx, x);
                }
            }
            let wl = left_child.weight & 0xffffff00;
            let wr = right_child.weight & 0xffffff00;
            if wl > 0xffffffff - wr {
                proof {
                    assert forall|y: int| dominant(sym_weight@, eob as int, y) implies false by {
                        lemma_dominant_unique(sym_weight@, eob as int, x, y);
                    }
                }
                return Err(LengthError::WeightOverflow);
            }
            if left_child.depth == 255 || right_child.depth == 255 {
                proof {
                    assert forall|y: int| dominant(sym_weight@, eob as int, y) implies false by {
                        lemma_dominant_unique(sym_weight@, eob as int, x, y);
                    }
                }
                return Err(LengthError::TooDeep);
            }
            let depth = if left_child.depth >= right_child.depth {
                left_child.depth + 1
            } else {
                right_child.depth + 1
            };
            let weight_sum = add_weights(left_child.weight, right_child.weight);
            let parent = Node::new(
                weight_sum,
                depth,
                0,
                NodeData::Kids(Box::new(left_child), Box::new(right_child)),
            );
            proof {
                assert(node_ok(parent, eob as int));
            }
            let ghost gp = parent;
            let ghost gl = t0[t0.len() - 1];
            let ghost gr = t0[t0.len() - 2];
            tree.push(parent);
            let ghost t1 = tree@;
            proof {
                assert(forest_ok(t1, eob as int));
                let rest = t0.take(t0.len() - 2);
                assert(t0.drop_last() =~= rest.push(t0[t0.len() - 2]));
                assert(t0.drop_last().drop_last() =~= rest);
                assert(t1.drop_last() =~= rest);
                let l0 = t0[t0.len() - 1];
                let r0 = t0[t0.len() - 2];
                assert(t0.last() == l0);
                assert(t0.drop_last().last() == r0);
                assert(forest_syms(t0) == forest_syms(t0.drop_last()).add(leaf_syms(l0)));
                assert(forest_syms(t0.drop_last()) == forest_syms(rest).add(leaf_syms(r0)));
                assert(t1.last() == parent);
                assert(leaf_syms(parent) == leaf_syms(left_child).add(leaf_syms(right_child)));
                assert(forest_syms(t1) == forest_syms(rest).add(leaf_syms(parent)));
                assert(forest_syms(t1) =~= forest_syms(t0));
                if dom {
                    assert(merged(gp, gl, gr));
                    if t0.len() >= 3 {
                        broadcast use vstd::multiset::group_multiset_axioms;
                        assert(rest[jx] == x_leaf(wx, x));
                        lemma_forest_remove(rest, jx);
                        assert(leaf_syms(rest[jx]) =~= Multiset::singleton(x as u16));
                        assert(Seq::new((eob + 1) as nat, |k: int| k as u16).to_multiset().len() == eob + 1);
                        assert(forest_syms(t0).len() == eob + 1);
                        assert(forest_syms(t0).len() == forest_syms(rest).len() + leaf_syms(gr).len() + leaf_syms(gl).len());
                        assert(forest_syms(rest).len() >= 1);
                        lemma_merge_parent(gp, gl, gr, eob as int, wx, x);
                        assert forall|t: int| 0 <= t < t1.len() && t != jx implies node_small(#[trigger] t1[t], eob as int, wx) by {
                            if t < t1.len() - 1 {
                                assert(t1[t] == t0[t]);
                            }
                        }
                        assert(t1[jx] == t0[jx]);
                    } else {
                        assert(gr == t0[0]);
                        if node_small(gr, eob as int, wx) {
                            lemma_small_lighter(gr, eob as int, wx, x);
                        }
                        lemma_merge_parent(gp, gl, gr, eob as int, wx, x);
                    }
                }
            }
            let ghost was_two = t0.len() == 2;
            sort_by_weight_desc(&mut tree);
            proof {
                if dom {
                    if was_two {
                        assert(tree@.len() == 1);
                        assert(tree@.to_multiset().count(tree@[0]) > 0);
                        assert(t1.to_multiset().count(tree@[0]) > 0);
                        assert(t1.contains(tree@[0]));
                        assert(tree@[0] == gp);
                        done = true;
                    } else {
                        lemma_sorted_x_first(t1, tree@, jx, eob as int, wx, x);
                        jx = 0;
                    }
                }
                lemma_forest_perm(t1, tree@);
                assert forall|k: int| 0 <= k < tree@.len() implies node_ok(#[trigger] tree@[k], eob as int) by {
                    let x = tree@[k];
                    assert(tree@.contains(x));
                    assert(tree@.to_multiset().count(x) > 0);
                    assert(t1.to_multiset().count(x) > 0);
                    assert(t1.contains(x));
                    let j = choose|j: int| 0 <= j < t1.len() && t1[j] == x;
                    assert(node_ok(t1[j], eob as int));
                }
            }
        }
        proof {
            if dom {
                assert(done);
                let root = tree@[0];
                assert(node_ok(root, eob as int));
                match root.node_data {
                    NodeData::Kids(l, r) => {
                        assert(height(*l) + 1 <= eob);
                        assert(height(*r) == 0);
                    },
                    NodeData::Leaf(_) => {},
                }
                assert(root.depth <= 17);
            }
        }
        // If the tree depth <= 17 copy the new depths back into the code table.
        if tree[0].depth <= 17 {
            let mut leaves: Vec<(u16, u8)> = Vec::new();
            proof {
                assert(node_ok(tree@[0], eob as int));
            }
            return_leaves(&tree[0], 0, &mut leaves);
            let ghost root = tree@[0];
            proof {
                assert(tree@.len() == 1);
                assert(tree@.drop_last() =~= Seq::<Node>::empty());
                assert(forest_syms(Seq::<Node>::empty()) == Multiset::<u16>::empty());
                assert(forest_syms(tree@) == forest_syms(tree@.drop_last()).add(leaf_syms(tree@.last())));
                assert(forest_syms(tree@) =~= leaf_syms(root));
                assert(leaves@ =~= leaf_list(root, 0));
                lemma_leaf_syms(root, 0, eob as int);
                lemma_leaf_depths(root, 0);
            }
            let mut m: usize = 0;
            while m < leaves.len()
                invariant
                    m <= leaves@.len(),
                    leaves@ == leaf_list(root, 0),
                    forall|q: int| 0 <= q < leaves@.len() ==> (leaves@[q].0 as int) <= eob,
                    forall|q: int| 0 <= q < leaves@.len() ==> leaves@[q].1 <= 17,
                    (eob as int) < old(codes)@.len(),
                    codes@ == apply_leaves(old(codes)@, leaves@.take(m as int)),
                    codes@.len() == old(codes)@.len(),
                    forall|k: int| eob < k < codes@.len() ==> codes@[k] == old(codes)@[k],
                decreases leaves@.len() - m,
            {
                let (idx, len) = leaves[m];
                proof {
                    lemma_apply_len(old(codes)@, leaves@.take(m as int));
                lemma_apply_len(old(codes)@, leaves@.take(m + 1));
                    assert(leaves@.take(m + 1).drop_last() =~= leaves@.take(m as int));
                }
                codes[idx as usize] = len as u32;
                m = m + 1;
            }
            proof {
                assert(leaves@.take(leaves@.len() as int) =~= leaves@);
                assert(height(root) <= 17);
                lemma_apply_len(old(codes)@, leaves@);
                lemma_complete_code(old(codes)@, codes@, root, eob as int);
                assert(node_ok(root, eob as int) && leaf_syms(root) == syms_upto(eob + 1) && height(root) <= 17
                    && codes@ == apply_leaves(old(codes)@, leaf_list(root, 0)));
                if dom {
                    assert(x_child(root, x, eob as int, wx));
                    match root.node_data {
                        NodeData::Kids(l, r) => {
                            assert(leaf_list(*r, 1) =~= seq![(x as u16, 1u8)]);
                            assert(leaf_list(root, 0) == leaf_list(*l, 1) + leaf_list(*r, 1));
                            let ll = leaf_list(root, 0);
                            assert(ll.last() == (x as u16, 1u8));
                            assert(codes@ == apply_leaves(old(codes)@, ll.drop_last()).update(x, 1u32));
                            lemma_apply_len(old(codes)@, ll.drop_last());
                            assert(codes@[x] == 1);
                        },
                        NodeData::Leaf(_) => {},
                    }
                }
            }
            proof {
                assert forall|y: int| dominant(sym_weight@, eob as int, y) implies codes@[y] == 1 by {
                    lemma_dominant_unique(sym_weight@, eob as int, x, y);
                }
            }
            return Ok(());
        }
        // Otherwise adjust weights: halve the part above the low byte and add 1.
        let ghost before = weight@;
        let mut changed = false;
        let mut q: usize = 0;
        proof {
            lemma_measure_nonneg(weight@, 0);
        }
        while q < eob as usize + 1
            invariant
                q <= eob + 1,
                n == eob + 2,
                weight@.len() == n,
                before.len() == n,
                pair_syms_ok(weight@, eob as int),
                forall|r: int| q <= r < n ==> weight@[r] == before[r],
                forall|r: int| 0 <= r < q ==> weight@[r].0 == flat_weight(before[r].0) && weight@[r].1 == before[r].1,
                measure(weight@, q as int) <= measure(before, q as int),
                changed ==> measure(weight@, q as int) < measure(before, q as int),
                !changed ==> forall|r: int| 0 <= r < q ==> weight@[r] == before[r],
            decreases eob + 1 - q,
        {
            let (w, s) = weight[q];
            proof {
                assert(w & 0xffu32 == 0);
            }
            let j = w >> 8;
            let nj = 1 + j / 2;
            let nw = nj << 8;
            proof {
                lemma_flat_step(w);
                assert(nw == flat_weight(w));
            }
            if nw != w {
                changed = true;
            }
            let ghost w_old = weight@;
            weight.set(q, (nw, s));
            proof {
                lemma_measure_prefix(weight@, w_old, q as int);
                assert(measure(weight@, q + 1) == measure(weight@, q as int) + phi(nw));
                assert(measure(before, q + 1) == measure(before, q as int) + phi(w));
                assert(pair_syms_ok(weight@, eob as int));
            }
            q = q + 1;
        }
        if !changed {
            proof {
                assert forall|y: int| dominant(sym_weight@, eob as int, y) implies false by {
                    lemma_dominant_unique(sym_weight@, eob as int, x, y);
                }
            }
            return Err(LengthError::NoProgress);
        }
        proof {
            lemma_bag_same(weight@, before, 1, n as int);
            lemma_measure_nonneg(weight@, eob as int + 1);
            assert(measure(weight@, eob as int + 1) < measure(before, eob as int + 1));
        }
    }
}

/// The codes hold, for the symbols `0..n`, the lengths of a balanced complete code: with
/// `l` the least number of bits that tell `n` symbols apart, the first `2^l - n` symbols
/// get `l - 1` bits and the others `l`.
pub open spec fn balanced_lengths(c: Seq<u32>, n: int) -> bool {
    exists|l: nat|
        #![trigger pow2(l)]
        {
            &&& n <= pow2(l)
            &&& (l == 0 || pow2((l - 1) as nat) < n)
            &&& forall|s: int| 0 <= s < n ==> #[trigger] c[s] == if s < pow2(l) - n {
                (l - 1) as u32
            } else {
                l as u32
            }
        }
}

/// The Kraft sum of the first `m` of `n` lengths, where the first `a` are `l - 1` and the
/// rest `l`.
proof fn lemma_kraft_two_lengths(c: Seq<u32>, n: int, a: int, l: nat, m: int)
    requires
        1 <= l <= 17,
        0 <= a <= n,
        0 <= m <= n <= c.len(),
        forall|s: int| 0 <= s < n ==> #[trigger] c[s] == if s < a {
            (l - 1) as u32
        } else {
            l as u32
        },
    ensures
        kraft(c, m) == if m <= a {
            m * pow2((18 - l) as nat)
        } else {
            a * pow2((18 - l) as nat) + (m - a) * pow2((17 - l) as nat)
        },
    decreases m,
{
    let p2 = pow2((18 - l) as nat) as int;
    let p1 = pow2((17 - l) as nat) as int;
    if m == 0 {
        assert(kraft(c, 0) == 0);
        assert(0 * p2 == 0);
    } else {
        lemma_kraft_two_lengths(c, n, a, l, m - 1);
        assert(kraft(c, m) == kraft(c, m - 1) + pow2((17 - c[m - 1]) as nat));
        if m <= a {
            assert(c[m - 1] == (l - 1) as u32);
            assert((17 - c[m - 1]) as nat == (18 - l) as nat);
            assert(kraft(c, m - 1) == (m - 1) * p2);
            assert((m - 1) * p2 + p2 == m * p2) by (nonlinear_arith);
        } else {
            assert(c[m - 1] == l as u32);
            assert((17 - c[m - 1]) as nat == (17 - l) as nat);
            if m - 1 <= a {
                assert(m - 1 == a);
                assert(kraft(c, m - 1) == a * p2);
                assert((m - a) * p1 == p1) by (nonlinear_arith)
                    requires
                        m - a == 1,
                ;
            } else {
                assert(kraft(c, m - 1) == a * p2 + (m - 1 - a) * p1);
                assert((m - 1 - a) * p1 + p1 == (m - a) * p1) by (nonlinear_arith);
            }
        }
    }
}

/// A balanced complete code over `n` symbols, `1 <= n <= 2^16`: the lengths of
/// [`balanced_lengths`], none above 16, with a Kraft sum of exactly `2^17`.
fn balanced_code_lengths(codes: &mut [u32], n: usize)
    requires
        1 <= n <= 0x10000,
        n <= old(codes)@.len(),
    ensures
        final(codes)@.len() == old(codes)@.len(),
        balanced_lengths(final(codes)@, n as int),
        kraft(final(codes)@, n as int) == pow2(17),
        n >= 2 ==> forall|s: int| 0 <= s < n ==> 1 <= #[trigger] final(codes)@[s] <= 16,
        forall|k: int| n <= k < final(codes)@.len() ==> final(codes)@[k] == old(codes)@[k],
{
    proof {
        vstd::arithmetic::power2::lemma2_to64();
    }
    let mut l: u32 = 0;
    let mut p: usize = 1;
    while p < n
        invariant
            1 <= n <= 0x10000,
            p == pow2(l as nat),
            p <= 0x10000,
            l <= 16,
            l == 0 || pow2((l - 1) as nat) < n,
        decreases 0x20000 - p,
    {
        proof {
            vstd::arithmetic::power2::lemma2_to64();
            vstd::arithmetic::power2::lemma_pow2_unfold((l + 1) as nat);
            if l >= 16 {
                assert(pow2(16) == 0x10000);
                vstd::arithmetic::power2::lemma_pow2_strictly_increases(16, l as nat);
            }
        }
        p = p * 2;
        l = l + 1;
    }
    let a = p - n;
    let mut s: usize = 0;
    while s < n
        invariant
            s <= n <= codes@.len(),
            codes@.len() == old(codes)@.len(),
            a == pow2(l as nat) - n,
            forall|k: int| 0 <= k < s ==> #[trigger] codes@[k] == if k < a {
                (l - 1) as u32
            } else {
                l as u32
            },
            forall|k: int| s <= k < codes@.len() ==> codes@[k] == old(codes)@[k],
            l == 0 ==> a == 0,
        decreases n - s,
    {
        if s < a {
            codes[s] = l - 1;
        } else {
            codes[s] = l;
        }
        s = s + 1;
    }
    proof {
        assert(balanced_lengths(codes@, n as int)) by {
            assert(n <= pow2(l as nat));
        }
        if l == 0 {
            assert(codes@[0] == 0);
            assert(kraft(codes@, 0) == 0);
            assert(kraft(codes@, 1) == pow2(17));
        } else {
            if l == 1 {
                assert(pow2(0) == 1);
            }
            lemma_kraft_two_lengths(codes@, n as int, a as int, l as nat, n as int);
            let q = pow2((17 - l) as nat);
            vstd::arithmetic::power2::lemma_pow2_adds(1, (17 - l) as nat);
            assert(pow2((18 - l) as nat) == 2 * q) by {
                assert((1 + (17 - l)) as nat == (18 - l) as nat);
            }
            vstd::arithmetic::power2::lemma_pow2_adds(l as nat, (17 - l) as nat);
            assert((l + (17 - l)) as nat == 17);
            assert(a * (2 * q) + (n - a) * q == (a + n) * q) by (nonlinear_arith);
            if n >= 2 {
                assert forall|k: int| 0 <= k < n implies 1 <= #[trigger] codes@[k] <= 16 by {
                    if k < a && l == 1 {
                        assert(false);
                    }
                }
            }
        }
    }
}

/// Improve a slice of Huffman codes lengths (u8) using a slice of
/// codes, symbol weights, and knowlege of how many symbols are valid. The codes of the
/// symbols `0..=eob` become the depths of the leaves of a Huffman tree built from the
/// weights and flattened until at most 17 deep; where that tree cannot be built (see
/// [`weighted_code_lengths`]), they become a balanced complete code. Either way they form
/// a complete prefix code of lengths 1 to 17, and the other codes are left as they were.
/// The weights decide the lengths: where one symbol outweighs each other symbol more than
/// `eob` times over ([`dominant`]), the tree is built from the weights and that symbol gets
/// a one-bit code.
pub fn improve_code_len_from_weights(codes: &mut [u32], sym_weight: &[u32], eob: u16)
    requires
        (eob as int) < old(codes)@.len(),
        (eob as int) < sym_weight@.len(),
    ensures
        final(codes)@.len() == old(codes)@.len(),
        tree_lengths(old(codes)@, final(codes)@, eob as int) || balanced_lengths(final(codes)@, eob + 1),
        kraft(final(codes)@, eob + 1) == pow2(17),
        eob >= 1 ==> forall|s: int| 0 <= s <= eob ==> 1 <= #[trigger] final(codes)@[s] <= 17,
        forall|k: int| eob < k < final(codes)@.len() ==> final(codes)@[k] == old(codes)@[k],
        forall|x: int| dominant(sym_weight@, eob as int, x) ==> tree_lengths(old(codes)@, final(codes)@, eob as int),
        forall|x: int| dominant(sym_weight@, eob as int, x) ==> final(codes)@[x] == 1,
{
    match weighted_code_lengths(codes, sym_weight, eob) {
        Ok(()) => {},
        Err(_) => {
            balanced_code_lengths(codes, eob as usize + 1);
        },
    }
}

/// The measure looks only at the weights before `k`.
proof fn lemma_measure_prefix(a: Seq<(u32, u16)>, b: Seq<(u32, u16)>, k: int)
    requires
        0 <= k <= a.len(),
        k <= b.len(),
        forall|r: int| 0 <= r < k ==> a[r] == b[r],
    ensures
        measure(a, k) == measure(b, k),
    decreases k,
{
    if k > 0 {
        lemma_measure_prefix(a, b, k - 1);
    }
}

} // verus!
