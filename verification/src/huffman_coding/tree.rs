//! Huffman trees for the code lengths of a block: the nodes, and the sort that keeps the
//! forest ordered by weight while it is paired down to one tree.
use vstd::prelude::*;
use vstd::multiset::Multiset;

verus! {

broadcast use vstd::seq_lib::group_to_multiset_ensures;

/// A node holds two subtrees or a symbol.
#[derive(Eq, PartialEq, Debug)]
pub enum NodeData {
    Kids(Box<Node>, Box<Node>),
    Leaf(u16),
}

/// A node of a Huffman tree: its weight, its depth (the height of the tree below it),
/// a symbol count and its data.
#[derive(Eq, PartialEq, Debug)]
pub struct Node {
    pub weight: u32,
    pub depth: u8,
    pub syms: u32,
    pub node_data: NodeData,
}

impl Node {
    /// Create a new node
    pub fn new(weight: u32, depth: u8, syms: u32, node_data: NodeData) -> (n: Node)
        ensures
            n == (Node { weight, depth, syms, node_data }),
    {
        Node { weight, depth, syms, node_data }
    }
}

/// The height of the tree below a node: 0 for a leaf.
pub open spec fn height(n: Node) -> nat
    decreases n,
{
    match n.node_data {
        NodeData::Leaf(_) => 0,
        NodeData::Kids(l, r) => {
            let hl = height(*l);
            let hr = height(*r);
            1 + if hl >= hr {
                hl
            } else {
                hr
            }
        },
    }
}

/// Every symbol of the tree is at most `bound`.
pub open spec fn syms_at_most(n: Node, bound: int) -> bool
    decreases n,
{
    match n.node_data {
        NodeData::Leaf(s) => s as int <= bound,
        NodeData::Kids(l, r) => syms_at_most(*l, bound) && syms_at_most(*r, bound),
    }
}

/// The node's depth field is its height, and its symbols are at most `bound`.
pub open spec fn node_ok(n: Node, bound: int) -> bool {
    n.depth as int == height(n) && syms_at_most(n, bound)
}

/// The leaves of a tree from left to right, each with its depth counted from `d` at the node.
pub open spec fn leaf_list(n: Node, d: int) -> Seq<(u16, u8)>
    decreases n,
{
    match n.node_data {
        NodeData::Leaf(s) => seq![(s, d as u8)],
        NodeData::Kids(l, r) => leaf_list(*l, d + 1) + leaf_list(*r, d + 1),
    }
}

/// The symbols at the leaves of a tree.
pub open spec fn leaf_syms(n: Node) -> Multiset<u16>
    decreases n,
{
    match n.node_data {
        NodeData::Leaf(s) => Multiset::singleton(s),
        NodeData::Kids(l, r) => leaf_syms(*l).add(leaf_syms(*r)),
    }
}

/// The symbols at the leaves of every tree of a forest.
pub open spec fn forest_syms(f: Seq<Node>) -> Multiset<u16>
    decreases f.len(),
{
    if f.len() == 0 {
        Multiset::empty()
    } else {
        forest_syms(f.drop_last()).add(leaf_syms(f.last()))
    }
}

/// The leaves listed hold the tree's symbols.
pub proof fn lemma_leaf_list_syms(n: Node, d: int)
    ensures
        leaf_list(n, d).map_values(|x: (u16, u8)| x.0).to_multiset() == leaf_syms(n),
    decreases n,
{
    broadcast use vstd::seq_lib::lemma_multiset_commutative;
    match n.node_data {
        NodeData::Leaf(s) => {
            assert(leaf_list(n, d).map_values(|x: (u16, u8)| x.0) =~= Seq::<u16>::empty().push(s));
            assert(Multiset::<u16>::empty().insert(s) =~= Multiset::singleton(s));
        },
        NodeData::Kids(l, r) => {
            lemma_leaf_list_syms(*l, d + 1);
            lemma_leaf_list_syms(*r, d + 1);
            let a = leaf_list(*l, d + 1);
            let b = leaf_list(*r, d + 1);
            assert((a + b).map_values(|x: (u16, u8)| x.0) =~= a.map_values(|x: (u16, u8)| x.0) + b.map_values(
                |x: (u16, u8)| x.0,
            ));
        },
    }
}

/// Taking one tree out of a forest takes its symbols out.
pub(crate) proof fn lemma_forest_remove(f: Seq<Node>, j: int)
    requires
        0 <= j < f.len(),
    ensures
        forest_syms(f) == forest_syms(f.remove(j)).add(leaf_syms(f[j])),
    decreases f.len(),
{
    if j == f.len() - 1 {
        assert(f.remove(j) =~= f.drop_last());
    } else {
        lemma_forest_remove(f.drop_last(), j);
        assert(f.remove(j).drop_last() =~= f.drop_last().remove(j));
        assert(f.remove(j).last() == f.last());
        assert(forest_syms(f) =~= forest_syms(f.remove(j)).add(leaf_syms(f[j])));
    }
}

/// A forest holds the same symbols in any order of its trees.
pub proof fn lemma_forest_perm(f: Seq<Node>, g: Seq<Node>)
    requires
        f.to_multiset() == g.to_multiset(),
    ensures
        forest_syms(f) == forest_syms(g),
    decreases f.len(),
{
    if f.len() == 0 {
        assert(g.len() == f.to_multiset().len());
        assert(g =~= Seq::<Node>::empty());
    } else {
        let x = f.last();
        assert(f =~= f.drop_last().push(x));
        assert(f.to_multiset().count(x) > 0);
        assert(g.to_multiset().count(x) > 0);
        assert(g.contains(x));
        let j = choose|j: int| 0 <= j < g.len() && g[j] == x;
        let g2 = g.remove(j);
        assert(g2.to_multiset() =~= f.drop_last().to_multiset());
        lemma_forest_perm(f.drop_last(), g2);
        lemma_forest_remove(g, j);
    }
}

/// Sorts the forest by decreasing weight with `slice::sort_unstable_by`. The standard
/// library documents that the slice ends up sorted by the comparison (here, heavier
/// nodes first) and holds the same elements; equal weights may come in any order, and
/// the contract says nothing of that order.
#[verifier::external_body]
pub(crate) fn sort_by_weight_desc(tree: &mut Vec<Node>)
    ensures
        final(tree)@.to_multiset() == old(tree)@.to_multiset(),
        final(tree)@.len() == old(tree)@.len(),
        forall|i: int, j: int| 0 <= i < j < final(tree)@.len() ==> final(tree)@[i].weight >= final(tree)@[j].weight,
{
    tree.sort_unstable_by(|a, b| b.weight.cmp(&a.weight));
}

/// Walk the tree and return in "leaves" how far (deep) from the root node each leaf is.
/// Depth is the same as the code length, and will be used to create actual codes later.
pub fn return_leaves(node: &Node, depth: u8, leaves: &mut Vec<(u16, u8)>)
    requires
        depth + height(*node) <= 255,
    ensures
        final(leaves)@ == old(leaves)@ + leaf_list(*node, depth as int),
    decreases *node,
{
    match &node.node_data {
        NodeData::Kids(left_child, right_child) => {
            return_leaves(left_child, depth + 1, leaves);
            return_leaves(right_child, depth + 1, leaves);
            proof {
                assert(old(leaves)@ + leaf_list(**left_child, depth + 1) + leaf_list(**right_child, depth + 1)
                    =~= old(leaves)@ + leaf_list(*node, depth as int));
            }
        },
        NodeData::Leaf(mtf) => {
            leaves.push((*mtf, depth));
        },
    }
}

} // verus!
