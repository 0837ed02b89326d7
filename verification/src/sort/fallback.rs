//! The three-way quicksort of the fallback sort: it orders a range of pointers by the
//! keys they point at.
use vstd::prelude::*;
use crate::sort::qsort::lemma_swap_multiset;

verus! {

broadcast use vstd::seq_lib::group_to_multiset_ensures;

/// The key that the pointer at `i` points at.
pub open spec fn key_at(bd: Seq<u16>, a: Seq<u32>, i: int) -> int {
    bd[a[i] as int] as int
}

/// The pointers `lo..=hi` are in ascending order of their keys.
pub open spec fn sorted_by_key(bd: Seq<u16>, a: Seq<u32>, lo: int, hi: int) -> bool {
    forall|i: int, j: int| lo <= i < j <= hi ==> key_at(bd, a, i) <= key_at(bd, a, j)
}

/// Every pointer `lo..=hi` points into the keys.
pub open spec fn in_bounds(bd: Seq<u16>, a: Seq<u32>, lo: int, hi: int) -> bool {
    forall|k: int| lo <= k <= hi ==> (a[k] as int) < bd.len()
}

/// `b` is `a` with the pointers `lo..=hi` rearranged among themselves.
pub open spec fn permuted_within(a: Seq<u32>, b: Seq<u32>, lo: int, hi: int) -> bool {
    &&& a.len() == b.len()
    &&& 0 <= lo <= hi + 1 <= a.len()
    &&& forall|k: int| 0 <= k < a.len() && !(lo <= k <= hi) ==> b[k] == a[k]
    &&& b.subrange(lo, hi + 1).to_multiset() == a.subrange(lo, hi + 1).to_multiset()
}

/// Rearranging a range within a wider one rearranges the wider one.
pub proof fn lemma_permuted_widen(a: Seq<u32>, b: Seq<u32>, lo: int, hi: int, lo2: int, hi2: int)
    requires
        permuted_within(a, b, lo, hi),
        0 <= lo2 <= lo,
        hi <= hi2 < a.len(),
        lo <= hi + 1,
    ensures
        permuted_within(a, b, lo2, hi2),
{
    let sa = a.subrange(lo2, hi2 + 1);
    let sb = b.subrange(lo2, hi2 + 1);
    assert(sa =~= a.subrange(lo2, lo) + a.subrange(lo, hi + 1) + a.subrange(hi + 1, hi2 + 1));
    assert(sb =~= b.subrange(lo2, lo) + b.subrange(lo, hi + 1) + b.subrange(hi + 1, hi2 + 1));
    assert(a.subrange(lo2, lo) =~= b.subrange(lo2, lo));
    assert(a.subrange(hi + 1, hi2 + 1) =~= b.subrange(hi + 1, hi2 + 1));
    vstd::seq_lib::lemma_multiset_commutative(a.subrange(lo2, lo) + a.subrange(lo, hi + 1), a.subrange(hi + 1, hi2 + 1));
    vstd::seq_lib::lemma_multiset_commutative(a.subrange(lo2, lo), a.subrange(lo, hi + 1));
    vstd::seq_lib::lemma_multiset_commutative(b.subrange(lo2, lo) + b.subrange(lo, hi + 1), b.subrange(hi + 1, hi2 + 1));
    vstd::seq_lib::lemma_multiset_commutative(b.subrange(lo2, lo), b.subrange(lo, hi + 1));
}

/// Rearrangements compose.
pub proof fn lemma_permuted_trans(a: Seq<u32>, b: Seq<u32>, c: Seq<u32>, lo: int, hi: int)
    requires
        permuted_within(a, b, lo, hi),
        permuted_within(b, c, lo, hi),
    ensures
        permuted_within(a, c, lo, hi),
{
}

/// A pointer of the rearranged range was in the range before.
proof fn lemma_permuted_source(a: Seq<u32>, b: Seq<u32>, lo: int, hi: int, j: int)
    requires
        permuted_within(a, b, lo, hi),
        lo <= j <= hi,
    ensures
        exists|k: int| lo <= k <= hi && a[k] == b[j],
{
    let sb = b.subrange(lo, hi + 1);
    let sa = a.subrange(lo, hi + 1);
    assert(sb[j - lo] == b[j]);
    assert(sb.to_multiset().contains(b[j]));
    assert(sa.contains(b[j]));
    let k = choose|k: int| 0 <= k < sa.len() && sa[k] == b[j];
    assert(a[lo + k] == b[j]);
}

/// Swaps the pointers at `i` and `j`.
fn swap_at(a: &mut [u32], i: usize, j: usize, Ghost(lo): Ghost<int>, Ghost(hi): Ghost<int>)
    requires
        lo <= i <= hi,
        lo <= j <= hi,
        0 <= lo,
        hi < old(a)@.len(),
    ensures
        final(a)@ == old(a)@.update(i as int, old(a)@[j as int]).update(j as int, old(a)@[i as int]),
        permuted_within(old(a)@, final(a)@, lo, hi),
{
    let ghost s = a@;
    let t = a[i];
    a[i] = a[j];
    a[j] = t;
    proof {
        let sub = s.subrange(lo, hi + 1);
        assert(a@.subrange(lo, hi + 1) =~= sub.update(i - lo, sub[j - lo]).update(j - lo, sub[i - lo]));
        lemma_swap_multiset(sub, i - lo, j - lo);
    }
}

/// Insertion sort of the pointers `lo..=hi` by their keys.
fn sort_small(a: &mut [u32], bd: &[u16], lo: usize, hi: usize)
    requires
        lo <= hi < old(a)@.len(),
        in_bounds(bd@, old(a)@, lo as int, hi as int),
    ensures
        permuted_within(old(a)@, final(a)@, lo as int, hi as int),
        in_bounds(bd@, final(a)@, lo as int, hi as int),
        sorted_by_key(bd@, final(a)@, lo as int, hi as int),
{
    let ghost orig = a@;
    if hi == lo {
        return;
    }
    let mut i: usize = lo + 1;
    while i <= hi
        invariant
            lo < i <= hi + 1,
            hi < a@.len(),
            permuted_within(orig, a@, lo as int, hi as int),
            in_bounds(bd@, a@, lo as int, hi as int),
            sorted_by_key(bd@, a@, lo as int, i - 1),
        decreases hi + 1 - i,
    {
        let mut j: usize = i;
        while j > lo && bd[a[j - 1] as usize] > bd[a[j] as usize]
            invariant
                lo <= j <= i <= hi,
                hi < a@.len(),
                permuted_within(orig, a@, lo as int, hi as int),
                in_bounds(bd@, a@, lo as int, hi as int),
                forall|p: int, q: int| lo <= p < q <= i && p != j && q != j ==> key_at(bd@, a@, p) <= key_at(bd@, a@, q),
                forall|q: int| j < q <= i ==> key_at(bd@, a@, j as int) <= key_at(bd@, a@, q),
            decreases j,
        {
            let ghost before = a@;
            let ghost jj = j as int;
            swap_at(a, j - 1, j, Ghost(lo as int), Ghost(hi as int));
            proof {
                lemma_permuted_trans(orig, before, a@, lo as int, hi as int);
                assert forall|k: int| lo <= k <= hi implies (a@[k] as int) < bd@.len() by {
                    if k == jj - 1 {
                        assert(a@[k] == before[jj]);
                    } else if k == jj {
                        assert(a@[k] == before[jj - 1]);
                    } else {
                        assert(a@[k] == before[k]);
                    }
                }
                assert forall|p: int, q: int| lo <= p < q <= i && p != jj - 1 && q != jj - 1 implies key_at(bd@, a@, p) <= key_at(bd@, a@, q) by {
                    let op = if p == jj { jj - 1 } else { p };
                    let oq = if q == jj { jj - 1 } else { q };
                    assert(a@[p] == before[op]);
                    assert(a@[q] == before[oq]);
                    assert(key_at(bd@, before, op) <= key_at(bd@, before, oq));
                }
                assert forall|q: int| jj - 1 < q <= i implies key_at(bd@, a@, jj - 1) <= #[trigger] key_at(bd@, a@, q) by {
                    assert(a@[jj - 1] == before[jj]);
                    if q == jj {
                        assert(a@[q] == before[jj - 1]);
                    } else {
                        assert(a@[q] == before[q]);
                        assert(key_at(bd@, before, jj) <= key_at(bd@, before, q));
                    }
                }
            }
            j = j - 1;
        }
        proof {
            assert forall|p: int, q: int| lo <= p < q <= i implies key_at(bd@, a@, p) <= key_at(bd@, a@, q) by {
                if q == j {
                    assert(j > lo);
                    assert(key_at(bd@, a@, j - 1) <= key_at(bd@, a@, j as int));
                    if p < j - 1 {
                        assert(key_at(bd@, a@, p) <= key_at(bd@, a@, j - 1));
                    }
                } else if p == j {
                } else {
                }
            }
        }
        i = i + 1;
    }
}

/// Swaps the `cnt` pointers from `p` with the `cnt` pointers from `q`, pairwise.
fn swap_blocks(a: &mut [u32], p: usize, q: usize, cnt: usize, Ghost(lo): Ghost<int>, Ghost(hi): Ghost<int>)
    requires
        hi < usize::MAX,
        0 <= lo <= p,
        p + cnt <= q,
        q + cnt <= hi + 1,
        hi < old(a)@.len(),
    ensures
        permuted_within(old(a)@, final(a)@, lo, hi),
        forall|x: int| p <= x < p + cnt ==> #[trigger] final(a)@[x] == old(a)@[q + (x - p)],
        forall|y: int| q <= y < q + cnt ==> #[trigger] final(a)@[y] == old(a)@[p + (y - q)],
        forall|k: int| 0 <= k < old(a)@.len() && !(p <= k < p + cnt) && !(q <= k < q + cnt) ==> final(a)@[k] == old(a)@[k],
{
    let ghost orig = a@;
    let mut i: usize = 0;
    proof {
        assert(orig.subrange(lo, hi + 1).to_multiset() == a@.subrange(lo, hi + 1).to_multiset());
    }
    while i < cnt
        invariant
            i <= cnt,
            hi < usize::MAX,
            0 <= lo <= p,
            p + cnt <= q,
            q + cnt <= hi + 1,
            hi < a@.len(),
            permuted_within(orig, a@, lo, hi),
            forall|x: int| p <= x < p + i ==> #[trigger] a@[x] == orig[q + (x - p)],
            forall|y: int| q <= y < q + i ==> #[trigger] a@[y] == orig[p + (y - q)],
            forall|k: int| 0 <= k < orig.len() && !(p <= k < p + i) && !(q <= k < q + i) ==> a@[k] == orig[k],
        decreases cnt - i,
    {
        let ghost before = a@;
        swap_at(a, p + i, q + i, Ghost(lo), Ghost(hi));
        proof {
            lemma_permuted_trans(orig, before, a@, lo, hi);
        }
        i = i + 1;
    }
}

/// The keys `lo..=hi` compare with `med` as the three-way partition leaves them: below
/// it up to `n`, equal to it up to `m - 1`, above it from `m`.
pub open spec fn partitioned(bd: Seq<u16>, a: Seq<u32>, lo: int, hi: int, n: int, m: int, med: int) -> bool {
    &&& lo - 1 <= n < m <= hi + 1
    &&& forall|k: int| lo <= k <= n ==> key_at(bd, a, k) < med
    &&& forall|k: int| n < k < m ==> key_at(bd, a, k) == med
    &&& forall|k: int| m <= k <= hi ==> key_at(bd, a, k) > med
}

/// Three-way partition of the pointers `lo..=hi` around the key `med`. `None` when
/// every key equals `med`.
fn partition3(a: &mut [u32], bd: &[u16], lo: i32, hi: i32, med: i32) -> (res: Option<(i32, i32)>)
    requires
        0 <= lo <= hi,
        (hi as int) < old(a)@.len(),
        hi < i32::MAX,
        in_bounds(bd@, old(a)@, lo as int, hi as int),
    ensures
        permuted_within(old(a)@, final(a)@, lo as int, hi as int),
        in_bounds(bd@, final(a)@, lo as int, hi as int),
        res is None ==> forall|k: int| lo <= k <= hi ==> key_at(bd@, final(a)@, k) == med,
        res matches Some((n, m)) ==> partitioned(bd@, final(a)@, lo as int, hi as int, n as int, m as int, med as int),
{
    let ghost orig = a@;
    let mut un_lo: i32 = lo;
    let mut lt_lo: i32 = lo;
    let mut un_hi: i32 = hi;
    let mut gt_hi: i32 = hi;
    loop
        invariant
            0 <= lo <= lt_lo <= un_lo <= un_hi + 1,
            un_hi <= gt_hi <= hi,
            (hi as int) < a@.len(),
            hi < i32::MAX,
            permuted_within(orig, a@, lo as int, hi as int),
            in_bounds(bd@, a@, lo as int, hi as int),
            forall|k: int| lo <= k < lt_lo ==> key_at(bd@, a@, k) == med,
            forall|k: int| lt_lo <= k < un_lo ==> key_at(bd@, a@, k) < med,
            forall|k: int| un_hi < k <= gt_hi ==> key_at(bd@, a@, k) > med,
            forall|k: int| gt_hi < k <= hi ==> key_at(bd@, a@, k) == med,
        ensures
            0 <= lo <= lt_lo <= un_lo == un_hi + 1,
            un_hi <= gt_hi <= hi,
            permuted_within(orig, a@, lo as int, hi as int),
            in_bounds(bd@, a@, lo as int, hi as int),
            forall|k: int| lo <= k < lt_lo ==> key_at(bd@, a@, k) == med,
            forall|k: int| lt_lo <= k < un_lo ==> key_at(bd@, a@, k) < med,
            forall|k: int| un_hi < k <= gt_hi ==> key_at(bd@, a@, k) > med,
            forall|k: int| gt_hi < k <= hi ==> key_at(bd@, a@, k) == med,
        decreases un_hi + 1 - un_lo,
    {
        let ghost d0 = un_hi - un_lo;
        loop
            invariant
                un_hi - un_lo <= d0,
                0 <= lo <= lt_lo <= un_lo <= un_hi + 1,
                un_hi <= gt_hi <= hi,
                (hi as int) < a@.len(),
                hi < i32::MAX,
                permuted_within(orig, a@, lo as int, hi as int),
                in_bounds(bd@, a@, lo as int, hi as int),
                forall|k: int| lo <= k < lt_lo ==> key_at(bd@, a@, k) == med,
                forall|k: int| lt_lo <= k < un_lo ==> key_at(bd@, a@, k) < med,
                forall|k: int| un_hi < k <= gt_hi ==> key_at(bd@, a@, k) > med,
                forall|k: int| gt_hi < k <= hi ==> key_at(bd@, a@, k) == med,
            ensures
                un_hi - un_lo <= d0,
                0 <= lo <= lt_lo <= un_lo <= un_hi + 1,
                un_hi <= gt_hi <= hi,
                permuted_within(orig, a@, lo as int, hi as int),
                in_bounds(bd@, a@, lo as int, hi as int),
                forall|k: int| lo <= k < lt_lo ==> key_at(bd@, a@, k) == med,
                forall|k: int| lt_lo <= k < un_lo ==> key_at(bd@, a@, k) < med,
                forall|k: int| un_hi < k <= gt_hi ==> key_at(bd@, a@, k) > med,
                forall|k: int| gt_hi < k <= hi ==> key_at(bd@, a@, k) == med,
                un_lo <= un_hi ==> key_at(bd@, a@, un_lo as int) > med,
            decreases un_hi + 1 - un_lo,
        {
            if un_lo > un_hi {
                break;
            }
            let kv = bd[a[un_lo as usize] as usize] as i32;
            if kv == med {
                let ghost before = a@;
                swap_at(a, un_lo as usize, lt_lo as usize, Ghost(lo as int), Ghost(hi as int));
                proof {
                    lemma_permuted_trans(orig, before, a@, lo as int, hi as int);
                    let (x, y) = (un_lo as int, lt_lo as int);
                    assert forall|k: int| lo <= k <= hi implies #[trigger] key_at(bd@, a@, k) == (if k == y {
                        key_at(bd@, before, x)
                    } else if k == x {
                        key_at(bd@, before, y)
                    } else {
                        key_at(bd@, before, k)
                    }) && (a@[k] as int) < bd@.len() by {
                        if k == y {
                            assert(a@[k] == before[x]);
                        } else if k == x {
                            assert(a@[k] == before[y]);
                        } else {
                            assert(a@[k] == before[k]);
                        }
                    }
                }
                lt_lo = lt_lo + 1;
                un_lo = un_lo + 1;
            } else if kv > med {
                break;
            } else {
                un_lo = un_lo + 1;
            }
        }
        loop
            invariant
                un_hi - un_lo <= d0,
                0 <= lo <= lt_lo <= un_lo <= un_hi + 1,
                un_hi <= gt_hi <= hi,
                (hi as int) < a@.len(),
                hi < i32::MAX,
                permuted_within(orig, a@, lo as int, hi as int),
                in_bounds(bd@, a@, lo as int, hi as int),
                forall|k: int| lo <= k < lt_lo ==> key_at(bd@, a@, k) == med,
                forall|k: int| lt_lo <= k < un_lo ==> key_at(bd@, a@, k) < med,
                forall|k: int| un_hi < k <= gt_hi ==> key_at(bd@, a@, k) > med,
                forall|k: int| gt_hi < k <= hi ==> key_at(bd@, a@, k) == med,
                un_lo <= un_hi ==> key_at(bd@, a@, un_lo as int) > med,
            ensures
                un_hi - un_lo <= d0,
                0 <= lo <= lt_lo <= un_lo <= un_hi + 1,
                un_hi <= gt_hi <= hi,
                permuted_within(orig, a@, lo as int, hi as int),
                in_bounds(bd@, a@, lo as int, hi as int),
                forall|k: int| lo <= k < lt_lo ==> key_at(bd@, a@, k) == med,
                forall|k: int| lt_lo <= k < un_lo ==> key_at(bd@, a@, k) < med,
                forall|k: int| un_hi < k <= gt_hi ==> key_at(bd@, a@, k) > med,
                forall|k: int| gt_hi < k <= hi ==> key_at(bd@, a@, k) == med,
                un_lo <= un_hi ==> key_at(bd@, a@, un_lo as int) > med,
                un_lo <= un_hi ==> key_at(bd@, a@, un_hi as int) < med,
            decreases un_hi + 1 - un_lo,
        {
            if un_lo > un_hi {
                break;
            }
            let kv = bd[a[un_hi as usize] as usize] as i32;
            if kv == med {
                let ghost before = a@;
                swap_at(a, un_hi as usize, gt_hi as usize, Ghost(lo as int), Ghost(hi as int));
                proof {
                    lemma_permuted_trans(orig, before, a@, lo as int, hi as int);
                    let (x, y) = (un_hi as int, gt_hi as int);
                    assert forall|k: int| lo <= k <= hi implies #[trigger] key_at(bd@, a@, k) == (if k == y {
                        key_at(bd@, before, x)
                    } else if k == x {
                        key_at(bd@, before, y)
                    } else {
                        key_at(bd@, before, k)
                    }) && (a@[k] as int) < bd@.len() by {
                        if k == y {
                            assert(a@[k] == before[x]);
                        } else if k == x {
                            assert(a@[k] == before[y]);
                        } else {
                            assert(a@[k] == before[k]);
                        }
                    }
                }
                gt_hi = gt_hi - 1;
                un_hi = un_hi - 1;
            } else if kv < med {
                break;
            } else {
                un_hi = un_hi - 1;
            }
        }
        if un_lo > un_hi {
            break;
        }
        let ghost before = a@;
        swap_at(a, un_lo as usize, un_hi as usize, Ghost(lo as int), Ghost(hi as int));
        proof {
            lemma_permuted_trans(orig, before, a@, lo as int, hi as int);
            let (x, y) = (un_lo as int, un_hi as int);
            assert forall|k: int| lo <= k <= hi implies #[trigger] key_at(bd@, a@, k) == (if k == y {
                key_at(bd@, before, x)
            } else if k == x {
                key_at(bd@, before, y)
            } else {
                key_at(bd@, before, k)
            }) && (a@[k] as int) < bd@.len() by {
                if k == y {
                    assert(a@[k] == before[x]);
                } else if k == x {
                    assert(a@[k] == before[y]);
                } else {
                    assert(a@[k] == before[k]);
                }
            }
        }
        un_lo = un_lo + 1;
        un_hi = un_hi - 1;
    }
    if gt_hi < lt_lo {
        return None;
    }
    let n1 = if lt_lo - lo < un_lo - lt_lo {
        lt_lo - lo
    } else {
        un_lo - lt_lo
    };
    let ghost a1 = a@;
    swap_blocks(a, lo as usize, (un_lo - n1) as usize, n1 as usize, Ghost(lo as int), Ghost(hi as int));
    let ghost a2 = a@;
    proof {
        lemma_permuted_trans(orig, a1, a2, lo as int, hi as int);
        let nn = lo + un_lo - lt_lo;
        assert forall|k: int| lo <= k < nn implies key_at(bd@, a2, k) < med by {
            if k < lo + n1 {
                assert(a2[k] == a1[un_lo - n1 + (k - lo)]);
                assert(key_at(bd@, a1, un_lo - n1 + (k - lo)) < med);
            } else {
                assert(a2[k] == a1[k]);
                assert(key_at(bd@, a1, k) < med);
            }
        }
        assert forall|k: int| nn <= k < un_lo implies key_at(bd@, a2, k) == med by {
            if k >= un_lo - n1 {
                assert(a2[k] == a1[lo + (k - (un_lo - n1))]);
                assert(key_at(bd@, a1, lo + (k - (un_lo - n1))) == med);
            } else {
                assert(a2[k] == a1[k]);
                assert(key_at(bd@, a1, k) == med);
            }
        }
        assert forall|k: int| un_lo <= k <= hi implies a2[k] == a1[k] by {}
        assert forall|k: int| lo <= k <= hi implies (a2[k] as int) < bd@.len() by {
            if k < lo + n1 {
                assert(a2[k] == a1[un_lo - n1 + (k - lo)]);
            } else if un_lo - n1 <= k < un_lo {
                assert(a2[k] == a1[lo + (k - (un_lo - n1))]);
            } else {
                assert(a2[k] == a1[k]);
            }
        }
    }
    let m1 = if hi - gt_hi < gt_hi - un_hi {
        hi - gt_hi
    } else {
        gt_hi - un_hi
    };
    swap_blocks(a, un_lo as usize, (hi - m1 + 1) as usize, m1 as usize, Ghost(lo as int), Ghost(hi as int));
    let ghost a3 = a@;
    let n = lo + (un_lo - lt_lo) - 1;
    let m = hi - (gt_hi - un_hi) + 1;
    proof {
        lemma_permuted_trans(orig, a2, a3, lo as int, hi as int);
        assert forall|k: int| lo <= k < un_lo implies a3[k] == a2[k] by {}
        assert forall|k: int| un_lo <= k < m implies key_at(bd@, a3, k) == med by {
            if k < un_lo + m1 {
                assert(a3[k] == a2[(hi - m1 + 1) + (k - un_lo)]);
                assert(a2[(hi - m1 + 1) + (k - un_lo)] == a1[(hi - m1 + 1) + (k - un_lo)]);
                assert(key_at(bd@, a1, (hi - m1 + 1) + (k - un_lo)) == med);
            } else {
                assert(a3[k] == a2[k]);
                assert(a2[k] == a1[k]);
                assert(key_at(bd@, a1, k) == med);
            }
        }
        assert forall|k: int| m <= k <= hi implies key_at(bd@, a3, k) > med by {
            if k >= hi - m1 + 1 {
                assert(a3[k] == a2[un_lo + (k - (hi - m1 + 1))]);
                assert(a2[un_lo + (k - (hi - m1 + 1))] == a1[un_lo + (k - (hi - m1 + 1))]);
                assert(key_at(bd@, a1, un_lo + (k - (hi - m1 + 1))) > med);
            } else {
                assert(a3[k] == a2[k]);
                assert(a2[k] == a1[k]);
                assert(key_at(bd@, a1, k) > med);
            }
        }
        assert forall|k: int| lo <= k <= hi implies (a3[k] as int) < bd@.len() by {
            if un_lo <= k < un_lo + m1 {
                assert(a3[k] == a2[(hi - m1 + 1) + (k - un_lo)]);
            } else if hi - m1 + 1 <= k <= hi {
                assert(a3[k] == a2[un_lo + (k - (hi - m1 + 1))]);
            } else {
                assert(a3[k] == a2[k]);
            }
        }
        assert forall|k: int| lo <= k <= n implies key_at(bd@, a3, k) < med by {
            assert(a3[k] == a2[k]);
            assert(key_at(bd@, a2, k) < med);
        }
        assert forall|k: int| n < k < m implies key_at(bd@, a3, k) == med by {
            if k < un_lo {
                assert(a3[k] == a2[k]);
                assert(key_at(bd@, a2, k) == med);
            }
        }
    }
    Some((n, m))
}

/// Whether the range `r` holds the position `i`.
pub open spec fn covers(r: (i32, i32), i: int) -> bool {
    r.0 <= i <= r.1
}

/// The pending ranges lie within `lo..=hi`, each possibly empty, and share no position.
pub open spec fn ranges_ok(st: Seq<(i32, i32)>, lo: int, hi: int) -> bool {
    &&& forall|t: int| 0 <= t < st.len() ==> lo <= #[trigger] st[t].0 && st[t].1 <= hi && st[t].0 <= st[t].1 + 1
    &&& forall|t1: int, t2: int, x: int|
        0 <= t1 < st.len() && 0 <= t2 < st.len() && t1 != t2 && #[trigger] covers(st[t1], x) ==> !#[trigger] covers(st[t2], x)
}

/// Every pair of pointers `lo..=hi` out of key order lies within one pending range.
pub open spec fn ordered_but(bd: Seq<u16>, a: Seq<u32>, st: Seq<(i32, i32)>, lo: int, hi: int) -> bool {
    forall|i: int, j: int|
        lo <= i < j <= hi && #[trigger] key_at(bd, a, i) > #[trigger] key_at(bd, a, j) ==> exists|t: int|
            0 <= t < st.len() && #[trigger] covers(st[t], i) && covers(st[t], j)
}

/// The work left on the stack: each range counts the square of its size plus one.
pub open spec fn stack_weight(st: Seq<(i32, i32)>) -> int
    decreases st.len(),
{
    if st.len() == 0 {
        0
    } else {
        stack_weight(st.drop_last()) + (st.last().1 - st.last().0 + 2) * (st.last().1 - st.last().0 + 2)
    }
}

proof fn lemma_weight_nonneg(st: Seq<(i32, i32)>)
    ensures
        stack_weight(st) >= 0,
    decreases st.len(),
{
    if st.len() > 0 {
        lemma_weight_nonneg(st.drop_last());
        let d = st.last().1 - st.last().0 + 2;
        assert(d * d >= 0) by (nonlinear_arith);
    }
}

/// Rearranging the top range, and replacing it on the stack by ranges that cover every
/// pair it leaves out of order, keeps every other pair in order or within a range.
proof fn lemma_order_kept(
    bd: Seq<u16>,
    a: Seq<u32>,
    b: Seq<u32>,
    st: Seq<(i32, i32)>,
    pushed: Seq<(i32, i32)>,
    lo_st: int,
    hi_st: int,
)
    requires
        st.len() > 0,
        0 <= lo_st,
        hi_st < a.len(),
        lo_st <= st.last().0,
        st.last().1 <= hi_st,
        st.last().0 <= st.last().1 + 1,
        permuted_within(a, b, st.last().0 as int, st.last().1 as int),
        ranges_ok(st, lo_st, hi_st),
        ordered_but(bd, a, st, lo_st, hi_st),
        forall|i: int, j: int|
            st.last().0 <= i < j <= st.last().1 && key_at(bd, b, i) > key_at(bd, b, j) ==> exists|t: int|
                0 <= t < pushed.len() && #[trigger] covers(pushed[t], i) && covers(pushed[t], j),
    ensures
        ordered_but(bd, b, st.drop_last() + pushed, lo_st, hi_st),
{
    let top = st.last();
    let (lo, hi) = (top.0 as int, top.1 as int);
    let ns = st.drop_last() + pushed;
    assert forall|i: int, j: int|
        lo_st <= i < j <= hi_st && #[trigger] key_at(bd, b, i) > #[trigger] key_at(bd, b, j) implies exists|t: int|
            0 <= t < ns.len() && #[trigger] covers(ns[t], i) && covers(ns[t], j) by {
        let inside_i = lo <= i <= hi;
        let inside_j = lo <= j <= hi;
        if inside_i && inside_j {
            let t = choose|t: int| 0 <= t < pushed.len() && #[trigger] covers(pushed[t], i) && covers(pushed[t], j);
            assert(ns[st.len() - 1 + t] == pushed[t]);
        } else if !inside_i && !inside_j {
            assert(b[i] == a[i] && b[j] == a[j]);
            assert(key_at(bd, a, i) > key_at(bd, a, j));
            let t = choose|t: int| 0 <= t < st.len() && #[trigger] covers(st[t], i) && covers(st[t], j);
            if t == st.len() - 1 {
                assert(covers(top, i));
            }
            assert(ns[t] == st[t]);
        } else if inside_i {
            lemma_permuted_source(a, b, lo, hi, i);
            let k = choose|k: int| lo <= k <= hi && a[k] == b[i];
            assert(b[j] == a[j]);
            assert(key_at(bd, a, k) > key_at(bd, a, j));
            let t = choose|t: int| 0 <= t < st.len() && #[trigger] covers(st[t], k) && covers(st[t], j);
            assert(covers(st[st.len() - 1], k));
            if t == st.len() - 1 {
                assert(covers(top, j));
            }
            assert(false);
        } else {
            lemma_permuted_source(a, b, lo, hi, j);
            let k = choose|k: int| lo <= k <= hi && a[k] == b[j];
            assert(b[i] == a[i]);
            assert(key_at(bd, a, i) > key_at(bd, a, k));
            let t = choose|t: int| 0 <= t < st.len() && #[trigger] covers(st[t], i) && covers(st[t], k);
            assert(covers(st[st.len() - 1], k));
            if t == st.len() - 1 {
                assert(covers(top, i));
            }
            assert(false);
        }
    }
}

/// Ranges shorter than this go to the insertion sort.
pub const FALLBACK_QSORT_SMALL_THRESH: i32 = 10;

/// Three-way quick sort used by fallback_sort: orders the pointers `lo_st..=hi_st` by
/// the keys they point at. Small ranges are finished by an insertion sort; larger ones
/// are split around a key taken, in a pseudo-random turn, from the first, middle or
/// last pointer.
pub fn fallback_q_sort3(freq_map: &mut [u32], block_data: &[u16], lo_st: i32, hi_st: i32)
    requires
        0 <= lo_st <= hi_st + 1,
        (hi_st as int) < old(freq_map)@.len(),
        hi_st < 0x4000_0000,
        in_bounds(block_data@, old(freq_map)@, lo_st as int, hi_st as int),
    ensures
        permuted_within(old(freq_map)@, final(freq_map)@, lo_st as int, hi_st as int),
        in_bounds(block_data@, final(freq_map)@, lo_st as int, hi_st as int),
        sorted_by_key(block_data@, final(freq_map)@, lo_st as int, hi_st as int),
{
    let ghost orig = freq_map@;
    let ghost bd = block_data@;
    let mut stack: Vec<(i32, i32)> = Vec::with_capacity(10);
    stack.push((lo_st, hi_st));
    let mut ratio: i32 = 0;
    proof {
        assert(freq_map@.subrange(lo_st as int, hi_st + 1).to_multiset() == orig.subrange(lo_st as int, hi_st + 1).to_multiset());
        assert forall|i: int, j: int|
            lo_st <= i < j <= hi_st && #[trigger] key_at(bd, freq_map@, i) > #[trigger] key_at(bd, freq_map@, j) implies exists|t: int|
                0 <= t < stack@.len() && #[trigger] covers(stack@[t], i) && covers(stack@[t], j) by {
            assert(covers(stack@[0], i));
        }
    }
    while stack.len() > 0
        invariant
            0 <= lo_st <= hi_st + 1,
            (hi_st as int) < freq_map@.len(),
            hi_st < 0x4000_0000,
            bd == block_data@,
            0 <= ratio < 32768,
            permuted_within(orig, freq_map@, lo_st as int, hi_st as int),
            in_bounds(bd, freq_map@, lo_st as int, hi_st as int),
            ranges_ok(stack@, lo_st as int, hi_st as int),
            ordered_but(bd, freq_map@, stack@, lo_st as int, hi_st as int),
        decreases stack_weight(stack@),
    {
        let ghost st = stack@;
        let ghost a0 = freq_map@;
        let (lo, hi) = match stack.pop() {
            Some(r) => r,
            None => {
                return;
            },
        };
        proof {
            assert(stack@ == st.drop_last());
            assert(st.last() == (lo, hi));
            lemma_weight_nonneg(stack@);
            assert(stack_weight(st) == stack_weight(stack@) + (hi - lo + 2) * (hi - lo + 2));
            assert((hi - lo + 2) * (hi - lo + 2) >= 1) by (nonlinear_arith)
                requires
                    hi - lo + 2 >= 1,
            ;
            assert(lo_st <= st[st.len() - 1].0);
            assert forall|t: int| 0 <= t < stack@.len() implies lo_st <= #[trigger] stack@[t].0 && stack@[t].1 <= hi_st && stack@[t].0 <= stack@[t].1 + 1 by {
                assert(stack@[t] == st[t]);
            }
        }
        if hi - lo < 10 + FALLBACK_QSORT_SMALL_THRESH {
            if hi > 0 && lo >= 0 && hi - lo > 0 {
                sort_small(freq_map, block_data, lo as usize, hi as usize);
                proof {
                    lemma_permuted_widen(a0, freq_map@, lo as int, hi as int, lo_st as int, hi_st as int);
                    lemma_permuted_trans(orig, a0, freq_map@, lo_st as int, hi_st as int);
                    assert forall|k: int| lo_st <= k <= hi_st implies (freq_map@[k] as int) < bd.len() by {
                        if !(lo <= k <= hi) {
                            assert(freq_map@[k] == a0[k]);
                        }
                    }
                }
            } else {
                proof {
                    assert(permuted_within(a0, freq_map@, lo as int, hi as int));
                }
            }
            proof {
                lemma_order_kept(bd, a0, freq_map@, st, Seq::empty(), lo_st as int, hi_st as int);
                assert(st.drop_last() + Seq::<(i32, i32)>::empty() =~= stack@);
            }
            continue;
        }
        ratio = ((ratio * 7621) + 1) % 32768;
        let mid = ((lo + hi) as usize) >> 1;
        proof {
            assert(((lo + hi) as usize) >> 1 == ((lo + hi) as usize) / 2) by (bit_vector);
        }
        let pivot: usize = if ratio % 3 == 0 {
            lo as usize
        } else if ratio % 3 == 1 {
            mid
        } else {
            hi as usize
        };
        let median = block_data[freq_map[pivot] as usize];
        let parts = partition3(freq_map, block_data, lo, hi, median as i32);
        proof {
            lemma_permuted_widen(a0, freq_map@, lo as int, hi as int, lo_st as int, hi_st as int);
            lemma_permuted_trans(orig, a0, freq_map@, lo_st as int, hi_st as int);
            assert forall|k: int| lo_st <= k <= hi_st implies (freq_map@[k] as int) < bd.len() by {
                if !(lo <= k <= hi) {
                    assert(freq_map@[k] == a0[k]);
                }
            }
        }
        match parts {
            None => {
                proof {
                    lemma_order_kept(bd, a0, freq_map@, st, Seq::empty(), lo_st as int, hi_st as int);
                    assert(st.drop_last() + Seq::<(i32, i32)>::empty() =~= stack@);
                }
            },
            Some((n, m)) => {
                proof {
                    // the pivot's key is somewhere in the equal part
                    assert(permuted_within(freq_map@, a0, lo as int, hi as int));
                    lemma_permuted_source(freq_map@, a0, lo as int, hi as int, pivot as int);
                    let k = choose|k: int| lo <= k <= hi && freq_map@[k] == a0[pivot as int];
                    assert(key_at(bd, freq_map@, k) == median);
                    assert(n < k < m);
                }
                let ghost before_push = stack@;
                if n - lo > hi - m {
                    stack.push((lo, n));
                    stack.push((m, hi));
                } else {
                    stack.push((m, hi));
                    stack.push((lo, n));
                }
                proof {
                    let pushed = stack@.subrange(before_push.len() as int, stack@.len() as int);
                    assert(stack@ =~= st.drop_last() + pushed);
                    assert forall|i: int, j: int|
                        lo <= i < j <= hi && key_at(bd, freq_map@, i) > key_at(bd, freq_map@, j) implies exists|t: int|
                            0 <= t < pushed.len() && #[trigger] covers(pushed[t], i) && covers(pushed[t], j) by {
                        if i <= n {
                            assert(j <= n);
                            if pushed[0] == (lo, n) {
                                assert(covers(pushed[0], i));
                            } else {
                                assert(covers(pushed[1], i));
                            }
                        } else {
                            assert(i >= m);
                            if pushed[0] == (m, hi) {
                                assert(covers(pushed[0], i));
                            } else {
                                assert(covers(pushed[1], i));
                            }
                        }
                    }
                    lemma_order_kept(bd, a0, freq_map@, st, pushed, lo_st as int, hi_st as int);
                    assert forall|t1: int, t2: int, x: int|
                        0 <= t1 < stack@.len() && 0 <= t2 < stack@.len() && t1 != t2 && #[trigger] covers(stack@[t1], x) implies !#[trigger] covers(stack@[t2], x) by {
                        let q = st.len() - 1;
                        if t1 < q && t2 < q {
                            assert(stack@[t1] == st[t1] && stack@[t2] == st[t2]);
                        } else if t1 < q {
                            assert(stack@[t1] == st[t1]);
                            if covers(stack@[t2], x) {
                                assert(covers(st[q], x));
                            }
                        } else if t2 < q {
                            assert(stack@[t2] == st[t2]);
                            assert(covers(st[q], x));
                        }
                    }
                    let s1 = n - lo + 1;
                    let s2 = hi - m + 1;
                    let s0 = hi - lo + 1;
                    assert((s1 + 1) * (s1 + 1) + (s2 + 1) * (s2 + 1) < (s0 + 1) * (s0 + 1)) by (nonlinear_arith)
                        requires
                            s1 >= 0,
                            s2 >= 0,
                            s1 + s2 + 1 <= s0,
                            s0 >= 1,
                    ;
                    assert(stack@.drop_last().drop_last() =~= st.drop_last());
                    assert(stack@.drop_last() =~= st.drop_last().push(stack@[stack@.len() - 2]));
                    let l1 = stack@.last();
                    let l2 = stack@[stack@.len() - 2];
                    assert(stack_weight(stack@) == stack_weight(stack@.drop_last()) + (l1.1 - l1.0 + 2) * (l1.1 - l1.0 + 2));
                    assert(stack_weight(stack@.drop_last()) == stack_weight(st.drop_last()) + (l2.1 - l2.0 + 2) * (l2.1 - l2.0 + 2));
                    assert((l1.1 - l1.0 + 2) * (l1.1 - l1.0 + 2) + (l2.1 - l2.0 + 2) * (l2.1 - l2.0 + 2)
                        == (s1 + 1) * (s1 + 1) + (s2 + 1) * (s2 + 1));
                }
            },
        }
    }
}

} // verus!
