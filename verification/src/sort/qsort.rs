//! The data shared by the main sort's routines, and their small helpers.
use vstd::prelude::*;
use crate::sort::gtu::{gtu, gtu_ready, mode_of, WrapMode};

verus! {

broadcast use vstd::seq_lib::group_to_multiset_ensures;

/// How far the block data and the quadrant run on past the end of the block.
pub const OVERSHOOT: usize = 34;

/// Room set aside for the sort's stack of pending partitions.
pub const MAIN_QSORT_STACK_SIZE: usize = 100;

/// The data that the main sort works on.
pub struct QsortData {
    /// Block data, converted to two-byte format
    pub block_data: Vec<u16>,
    /// Quadrant data for sorting
    pub quadrant: Vec<u16>,
    /// Pointers to sorted data
    pub bwt_ptr: Vec<u32>,
    /// Temporary stack used in sorting
    pub stack: Vec<(i32, i32, i32)>,
    /// Size of initial data
    pub end: usize,
    /// Variable used to measure redundancy of data - use fallback sort if too redundant
    pub budget: i32,
}

/// `n` zeros.
fn zeros_u16(n: usize) -> (v: Vec<u16>)
    ensures
        v@ == Seq::new(n as nat, |i: int| 0u16),
{
    let mut v: Vec<u16> = Vec::with_capacity(n);
    let mut i: usize = 0;
    while i < n
        invariant
            i <= n,
            v@ == Seq::new(i as nat, |k: int| 0u16),
        decreases n - i,
    {
        v.push(0);
        proof {
            assert(v@ =~= Seq::new((i + 1) as nat, |k: int| 0u16));
        }
        i = i + 1;
    }
    v
}

/// `n` zero pointers.
fn zeros_u32(n: usize) -> (v: Vec<u32>)
    ensures
        v@ == Seq::new(n as nat, |i: int| 0u32),
{
    let mut v: Vec<u32> = Vec::with_capacity(n);
    let mut i: usize = 0;
    while i < n
        invariant
            i <= n,
            v@ == Seq::new(i as nat, |k: int| 0u32),
        decreases n - i,
    {
        v.push(0);
        proof {
            assert(v@ =~= Seq::new((i + 1) as nat, |k: int| 0u32));
        }
        i = i + 1;
    }
    v
}

impl QsortData {
    /// Zeroed data for a block of `end` bytes, with the overshoot past its end.
    pub fn new(end: usize, budget: i32) -> (qs: Self)
        requires
            end + OVERSHOOT <= usize::MAX,
        ensures
            qs.block_data@ == Seq::new((end + OVERSHOOT) as nat, |i: int| 0u16),
            qs.quadrant@ == Seq::new((end + OVERSHOOT) as nat, |i: int| 0u16),
            qs.bwt_ptr@ == Seq::new((end + OVERSHOOT) as nat, |i: int| 0u32),
            qs.stack@.len() == 0,
            qs.end == end,
            qs.budget == budget,
    {
        QsortData {
            block_data: zeros_u16(end + OVERSHOOT),
            quadrant: zeros_u16(end + OVERSHOOT),
            bwt_ptr: zeros_u32(end + OVERSHOOT),
            stack: Vec::with_capacity(MAIN_QSORT_STACK_SIZE),
            end,
            budget,
        }
    }
}

/// Compares the rotations at
/// `a` and `b`; the positions wrap modulo the end after each round, and each round
/// costs one unit of the budget.
pub fn main_gtu(a: usize, b: usize, qs: &mut QsortData) -> (res: bool)
    requires
        gtu_ready(
            old(qs).block_data@,
            old(qs).quadrant@,
            old(qs).end as int,
            a as int,
            b as int,
            old(qs).budget as int,
        ),
    ensures
        res == gtu(
            old(qs).block_data@,
            old(qs).quadrant@,
            old(qs).end as int,
            a as int,
            b as int,
            WrapMode::Modulo,
        ).0,
        final(qs).budget == old(qs).budget - gtu(
            old(qs).block_data@,
            old(qs).quadrant@,
            old(qs).end as int,
            a as int,
            b as int,
            WrapMode::Modulo,
        ).1,
        final(qs).block_data == old(qs).block_data,
        final(qs).quadrant == old(qs).quadrant,
        final(qs).bwt_ptr == old(qs).bwt_ptr,
        final(qs).stack == old(qs).stack,
        final(qs).end == old(qs).end,
{
    let mut budget = qs.budget;
    let res = crate::sort::gtu::gtu_with(a, b, &qs.block_data, &qs.quadrant, qs.end, &mut budget, 2);
    assert(mode_of(2) == WrapMode::Modulo);
    qs.budget = budget;
    res
}

/// The median of three.
pub open spec fn median3(a: u16, b: u16, c: u16) -> u16 {
    if a <= b {
        if b <= c {
            b
        } else if a <= c {
            c
        } else {
            a
        }
    } else {
        if a <= c {
            a
        } else if b <= c {
            c
        } else {
            b
        }
    }
}

/// The median of three block values, used to pick the pivot.
pub fn mmed3(a: u16, b: u16, c: u16) -> (m: u32)
    ensures
        m == median3(a, b, c),
{
    let mut a = a;
    let mut b = b;
    if a > b {
        let t = a;
        a = b;
        b = t;
    }
    if b > c {
        b = c;
        if a > b {
            b = a;
        }
    }
    b as u32
}

/// `s` after swapping the first `n` pairs of positions `lo + i` and `lo_2 + i`, in order.
pub open spec fn swapped(s: Seq<u32>, lo: int, lo_2: int, n: nat) -> Seq<u32>
    decreases n,
{
    if n == 0 {
        s
    } else {
        let t = swapped(s, lo, lo_2, (n - 1) as nat);
        let x = lo + n - 1;
        let y = lo_2 + n - 1;
        t.update(x, t[y]).update(y, t[x])
    }
}

/// Swapping two positions keeps the values.
pub proof fn lemma_swap_multiset(s: Seq<u32>, x: int, y: int)
    requires
        0 <= x < s.len(),
        0 <= y < s.len(),
    ensures
        s.update(x, s[y]).update(y, s[x]).to_multiset() == s.to_multiset(),
{
    broadcast use vstd::seq_lib::to_multiset_update;

    let t = s.update(x, s[y]);
    assert(t.to_multiset() == s.to_multiset().insert(s[y]).remove(s[x]));
    assert(t.update(y, s[x]).to_multiset() == t.to_multiset().insert(s[x]).remove(t[y]));
    if x == y {
        assert(t =~= s);
        assert(t.update(y, s[x]) =~= s);
    } else {
        assert(t[y] == s[y]);
        assert(s.to_multiset().insert(s[y]).remove(s[x]).insert(s[x]).remove(s[y]) =~= s.to_multiset());
    }
}

/// Swaps n pointers starting a lo/lo_2
pub fn mvswap(bwt_ptr: &mut Vec<u32>, lo: i32, lo_2: i32, n: i32)
    requires
        0 <= lo,
        0 <= lo_2,
        n <= 0 || (lo + n <= old(bwt_ptr)@.len() && lo_2 + n <= old(bwt_ptr)@.len()),
    ensures
        final(bwt_ptr)@ == swapped(old(bwt_ptr)@, lo as int, lo_2 as int, if n > 0 {
            n as nat
        } else {
            0
        }),
        final(bwt_ptr)@.to_multiset() == old(bwt_ptr)@.to_multiset(),
{
    let mut l1 = lo as usize;
    let mut l2 = lo_2 as usize;
    let mut n1 = n;
    let ghost total: nat = if n > 0 {
        n as nat
    } else {
        0
    };
    while n1 > 0
        invariant
            n1 <= n,
            n1 > 0 ==> n1 <= total,
            total == (if n > 0 {
                n as nat
            } else {
                0
            }),
            l1 == lo + (total - (if n1 > 0 {
                n1 as int
            } else {
                0
            })),
            l2 == lo_2 + (total - (if n1 > 0 {
                n1 as int
            } else {
                0
            })),
            n <= 0 || (lo + n <= old(bwt_ptr)@.len() && lo_2 + n <= old(bwt_ptr)@.len()),
            0 <= lo,
            0 <= lo_2,
            bwt_ptr@ == swapped(old(bwt_ptr)@, lo as int, lo_2 as int, (total - (if n1 > 0 {
                n1 as int
            } else {
                0
            })) as nat),
            bwt_ptr@.to_multiset() == old(bwt_ptr)@.to_multiset(),
            bwt_ptr@.len() == old(bwt_ptr)@.len(),
        decreases n1,
    {
        proof {
            lemma_swap_multiset(bwt_ptr@, l1 as int, l2 as int);
        }
        let t = bwt_ptr[l1];
        let u = bwt_ptr[l2];
        bwt_ptr.set(l1, u);
        bwt_ptr.set(l2, t);
        l1 = l1 + 1;
        l2 = l2 + 1;
        n1 = n1 - 1;
    }
}

} // verus!
