//! The shell sort that the main sort uses for small or deep partitions.
use vstd::prelude::*;
use crate::sort::gtu::{gtu, lemma_gtu_cost, WrapMode};
use crate::sort::unrolled::main_gtu;

verus! {

broadcast use vstd::seq_lib::group_to_multiset_ensures;

/// The shell sort increments.
pub open spec fn incs() -> Seq<i32> {
    seq![1i32, 4, 13, 40, 121, 364, 1093, 3280, 9841, 29524, 88573, 265720, 797161, 2391484]
}

/// Increment `k` of the shell sort.
fn shell_increment(k: usize) -> (h: i32)
    requires
        k < 14,
    ensures
        h == incs()[k as int],
{
    if k == 0 {
        1
    } else if k == 1 {
        4
    } else if k == 2 {
        13
    } else if k == 3 {
        40
    } else if k == 4 {
        121
    } else if k == 5 {
        364
    } else if k == 6 {
        1093
    } else if k == 7 {
        3280
    } else if k == 8 {
        9841
    } else if k == 9 {
        29524
    } else if k == 10 {
        88573
    } else if k == 11 {
        265720
    } else if k == 12 {
        797161
    } else {
        2391484
    }
}

/// What the sort of `bwt_ptr[lo..=hi]` needs: the comparison's data, pointers no
/// further than the end, and room in the budget for every comparison it may make.
pub open spec fn simple_sort_ready(
    ptr: Seq<u32>,
    bd: Seq<u16>,
    q: Seq<u16>,
    end: int,
    lo: int,
    hi: int,
    d: int,
    budget: int,
) -> bool {
    &&& 0 <= lo
    &&& hi < ptr.len()
    &&& i32::MIN <= hi - lo
    &&& hi - lo + 1 <= 2391484
    &&& hi < i32::MAX
    &&& 0 <= d <= 10
    &&& 8 <= end <= i32::MAX - 20
    &&& bd.len() >= end + 30
    &&& q.len() >= end + 30
    &&& forall|k: int| lo <= k <= hi ==> ptr[k] <= end
    &&& budget >= i32::MIN + end + 14 * (hi - lo + 1) * (hi - lo + 1) * (end / 8 + 2)
}

/// Swapping a value into a hole keeps the values.
proof fn lemma_shift_hole(s: Seq<u32>, j: int, h: int, v: u32)
    requires
        1 <= h,
        0 <= j - h,
        j < s.len(),
    ensures
        s.update(j, s[j - h]).update(j - h, v).to_multiset() == s.update(j, v).to_multiset(),
{
    let x = s.update(j, v);
    crate::sort::qsort::lemma_swap_multiset(x, j, j - h);
    assert(x.update(j, x[j - h]).update(j - h, x[j]) =~= s.update(j, s[j - h]).update(j - h, v));
}

/// The pointers after moving each of the chain `j, j + h, ...` below `i` up by `h`.
pub open spec fn shifted(s: Seq<u32>, j: int, i: int, h: int) -> Seq<u32>
    decreases i - j,
{
    if j + h > i || h < 1 {
        s
    } else {
        shifted(s, j + h, i, h).update(j + h, s[j])
    }
}

/// Where one insertion stops, and what its comparisons cost: the pointer `v`, starting
/// at `j`, passes each pointer `h` below it whose rotation (plus `d`) is greater, but
/// not below `lo + h - 1`.
pub open spec fn ins_stop(
    bd: Seq<u16>,
    q: Seq<u16>,
    end: int,
    s: Seq<u32>,
    v: u32,
    j: int,
    h: int,
    lo: int,
    d: int,
) -> (int, int)
    decreases j,
{
    if j - h < 0 || h < 1 {
        (j, 0)
    } else {
        let (gt, cost) = gtu(bd, q, end, s[j - h] + d, v + d, WrapMode::AtOrAbove);
        if !gt {
            (j, cost as int)
        } else if j - h <= lo + h - 1 {
            (j - h, cost as int)
        } else {
            let r = ins_stop(bd, q, end, s, v, j - h, h, lo, d);
            (r.0, cost + r.1)
        }
    }
}

proof fn lemma_shifted_below(s: Seq<u32>, j: int, i: int, h: int, k: int)
    requires
        k < j + h,
        0 <= k < s.len(),
        0 <= j,
        i < s.len(),
        h >= 1,
    ensures
        shifted(s, j, i, h)[k] == s[k],
        shifted(s, j, i, h).len() == s.len(),
    decreases i - j,
{
    if j + h <= i {
        lemma_shifted_below(s, j + h, i, h, k);
    }
}

/// One insertion of the shell sort: the pointer at `i` moves down in steps of `h` past
/// the pointers whose rotations are greater.
fn shell_insert(
    bwt_ptr: &mut [u32],
    block_data: &[u16],
    quadrant: &[u16],
    end: usize,
    lo: i32,
    hi: i32,
    h: i32,
    i: i32,
    d: i32,
    budget: &mut i32,
)
    requires
        1 <= h,
        0 <= lo,
        lo + h <= i <= hi,
        hi < old(bwt_ptr)@.len(),
        hi - lo + 1 <= 2391484,
        0 <= d <= 10,
        8 <= end <= i32::MAX - 20,
        block_data@.len() >= end + 30,
        quadrant@.len() >= end + 30,
        forall|k: int| lo <= k <= hi ==> old(bwt_ptr)@[k] <= end,
        *old(budget) >= i32::MIN + end + (i - lo + 1) * (end / 8 + 2),
    ensures
        final(bwt_ptr)@.len() == old(bwt_ptr)@.len(),
        final(bwt_ptr)@.to_multiset() == old(bwt_ptr)@.to_multiset(),
        forall|k: int| 0 <= k < old(bwt_ptr)@.len() && !(lo <= k <= hi) ==> final(bwt_ptr)@[k] == old(bwt_ptr)@[k],
        forall|k: int| lo <= k <= hi ==> final(bwt_ptr)@[k] <= end,
        *old(budget) - (i - lo + 1) * (end / 8 + 2) <= *final(budget) <= *old(budget),
        ({
            let (stop, cost) = ins_stop(
                block_data@,
                quadrant@,
                end as int,
                old(bwt_ptr)@,
                old(bwt_ptr)@[i as int],
                i as int,
                h as int,
                lo as int,
                d as int,
            );
            &&& final(bwt_ptr)@ == shifted(old(bwt_ptr)@, stop, i as int, h as int).update(stop, old(bwt_ptr)@[i as int])
            &&& *final(budget) == *old(budget) - cost
        }),
{
    let ghost g: int = end / 8 + 2;
    let ghost start = *old(budget);
    let ghost orig = bwt_ptr@;
    let v = bwt_ptr[i as usize];
    let mut j = i;
    let ghost mut c: int = 0;
    let ghost total = ins_stop(block_data@, quadrant@, end as int, orig, v, i as int, h as int, lo as int, d as int);
    loop
        invariant_except_break
            lo + h <= j,
            start - c * g <= *budget <= start,
            total.0 == ins_stop(block_data@, quadrant@, end as int, orig, v, j as int, h as int, lo as int, d as int).0,
            total.1 == (start - *budget) + ins_stop(block_data@, quadrant@, end as int, orig, v, j as int, h as int, lo as int, d as int).1,
        invariant
            total == ins_stop(block_data@, quadrant@, end as int, orig, v, i as int, h as int, lo as int, d as int),
            bwt_ptr@ == shifted(orig, j as int, i as int, h as int),
            v == orig[i as int],
            1 <= h,
            0 <= lo,
            lo <= j <= i,
            i <= hi,
            hi < bwt_ptr@.len(),
            bwt_ptr@.len() == orig.len(),
            0 <= d <= 10,
            8 <= end <= i32::MAX - 20,
            block_data@.len() >= end + 30,
            quadrant@.len() >= end + 30,
            g == end / 8 + 2,
            v <= end,
            forall|k: int| lo <= k <= hi ==> bwt_ptr@[k] <= end,
            bwt_ptr@.update(j as int, v).to_multiset() == orig.to_multiset(),
            forall|k: int| 0 <= k < orig.len() && !(lo <= k <= hi) ==> bwt_ptr@[k] == orig[k],
            0 <= c <= i - j,
            start >= i32::MIN + end + (i - lo + 1) * g,
        ensures
            lo <= j <= i,
            bwt_ptr@.update(j as int, v).to_multiset() == orig.to_multiset(),
            forall|k: int| 0 <= k < orig.len() && !(lo <= k <= hi) ==> bwt_ptr@[k] == orig[k],
            forall|k: int| lo <= k <= hi ==> bwt_ptr@[k] <= end,
            start - (i - lo + 1) * g <= *budget <= start,
            total.0 == j,
            *budget == start - total.1,
        decreases j,
    {
        let prev = bwt_ptr[(j - h) as usize];
        proof {
            lemma_shifted_below(orig, j as int, i as int, h as int, j - h);
            lemma_gtu_cost(block_data@, quadrant@, end as int, prev + d, v + d, WrapMode::AtOrAbove);
            assert(c * g + g <= (i - lo + 1) * g) by (nonlinear_arith)
                requires
                    c + 1 <= i - lo + 1,
                    g >= 0,
            ;
            assert((c + 1) * g == c * g + g) by (nonlinear_arith);
        }
        let gt = main_gtu(prev as i32 + d, v as i32 + d, block_data, quadrant, end, budget);
        if !gt {
            proof {
                assert(c * g <= (i - lo + 1) * g) by (nonlinear_arith)
                    requires
                        c <= i - lo + 1,
                        g >= 0,
                ;
            }
            break;
        }
        proof {
            lemma_shift_hole(bwt_ptr@, j as int, h as int, v);
        }
        bwt_ptr[j as usize] = prev;
        j = j - h;
        proof {
            c = c + 1;
            assert(c * g <= (i - lo + 1) * g) by (nonlinear_arith)
                requires
                    c <= i - lo + 1,
                    g >= 0,
            ;
        }
        if j <= lo + h - 1 {
            break;
        }
    }
    bwt_ptr[j as usize] = v;
}

/// The pointers and the budget after the insertion of the pointer at `i`.
pub open spec fn insert_at(
    bd: Seq<u16>,
    q: Seq<u16>,
    end: int,
    lo: int,
    h: int,
    d: int,
    st: (Seq<u32>, int),
    i: int,
) -> (Seq<u32>, int) {
    let (stop, cost) = ins_stop(bd, q, end, st.0, st.0[i], i, h, lo, d);
    (shifted(st.0, stop, i, h).update(stop, st.0[i]), st.1 - cost)
}

/// Up to `c` insertions from `i` on, none past `hi`.
pub open spec fn group_from(
    bd: Seq<u16>,
    q: Seq<u16>,
    end: int,
    lo: int,
    hi: int,
    h: int,
    d: int,
    st: (Seq<u32>, int),
    i: int,
    c: nat,
) -> (Seq<u32>, int)
    decreases c,
{
    if c == 0 || i > hi {
        st
    } else {
        group_from(bd, q, end, lo, hi, h, d, insert_at(bd, q, end, lo, h, d, st, i), i + 1, (c - 1) as nat)
    }
}

/// The rest of a pass with increment `h` from the insertion at `i`: insertions in
/// groups of three, the pass stopping (the flag) when a group leaves the budget below
/// zero with insertions still to come.
pub open spec fn pass_from(
    bd: Seq<u16>,
    q: Seq<u16>,
    end: int,
    lo: int,
    hi: int,
    h: int,
    d: int,
    st: (Seq<u32>, int),
    i: int,
) -> ((Seq<u32>, int), bool)
    decreases hi + 1 - i,
{
    if i > hi {
        (st, false)
    } else {
        let st3 = group_from(bd, q, end, lo, hi, h, d, st, i, 3);
        let i3 = if i + 3 > hi + 1 { hi + 1 } else { i + 3 };
        if i3 > hi {
            (st3, false)
        } else if st3.1 < 0 {
            (st3, true)
        } else {
            pass_from(bd, q, end, lo, hi, h, d, st3, i3)
        }
    }
}

/// The passes with the increments `incs()[hp - 1]` down to `incs()[0]`, ending early
/// where a pass stops.
pub open spec fn passes_from(
    bd: Seq<u16>,
    q: Seq<u16>,
    end: int,
    lo: int,
    hi: int,
    d: int,
    st: (Seq<u32>, int),
    hp: nat,
) -> (Seq<u32>, int)
    decreases hp,
{
    if hp == 0 || hp > 14 {
        st
    } else {
        let h = incs()[hp - 1] as int;
        let (st2, stopped) = pass_from(bd, q, end, lo, hi, h, d, st, lo + h);
        if stopped {
            st2
        } else {
            passes_from(bd, q, end, lo, hi, d, st2, (hp - 1) as nat)
        }
    }
}

/// How many increments are below `n`, counting from `k`.
pub open spec fn incs_below(n: int, k: nat) -> nat
    decreases 14 - k,
{
    if k < 14 && incs()[k as int] < n {
        incs_below(n, k + 1)
    } else {
        k
    }
}

/// Shell sort of `bwt_ptr[lo..=hi]` by the rotations the pointers (plus `d`) start at,
/// stopping early once the budget runs out.
pub fn main_simple_sort(
    bwt_ptr: &mut [u32],
    block_data: &[u16],
    quadrant: &mut Vec<u16>,
    end: usize,
    lo: i32,
    hi: i32,
    d: i32,
    budget: &mut i32,
)
    requires
        simple_sort_ready(
            old(bwt_ptr)@,
            block_data@,
            old(quadrant)@,
            end as int,
            lo as int,
            hi as int,
            d as int,
            *old(budget) as int,
        ),
    ensures
        final(bwt_ptr)@.len() == old(bwt_ptr)@.len(),
        final(bwt_ptr)@.to_multiset() == old(bwt_ptr)@.to_multiset(),
        forall|k: int| 0 <= k < old(bwt_ptr)@.len() && !(lo <= k <= hi) ==> final(bwt_ptr)@[k] == old(bwt_ptr)@[k],
        forall|k: int| lo <= k <= hi ==> final(bwt_ptr)@[k] <= end,
        final(quadrant)@ == old(quadrant)@,
        *final(budget) <= *old(budget),
        hi - lo + 1 < 2 ==> final(bwt_ptr)@ == old(bwt_ptr)@ && *final(budget) == *old(budget),
        hi - lo + 1 >= 2 ==> (final(bwt_ptr)@, *final(budget) as int) == passes_from(
            block_data@,
            old(quadrant)@,
            end as int,
            lo as int,
            hi as int,
            d as int,
            (old(bwt_ptr)@, *old(budget) as int),
            incs_below(hi - lo + 1, 0),
        ),
{
    let big_n = hi - lo + 1;
    if big_n < 2 {
        return;
    }
    let ghost n = big_n as int;
    let ghost g: int = end / 8 + 2;
    let ghost start = *old(budget);
    let ghost orig = bwt_ptr@;
    let mut hp: usize = 0;
    while shell_increment(hp) < big_n
        invariant
            hp < 14,
            2 <= big_n <= 2391484,
            forall|k: int| 0 <= k < hp ==> incs()[k] < big_n,
            incs_below(big_n as int, 0) == incs_below(big_n as int, hp as nat),
        decreases 14 - hp,
    {
        proof {
            if hp == 13 {
                assert(incs()[13] == 2391484);
            }
        }
        hp = hp + 1;
    }
    proof {
        assert(incs()[0] == 1);
    }
    // hp counts the passes still to run
    let ghost target = passes_from(block_data@, quadrant@, end as int, lo as int, hi as int, d as int, (orig, start as int), hp as nat);
    let ghost mut ins: int = 0;
    let ghost mut passes: int = 0;
    while hp > 0
        invariant
            hp <= 13,
            passes + hp <= 13,
            passes >= 0,
            0 <= lo,
            hi < bwt_ptr@.len(),
            big_n == hi - lo + 1,
            n == big_n,
            2 <= n <= 2391484,
            0 <= d <= 10,
            8 <= end <= i32::MAX - 20,
            block_data@.len() >= end + 30,
            quadrant@.len() >= end + 30,
            g == end / 8 + 2,
            bwt_ptr@.len() == orig.len(),
            bwt_ptr@.to_multiset() == orig.to_multiset(),
            forall|k: int| 0 <= k < orig.len() && !(lo <= k <= hi) ==> bwt_ptr@[k] == orig[k],
            forall|k: int| lo <= k <= hi ==> bwt_ptr@[k] <= end,
            quadrant@ == old(quadrant)@,
            0 <= ins <= passes * n,
            start >= i32::MIN + end + 14 * n * n * g,
            start - ins * n * g <= *budget <= start,
            start == *old(budget),
            orig == old(bwt_ptr)@,
            forall|k: int| 0 <= k < hp ==> incs()[k] < big_n,
            hi < i32::MAX,
            target == passes_from(block_data@, quadrant@, end as int, lo as int, hi as int, d as int, (bwt_ptr@, *budget as int), hp as nat),
            target == passes_from(block_data@, old(quadrant)@, end as int, lo as int, hi as int, d as int, (orig, start as int), incs_below(hi - lo + 1, 0)),
        decreases hp,
    {
        let h = shell_increment(hp - 1);
        let mut i = lo + h;
        let ghost pass_start = ins;
        let ghost pass_res = pass_from(block_data@, quadrant@, end as int, lo as int, hi as int, h as int, d as int, (bwt_ptr@, *budget as int), i as int);
        loop
            invariant
                1 <= h,
                0 <= lo,
                lo + h <= i,
                i <= hi + 1,
                hi < bwt_ptr@.len(),
                big_n == hi - lo + 1,
                n == big_n,
                2 <= n <= 2391484,
                0 <= d <= 10,
                8 <= end <= i32::MAX - 20,
                block_data@.len() >= end + 30,
                quadrant@.len() >= end + 30,
                g == end / 8 + 2,
                bwt_ptr@.len() == orig.len(),
                bwt_ptr@.to_multiset() == orig.to_multiset(),
                forall|k: int| 0 <= k < orig.len() && !(lo <= k <= hi) ==> bwt_ptr@[k] == orig[k],
                forall|k: int| lo <= k <= hi ==> bwt_ptr@[k] <= end,
                quadrant@ == old(quadrant)@,
                passes + hp <= 13,
                hp >= 1,
                passes >= 0,
                0 <= pass_start <= passes * n,
                ins == pass_start + (i - lo - h),
                start >= i32::MIN + end + 14 * n * n * g,
                start - ins * n * g <= *budget <= start,
                start == *old(budget),
                orig == old(bwt_ptr)@,
                hi < i32::MAX,
                h == incs()[hp - 1],
                pass_res == pass_from(block_data@, quadrant@, end as int, lo as int, hi as int, h as int, d as int, (bwt_ptr@, *budget as int), i as int),
                target == (if pass_res.1 { pass_res.0 } else { passes_from(block_data@, quadrant@, end as int, lo as int, hi as int, d as int, pass_res.0, (hp - 1) as nat) }),
                target == passes_from(block_data@, old(quadrant)@, end as int, lo as int, hi as int, d as int, (orig, start as int), incs_below(hi - lo + 1, 0)),
            ensures
                1 <= h,
                0 <= lo,
                lo + h <= i,
                i <= hi + 1,
                hi < bwt_ptr@.len(),
                big_n == hi - lo + 1,
                n == big_n,
                2 <= n <= 2391484,
                0 <= d <= 10,
                8 <= end <= i32::MAX - 20,
                block_data@.len() >= end + 30,
                quadrant@.len() >= end + 30,
                g == end / 8 + 2,
                bwt_ptr@.len() == orig.len(),
                bwt_ptr@.to_multiset() == orig.to_multiset(),
                forall|k: int| 0 <= k < orig.len() && !(lo <= k <= hi) ==> bwt_ptr@[k] == orig[k],
                forall|k: int| lo <= k <= hi ==> bwt_ptr@[k] <= end,
                quadrant@ == old(quadrant)@,
                passes + hp <= 13,
                hp >= 1,
                passes >= 0,
                0 <= pass_start <= passes * n,
                ins == pass_start + (i - lo - h),
                start >= i32::MIN + end + 14 * n * n * g,
                start - ins * n * g <= *budget <= start,
                start == *old(budget),
                orig == old(bwt_ptr)@,
                hi < i32::MAX,
                h == incs()[hp - 1],
                pass_res == pass_from(block_data@, quadrant@, end as int, lo as int, hi as int, h as int, d as int, (bwt_ptr@, *budget as int), i as int),
                target == (if pass_res.1 { pass_res.0 } else { passes_from(block_data@, quadrant@, end as int, lo as int, hi as int, d as int, pass_res.0, (hp - 1) as nat) }),
                target == passes_from(block_data@, old(quadrant)@, end as int, lo as int, hi as int, d as int, (orig, start as int), incs_below(hi - lo + 1, 0)),
                i > hi,
            decreases hi + 1 - i,
        {
            let ghost i0 = i;
            let ghost st0 = (bwt_ptr@, *budget as int);
            let mut copies: usize = 0;
            while copies < 3
                invariant
                    1 <= h,
                    0 <= lo,
                    lo + h <= i,
                    i <= hi + 1,
                    hi < bwt_ptr@.len(),
                    big_n == hi - lo + 1,
                    n == big_n,
                    2 <= n <= 2391484,
                    0 <= d <= 10,
                    8 <= end <= i32::MAX - 20,
                    block_data@.len() >= end + 30,
                    quadrant@.len() >= end + 30,
                    g == end / 8 + 2,
                    bwt_ptr@.len() == orig.len(),
                    bwt_ptr@.to_multiset() == orig.to_multiset(),
                    forall|k: int| 0 <= k < orig.len() && !(lo <= k <= hi) ==> bwt_ptr@[k] == orig[k],
                    forall|k: int| lo <= k <= hi ==> bwt_ptr@[k] <= end,
                    passes + hp <= 13,
                    hp >= 1,
                    passes >= 0,
                    0 <= pass_start <= passes * n,
                    ins == pass_start + (i - lo - h),
                    start >= i32::MIN + end + 14 * n * n * g,
                    start - ins * n * g <= *budget <= start,
                    copies <= 3,
                    i == i0 + copies,
                    hi < i32::MAX,
                    group_from(block_data@, quadrant@, end as int, lo as int, hi as int, h as int, d as int, st0, i0 as int, 3)
                        == group_from(block_data@, quadrant@, end as int, lo as int, hi as int, h as int, d as int, (bwt_ptr@, *budget as int), i as int, (3 - copies) as nat),
                ensures
                    i > hi || i == i0 + 3,
                    i <= hi + 1,
                    group_from(block_data@, quadrant@, end as int, lo as int, hi as int, h as int, d as int, st0, i0 as int, 3) == (bwt_ptr@, *budget as int),
                decreases 3 - copies,
            {
                if i > hi {
                    break;
                }
                proof {
                    assert(ins + 1 <= 14 * n) by (nonlinear_arith)
                        requires
                            ins == pass_start + (i - lo - h),
                            pass_start <= passes * n,
                            passes <= 12,
                            i <= hi,
                            n == hi - lo + 1,
                            h >= 1,
                            n >= 2,
                    ;
                    assert((i - lo + 1) * g <= n * g) by (nonlinear_arith)
                        requires
                            i - lo + 1 <= n,
                            g >= 0,
                    ;
                    assert(ins * n * g + n * g <= 14 * n * n * g) by (nonlinear_arith)
                        requires
                            ins + 1 <= 14 * n,
                            n >= 0,
                            g >= 0,
                    ;
                }
                shell_insert(bwt_ptr, block_data, quadrant, end, lo, hi, h, i, d, budget);
                proof {
                    assert((ins + 1) * n * g == ins * n * g + n * g) by (nonlinear_arith);
                    ins = ins + 1;
                }
                i = i + 1;
                copies = copies + 1;
            }
            if i > hi {
                break;
            }
            if *budget < 0 {
                return;
            }
        }
        proof {
            assert(pass_res == ((bwt_ptr@, *budget as int), false));
            assert(ins <= (passes + 1) * n) by (nonlinear_arith)
                requires
                    ins == pass_start + (i - lo - h),
                    pass_start <= passes * n,
                    i <= hi + 1,
                    n == hi - lo + 1,
                    h >= 1,
            ;
            passes = passes + 1;
        }
        hp = hp - 1;
    }
}

} // verus!
