//! The comparison at the heart of the main block sort: is the rotation that starts at
//! `i1` greater than the one that starts at `i2`? The first twelve positions compare the
//! block data; after that each round of eight positions compares the block data and then
//! the quadrant value at each position, and each round costs one unit of the budget.
//! The block data and the quadrant are extended past `end`, so a round reads on past the
//! end before the positions wrap round.
use vstd::prelude::*;

verus! {

/// How the positions wrap round after a round of eight.
#[derive(PartialEq, Eq)]
pub enum WrapMode {
    /// past the end (`a > end`): subtract the end once
    Above,
    /// at or past the end (`a >= end`): subtract the end once
    AtOrAbove,
    /// the position modulo the end
    Modulo,
}

/// A position after wrapping.
pub open spec fn wrap(x: int, end: int, mode: WrapMode) -> int {
    match mode {
        WrapMode::Above => if x > end {
            x - end
        } else {
            x
        },
        WrapMode::AtOrAbove => if x >= end {
            x - end
        } else {
            x
        },
        WrapMode::Modulo => x % end,
    }
}

/// The comparison at one pair of positions: whether the first is greater, when they differ.
pub open spec fn differ(d: Seq<u16>, a: int, b: int) -> Option<bool> {
    if d[a] != d[b] {
        Some(d[a] > d[b])
    } else {
        None
    }
}

/// The block data compared at positions `t..12` from `a` and `b`.
pub open spec fn head_diff(bd: Seq<u16>, a: int, b: int, t: int) -> Option<bool>
    decreases 12 - t,
{
    if t >= 12 {
        None
    } else {
        match differ(bd, a + t, b + t) {
            Some(r) => Some(r),
            None => head_diff(bd, a, b, t + 1),
        }
    }
}

/// One round: block data then quadrant, at positions `t..8` from `a` and `b`.
pub open spec fn round_diff(bd: Seq<u16>, q: Seq<u16>, a: int, b: int, t: int) -> Option<bool>
    decreases 8 - t,
{
    if t >= 8 {
        None
    } else {
        match differ(bd, a + t, b + t) {
            Some(r) => Some(r),
            None => match differ(q, a + t, b + t) {
                Some(r) => Some(r),
                None => round_diff(bd, q, a, b, t + 1),
            },
        }
    }
}

/// The rounds from `a` and `b` while the counter `k` is not negative: the result and
/// the number of rounds that found no difference.
pub open spec fn rounds(bd: Seq<u16>, q: Seq<u16>, end: int, a: int, b: int, k: int, mode: WrapMode) -> (
    bool,
    nat,
)
    decreases k + 8,
{
    if k < 0 {
        (false, 0)
    } else {
        match round_diff(bd, q, a, b, 0) {
            Some(r) => (r, 0),
            None => {
                let rest = rounds(bd, q, end, wrap(a + 8, end, mode), wrap(b + 8, end, mode), k - 8, mode);
                (rest.0, rest.1 + 1)
            },
        }
    }
}

/// Whether the rotation at `i1` is greater than the one at `i2`, and the rounds spent.
pub open spec fn gtu(bd: Seq<u16>, q: Seq<u16>, end: int, i1: int, i2: int, mode: WrapMode) -> (bool, nat) {
    match head_diff(bd, i1, i2, 0) {
        Some(r) => (r, 0),
        None => rounds(bd, q, end, i1 + 12, i2 + 12, end + 8, mode),
    }
}

/// What the comparison needs: positions within ten of the end, block data and quadrant
/// extended thirty past the end (and to at least 38 positions for an end below eight,
/// where a second round starts up to thirty in), and room in the budget for every round.
pub open spec fn gtu_ready(bd: Seq<u16>, q: Seq<u16>, end: int, i1: int, i2: int, budget: int) -> bool {
    &&& 0 <= i1 <= end + 10
    &&& 0 <= i2 <= end + 10
    &&& 1 <= end <= i32::MAX - 8
    &&& bd.len() >= end + 30
    &&& q.len() >= end + 30
    &&& (end >= 8 || (bd.len() >= 38 && q.len() >= 38))
    &&& budget >= i32::MIN + end / 8 + 2
}

/// The rounds are never more than the counter allows.
proof fn lemma_rounds_count(bd: Seq<u16>, q: Seq<u16>, end: int, a: int, b: int, k: int, mode: WrapMode)
    ensures
        rounds(bd, q, end, a, b, k, mode).1 <= if k < 0 {
            0
        } else {
            k / 8 + 1
        },
    decreases k + 8,
{
    if k >= 0 {
        lemma_rounds_count(bd, q, end, wrap(a + 8, end, mode), wrap(b + 8, end, mode), k - 8, mode);
    }
}

/// A comparison never costs more than `end / 8 + 2` rounds.
pub proof fn lemma_gtu_cost(bd: Seq<u16>, q: Seq<u16>, end: int, i1: int, i2: int, mode: WrapMode)
    requires
        end >= 0,
    ensures
        gtu(bd, q, end, i1, i2, mode).1 <= end / 8 + 2,
{
    lemma_rounds_count(bd, q, end, i1 + 12, i2 + 12, end + 8, mode);
}

/// The values that the comparison reads for the rotation at `i`, positions taken modulo
/// `end`: the block data at the first twelve positions, then, for each of `r` rounds of
/// eight positions, the block data and the quadrant value at each position.
pub open spec fn gtu_keys(bd: Seq<u16>, q: Seq<u16>, end: int, i: int, r: nat) -> Seq<u16> {
    Seq::new(
        12 + 16 * r,
        |k: int|
            if k < 12 {
                bd[(i + k) % end]
            } else if (k - 12) % 2 == 0 {
                bd[(i + 12 + (k - 12) / 2) % end]
            } else {
                q[(i + 12 + (k - 12) / 2) % end]
            },
    )
}

/// Whether `x` is greater than `y` at the first place from `k` where they differ; false
/// where they do not differ.
pub open spec fn first_gt(x: Seq<u16>, y: Seq<u16>, k: int) -> bool
    decreases x.len() - k,
{
    if k >= x.len() || k < 0 {
        false
    } else if x[k] != y[k] {
        x[k] > y[k]
    } else {
        first_gt(x, y, k + 1)
    }
}

/// The block data and the quadrant repeat with period `end` over the extended part.
#[verifier::opaque]
pub open spec fn periodic(bd: Seq<u16>, q: Seq<u16>, end: int) -> bool {
    &&& bd.len() >= end + 30
    &&& q.len() >= end + 30
    &&& forall|j: int| 0 <= j < end + 30 ==> #[trigger] bd[j] == bd[j % end]
    &&& forall|j: int| 0 <= j < end + 30 ==> #[trigger] q[j] == q[j % end]
}

/// The number of rounds that the counter allows.
pub open spec fn round_count(end: int) -> nat {
    ((end + 8) / 8 + 1) as nat
}

/// The first twelve places.
proof fn lemma_head_keys(bd: Seq<u16>, q: Seq<u16>, end: int, i1: int, i2: int, r: nat, t: int)
    requires
        1 <= end,
        0 <= i1 < end,
        0 <= i2 < end,
        periodic(bd, q, end),
        0 <= t <= 12,
    ensures
        ({
            let x = gtu_keys(bd, q, end, i1, r);
            let y = gtu_keys(bd, q, end, i2, r);
            match head_diff(bd, i1, i2, t) {
                Some(g) => first_gt(x, y, t) == g,
                None => first_gt(x, y, t) == first_gt(x, y, 12),
            }
        }),
    decreases 12 - t,
{
    if t < 12 {
        lemma_head_keys(bd, q, end, i1, i2, r, t + 1);
        let x = gtu_keys(bd, q, end, i1, r);
        let y = gtu_keys(bd, q, end, i2, r);
        reveal(periodic);
        assert(bd[i1 + t] == bd[(i1 + t) % end]);
        assert(bd[i2 + t] == bd[(i2 + t) % end]);
        assert(x[t] == bd[i1 + t] && y[t] == bd[i2 + t]);
    }
}

/// The two values of position `t` of round `j`, read where the round starts at `a`.
proof fn lemma_round_key_at(bd: Seq<u16>, q: Seq<u16>, end: int, i: int, r: nat, j: nat, a: int, t: int)
    requires
        1 <= end,
        0 <= i < end,
        periodic(bd, q, end),
        j < r,
        0 <= a <= end + 11,
        a % end == (i + 12 + 8 * j) % end,
        0 <= t < 8,
    ensures
        12 + 16 * j + 2 * t + 1 < 12 + 16 * r,
        gtu_keys(bd, q, end, i, r)[12 + 16 * j + 2 * t] == bd[a + t],
        gtu_keys(bd, q, end, i, r)[12 + 16 * j + 2 * t + 1] == q[a + t],
{
    let x = gtu_keys(bd, q, end, i, r);
    let k = 12 + 16 * j + 2 * t;
    assert(k + 1 < 12 + 16 * r) by (nonlinear_arith)
        requires
            k == 12 + 16 * j + 2 * t,
            j < r,
            t < 8,
    ;
    assert((k - 12) / 2 == 8 * j + t && (k - 12) % 2 == 0);
    assert((k + 1 - 12) / 2 == 8 * j + t && (k + 1 - 12) % 2 == 1);
    vstd::arithmetic::div_mod::lemma_add_mod_noop(a, t, end);
    vstd::arithmetic::div_mod::lemma_add_mod_noop(i + 12 + 8 * j, t, end);
    assert((a + t) % end == (i + 12 + 8 * j + t) % end);
    reveal(periodic);
    assert(bd[a + t] == bd[(a + t) % end]);
    assert(q[a + t] == q[(a + t) % end]);
}

/// The places of one round, from its position `t`.
proof fn lemma_round_keys(
    bd: Seq<u16>,
    q: Seq<u16>,
    end: int,
    i1: int,
    i2: int,
    r: nat,
    j: nat,
    a: int,
    b: int,
    t: int,
)
    requires
        1 <= end,
        0 <= i1 < end,
        0 <= i2 < end,
        periodic(bd, q, end),
        j < r,
        0 <= a <= end + 11,
        0 <= b <= end + 11,
        a % end == (i1 + 12 + 8 * j) % end,
        b % end == (i2 + 12 + 8 * j) % end,
        0 <= t <= 8,
    ensures
        ({
            let x = gtu_keys(bd, q, end, i1, r);
            let y = gtu_keys(bd, q, end, i2, r);
            match round_diff(bd, q, a, b, t) {
                Some(g) => first_gt(x, y, 12 + 16 * j + 2 * t) == g,
                None => first_gt(x, y, 12 + 16 * j + 2 * t) == first_gt(x, y, (12 + 16 * (j + 1)) as int),
            }
        }),
    decreases 8 - t,
{
    if t < 8 {
        lemma_round_keys(bd, q, end, i1, i2, r, j, a, b, t + 1);
        let k = 12 + 16 * j + 2 * t;
        lemma_round_key_at(bd, q, end, i1, r, j, a, t);
        lemma_round_key_at(bd, q, end, i2, r, j, b, t);
        let x = gtu_keys(bd, q, end, i1, r);
        let y = gtu_keys(bd, q, end, i2, r);
        assert(first_gt(x, y, k + 1) == if x[k + 1] != y[k + 1] {
            x[k + 1] > y[k + 1]
        } else {
            first_gt(x, y, k + 2)
        });
        assert(first_gt(x, y, k) == if x[k] != y[k] {
            x[k] > y[k]
        } else {
            first_gt(x, y, k + 1)
        });
        assert(12 + 16 * j + 2 * (t + 1) == k + 2);
    }
}

/// The rounds from round `j` on, with the counter `end + 8 - 8 * j`.
proof fn lemma_rounds_keys(bd: Seq<u16>, q: Seq<u16>, end: int, i1: int, i2: int, j: nat, a: int, b: int)
    requires
        1 <= end,
        0 <= i1 < end,
        0 <= i2 < end,
        periodic(bd, q, end),
        j <= round_count(end),
        0 <= a <= end + 11,
        0 <= b <= end + 11,
        a % end == (i1 + 12 + 8 * j) % end,
        b % end == (i2 + 12 + 8 * j) % end,
    ensures
        rounds(bd, q, end, a, b, end + 8 - 8 * j, WrapMode::Modulo).0 == first_gt(
            gtu_keys(bd, q, end, i1, round_count(end)),
            gtu_keys(bd, q, end, i2, round_count(end)),
            (12 + 16 * j) as int,
        ),
    decreases round_count(end) - j,
{
    let r = round_count(end);
    let x = gtu_keys(bd, q, end, i1, r);
    let y = gtu_keys(bd, q, end, i2, r);
    let k = end + 8 - 8 * j;
    if k < 0 {
        assert(j == r);
        assert(x.len() == 12 + 16 * r);
    } else {
        assert(j < r);
        lemma_round_keys(bd, q, end, i1, i2, r, j, a, b, 0);
        let a2 = wrap(a + 8, end, WrapMode::Modulo);
        let b2 = wrap(b + 8, end, WrapMode::Modulo);
        vstd::arithmetic::div_mod::lemma_add_mod_noop(a, 8, end);
        vstd::arithmetic::div_mod::lemma_add_mod_noop(i1 + 12 + 8 * j, 8, end);
        vstd::arithmetic::div_mod::lemma_add_mod_noop(b, 8, end);
        vstd::arithmetic::div_mod::lemma_add_mod_noop(i2 + 12 + 8 * j, 8, end);
        vstd::arithmetic::div_mod::lemma_mod_twice(a + 8, end);
        vstd::arithmetic::div_mod::lemma_mod_twice(b + 8, end);
        assert(a2 % end == (i1 + 12 + 8 * (j + 1)) % end);
        assert(b2 % end == (i2 + 12 + 8 * (j + 1)) % end);
        lemma_rounds_keys(bd, q, end, i1, i2, j + 1, a2, b2);
        assert(end + 8 - 8 * (j + 1) == k - 8);
    }
}

/// On block data and a quadrant that repeat with period `end` past the end, the
/// comparison of the rotations at `i1` and `i2` is lexicographic: the rotation at `i1` is
/// found greater exactly where its values ([`gtu_keys`]) are greater than those of the
/// rotation at `i2` at the first place where they differ, over as many rounds as the
/// counter allows; equal values give false.
pub proof fn lemma_gtu_lexicographic(bd: Seq<u16>, q: Seq<u16>, end: int, i1: int, i2: int)
    requires
        1 <= end,
        0 <= i1 < end,
        0 <= i2 < end,
        periodic(bd, q, end),
    ensures
        gtu(bd, q, end, i1, i2, WrapMode::Modulo).0 == first_gt(
            gtu_keys(bd, q, end, i1, round_count(end)),
            gtu_keys(bd, q, end, i2, round_count(end)),
            0,
        ),
{
    let r = round_count(end);
    lemma_head_keys(bd, q, end, i1, i2, r, 0);
    lemma_rounds_keys(bd, q, end, i1, i2, 0, i1 + 12, i2 + 12);
}

/// Compares the block data at `a` and `b`.
fn check_data(data: &[u16], a: usize, b: usize) -> (r: Option<bool>)
    requires
        a < data@.len(),
        b < data@.len(),
    ensures
        r == differ(data@, a as int, b as int),
{
    if data[a] != data[b] {
        Some(data[a] > data[b])
    } else {
        None
    }
}

/// The comparison with a given way of wrapping, shared by the versions below.
pub(crate) fn gtu_with(
    i1: usize,
    i2: usize,
    block_data: &[u16],
    quadrant: &[u16],
    end: usize,
    budget: &mut i32,
    mode: u8,
) -> (res: bool)
    requires
        mode < 3,
        gtu_ready(block_data@, quadrant@, end as int, i1 as int, i2 as int, *old(budget) as int),
    ensures
        res == gtu(block_data@, quadrant@, end as int, i1 as int, i2 as int, mode_of(mode)).0,
        *final(budget) == *old(budget) - gtu(
            block_data@,
            quadrant@,
            end as int,
            i1 as int,
            i2 as int,
            mode_of(mode),
        ).1,
{
    let ghost bd = block_data@;
    let ghost q = quadrant@;
    let ghost m = mode_of(mode);
    let mut a = i1;
    let mut b = i2;
    // Check block data 12 times
    let mut t: usize = 0;
    while t < 12
        invariant
            bd == block_data@,
            gtu_ready(bd, q, end as int, i1 as int, i2 as int, *old(budget) as int),
            t <= 12,
            a == i1 + t,
            b == i2 + t,
            head_diff(bd, i1 as int, i2 as int, 0) == head_diff(bd, i1 as int, i2 as int, t as int),
            *budget == *old(budget),
        decreases 12 - t,
    {
        if let Some(result) = check_data(block_data, a, b) {
            return result;
        }
        a = a + 1;
        b = b + 1;
        t = t + 1;
    }
    let ghost start_budget = *budget;
    let mut k: i32 = end as i32 + 8;
    let ghost total = rounds(bd, q, end as int, a as int, b as int, k as int, m);
    let ghost mut done: nat = 0;
    proof {
        lemma_rounds_count(bd, q, end as int, a as int, b as int, k as int, m);
    }
    while k >= 0
        invariant
            bd == block_data@,
            q == quadrant@,
            1 <= end <= i32::MAX - 8,
            bd.len() >= end + 30,
            q.len() >= end + 30,
            (end >= 8 || (bd.len() >= 38 && q.len() >= 38)),
            m == mode_of(mode),
            mode < 3,
            a <= end + 38,
            b <= end + 38,
            k >= 0 ==> (a <= end + 22 || (end < 8 && a <= 30 && k <= end)),
            k >= 0 ==> (b <= end + 22 || (end < 8 && b <= 30 && k <= end)),
            k <= end + 8,
            total.0 == rounds(bd, q, end as int, a as int, b as int, k as int, m).0,
            total.1 == rounds(bd, q, end as int, a as int, b as int, k as int, m).1 + done,
            *budget == start_budget - done,
            start_budget >= i32::MIN + end / 8 + 2,
            total.1 <= (end + 8) / 8 + 1,
            gtu(bd, q, end as int, i1 as int, i2 as int, m) == total,
            start_budget == *old(budget),
        decreases k + 8,
    {
        let mut t: usize = 0;
        while t < 8
            invariant
                bd == block_data@,
                q == quadrant@,
                a + 8 <= bd.len(),
                b + 8 <= bd.len(),
                a + 8 <= q.len(),
                b + 8 <= q.len(),
                a <= end + 38,
                b <= end + 38,
                t <= 8,
                1 <= end <= i32::MAX - 8,
                round_diff(bd, q, a as int, b as int, 0) == round_diff(bd, q, a as int, b as int, t as int),
                k >= 0,
                m == mode_of(mode),
                total.0 == rounds(bd, q, end as int, a as int, b as int, k as int, m).0,
                total.1 == rounds(bd, q, end as int, a as int, b as int, k as int, m).1 + done,
                *budget == start_budget - done,
                gtu(bd, q, end as int, i1 as int, i2 as int, m) == total,
                start_budget == *old(budget),
            decreases 8 - t,
        {
            let ap = a + t;
            let bp = b + t;
            if let Some(result) = check_data(block_data, ap, bp) {
                return result;
            }
            if let Some(result) = check_data(quadrant, ap, bp) {
                return result;
            }
            t = t + 1;
        }
        proof {
            lemma_rounds_count(bd, q, end as int, a as int, b as int, k as int, m);
        }
        let na = a + 8;
        let nb = b + 8;
        a = wrap_exec(na, end, mode);
        b = wrap_exec(nb, end, mode);
        k = k - 8;
        proof {
            done = done + 1;
        }
        *budget = *budget - 1;
    }
    false
}

/// The way of wrapping that a mode number names.
pub open spec fn mode_of(mode: u8) -> WrapMode {
    if mode == 0 {
        WrapMode::Above
    } else if mode == 1 {
        WrapMode::AtOrAbove
    } else {
        WrapMode::Modulo
    }
}

/// Wraps a position after a round.
fn wrap_exec(x: usize, end: usize, mode: u8) -> (r: usize)
    requires
        1 <= end,
        mode < 3,
    ensures
        r == wrap(x as int, end as int, mode_of(mode)),
        r <= x,
        x <= end + 30 && end >= 8 ==> r <= end + 22,
        x <= end + 30 && end < 8 ==> r <= 30,
{
    proof {
        vstd::arithmetic::div_mod::lemma_mod_bound(x as int, end as int);
        vstd::arithmetic::div_mod::lemma_mod_decreases(x as nat, end as nat);
    }
    if mode == 0 {
        if x > end {
            x - end
        } else {
            x
        }
    } else if mode == 1 {
        if x >= end {
            x - end
        } else {
            x
        }
    } else {
        x % end
    }
}

} // verus!
