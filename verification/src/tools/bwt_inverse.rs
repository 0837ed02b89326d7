//! Inverting the Burrows-Wheeler transform. The last column `L` of the sorted
//! rotations determines the first column; the last-first mapping sends each row to
//! the row of the rotation that starts one byte earlier. Walking the inverse of that
//! mapping from the key reads the original data back out of `L`.
use vstd::prelude::*;
use vstd::set_lib::*;
use vstd::relations::injective_on;

verus! {

/// How many bytes of `s` are below `c`.
pub open spec fn count_lt(s: Seq<u8>, c: int) -> nat
    decreases s.len(),
{
    if s.len() == 0 {
        0
    } else {
        count_lt(s.drop_last(), c) + if (s.last() as int) < c {
            1nat
        } else {
            0nat
        }
    }
}

/// How many bytes of `s` equal `c`.
pub open spec fn count_eq(s: Seq<u8>, c: int) -> nat
    decreases s.len(),
{
    if s.len() == 0 {
        0
    } else {
        count_eq(s.drop_last(), c) + if s.last() as int == c {
            1nat
        } else {
            0nat
        }
    }
}

/// The last-first mapping of the transformed block `s`: the bytes of `s` below `s[i]`,
/// plus the copies of `s[i]` that come before position `i`.
pub open spec fn lf(s: Seq<u8>, i: int) -> int {
    (count_lt(s, s[i] as int) + count_eq(s.take(i), s[i] as int)) as int
}

/// The position that the last-first mapping sends to `r`.
pub open spec fn lf_inverse(s: Seq<u8>, r: int) -> int {
    choose|i: int| 0 <= i < s.len() && lf(s, i) == r
}

/// The position reached after `j` steps of the inverse mapping from `start`.
pub open spec fn walk(s: Seq<u8>, start: int, j: nat) -> int
    decreases j,
{
    if j == 0 {
        start
    } else {
        lf_inverse(s, walk(s, start, (j - 1) as nat))
    }
}

/// The bytes of `s` read along the walk from `start`, one for each byte of `s`.
pub open spec fn inverse_bwt(s: Seq<u8>, start: int) -> Seq<u8> {
    Seq::new(s.len(), |j: int| s[walk(s, start, j as nat)])
}

/// Counts never exceed the length.
pub proof fn lemma_count_bounds(s: Seq<u8>, c: int)
    ensures
        count_lt(s, c) <= s.len(),
        count_eq(s, c) <= s.len(),
        c <= 0 ==> count_lt(s, c) == 0,
        c >= 256 ==> count_lt(s, c) == s.len(),
    decreases s.len(),
{
    if s.len() > 0 {
        lemma_count_bounds(s.drop_last(), c);
    }
}

/// The bytes below `c + 1` are those below `c` and those equal to `c`.
pub proof fn lemma_count_lt_step(s: Seq<u8>, c: int)
    ensures
        count_lt(s, c + 1) == count_lt(s, c) + count_eq(s, c),
    decreases s.len(),
{
    if s.len() > 0 {
        lemma_count_lt_step(s.drop_last(), c);
    }
}

/// `count_lt` grows with its bound.
pub proof fn lemma_count_lt_mono(s: Seq<u8>, c: int, d: int)
    requires
        c <= d,
    ensures
        count_lt(s, c) <= count_lt(s, d),
    decreases s.len(),
{
    if s.len() > 0 {
        lemma_count_lt_mono(s.drop_last(), c, d);
    }
}

/// Extending a prefix by one byte.
pub proof fn lemma_count_eq_take_step(s: Seq<u8>, i: int, c: int)
    requires
        0 <= i < s.len(),
    ensures
        count_eq(s.take(i + 1), c) == count_eq(s.take(i), c) + if s[i] as int == c {
            1nat
        } else {
            0nat
        },
{
    assert(s.take(i + 1).drop_last() =~= s.take(i));
}

/// Counts over prefixes grow with the prefix.
pub proof fn lemma_count_eq_take_mono(s: Seq<u8>, i: int, j: int, c: int)
    requires
        0 <= i <= j <= s.len(),
    ensures
        count_eq(s.take(i), c) <= count_eq(s.take(j), c),
    decreases j - i,
{
    if i < j {
        lemma_count_eq_take_step(s, j - 1, c);
        lemma_count_eq_take_mono(s, i, j - 1, c);
    }
}

/// The last-first mapping stays within the block.
pub proof fn lemma_lf_bounds(s: Seq<u8>, i: int)
    requires
        0 <= i < s.len(),
    ensures
        0 <= lf(s, i) < s.len(),
        lf(s, i) < count_lt(s, s[i] as int + 1),
{
    let c = s[i] as int;
    lemma_count_eq_take_step(s, i, c);
    lemma_count_eq_take_mono(s, i + 1, s.len() as int, c);
    assert(s.take(s.len() as int) =~= s);
    lemma_count_lt_step(s, c);
    lemma_count_lt_mono(s, c + 1, 256);
    lemma_count_bounds(s, 256);
}

/// Two positions never share an image under the last-first mapping.
pub proof fn lemma_lf_injective(s: Seq<u8>, i: int, j: int)
    requires
        0 <= i < s.len(),
        0 <= j < s.len(),
        i != j,
    ensures
        lf(s, i) != lf(s, j),
{
    let a = if i < j { i } else { j };
    let b = if i < j { j } else { i };
    let c = s[a] as int;
    let d = s[b] as int;
    lemma_lf_bounds(s, a);
    lemma_lf_bounds(s, b);
    if c == d {
        lemma_count_eq_take_step(s, a, c);
        lemma_count_eq_take_mono(s, a + 1, b, c);
    } else if c < d {
        lemma_count_lt_mono(s, c + 1, d);
    } else {
        lemma_count_lt_mono(s, d + 1, c);
    }
}

/// Every row of the block is the image of some position under the last-first mapping.
pub proof fn lemma_lf_surjective(s: Seq<u8>, r: int)
    requires
        0 <= r < s.len(),
    ensures
        exists|i: int| 0 <= i < s.len() && lf(s, i) == r,
{
    let n = s.len() as int;
    let dom = set_int_range(0, n);
    let f = |i: int| lf(s, i);
    lemma_int_range(0, n);
    assert(injective_on(f, dom)) by {
        assert forall|x1: int, x2: int|
            dom.contains(x1) && dom.contains(x2) && #[trigger] f(x1) == #[trigger] f(x2) implies x1
            == x2 by {
            if x1 != x2 {
                lemma_lf_injective(s, x1, x2);
            }
        }
    }
    let img = dom.map(f);
    lemma_map_size(dom, img, f);
    assert(img.subset_of(dom)) by {
        assert forall|y: int| img.contains(y) implies dom.contains(y) by {
            let x = choose|x: int| dom.contains(x) && f(x) == y;
            lemma_lf_bounds(s, x);
        }
    }
    lemma_subset_equality(img, dom);
    assert(dom.contains(r));
    assert(img.contains(r));
    let x = choose|x: int| dom.contains(x) && f(x) == r;
    assert(0 <= x < n && lf(s, x) == r);
}

/// The inverse mapping picks the one position whose image is `r`.
pub proof fn lemma_lf_inverse(s: Seq<u8>, r: int)
    requires
        0 <= r < s.len(),
    ensures
        0 <= lf_inverse(s, r) < s.len(),
        lf(s, lf_inverse(s, r)) == r,
        forall|i: int| 0 <= i < s.len() && lf(s, i) == r ==> i == lf_inverse(s, r),
{
    lemma_lf_surjective(s, r);
    let x = lf_inverse(s, r);
    assert forall|i: int| 0 <= i < s.len() && lf(s, i) == r implies i == x by {
        if i != x {
            lemma_lf_injective(s, i, x);
        }
    }
}

/// The walk never leaves the block.
pub proof fn lemma_walk_bounds(s: Seq<u8>, start: int, j: nat)
    requires
        0 <= start < s.len(),
    ensures
        0 <= walk(s, start, j) < s.len(),
    decreases j,
{
    if j > 0 {
        lemma_walk_bounds(s, start, (j - 1) as nat);
        lemma_lf_inverse(s, walk(s, start, (j - 1) as nat));
    }
}

/// A table of 256 zero counts.
pub(crate) fn zero_counts() -> (counts: Vec<usize>)
    ensures
        counts@.len() == 256,
        forall|c: int| 0 <= c < 256 ==> counts@[c] == 0,
{
    let mut counts: Vec<usize> = Vec::with_capacity(256);
    let mut i: usize = 0;
    while i < 256
        invariant
            i <= 256,
            counts@.len() == i,
            forall|c: int| 0 <= c < i ==> counts@[c] == 0,
        decreases 256 - i,
    {
        counts.push(0);
        i = i + 1;
    }
    counts
}

/// How often each byte value occurs in `data`.
pub(crate) fn byte_counts(data: &[u8]) -> (freq: Vec<usize>)
    ensures
        freq@.len() == 256,
        forall|c: int| 0 <= c < 256 ==> freq@[c] == count_eq(data@, c),
{
    let mut freq = zero_counts();
    let mut i: usize = 0;
    while i < data.len()
        invariant
            i <= data@.len(),
            freq@.len() == 256,
            forall|c: int| 0 <= c < 256 ==> freq@[c] == count_eq(data@.take(i as int), c),
        decreases data.len() - i,
    {
        let b = data[i] as usize;
        proof {
            assert forall|c: int| 0 <= c < 256 implies count_eq(data@.take(i + 1), c)
                == count_eq(data@.take(i as int), c) + if data@[i as int] as int == c {
                1nat
            } else {
                0nat
            } by {
                lemma_count_eq_take_step(data@, i as int, c);
            }
            lemma_count_bounds(data@.take(i as int), b as int);
        }
        freq.set(b, freq[b] + 1);
        i = i + 1;
    }
    proof {
        assert(data@.take(data@.len() as int) =~= data@);
    }
    freq
}

/// The table of the inverse last-first mapping: entry `r` is the position that the
/// mapping sends to `r`.
pub(crate) fn last_first_table(bwt_in: &[u8]) -> (t: Vec<usize>)
    ensures
        t@.len() == bwt_in@.len(),
        forall|r: int| 0 <= r < bwt_in@.len() ==> t@[r] == lf_inverse(bwt_in@, r),
        forall|r: int| 0 <= r < bwt_in@.len() ==> t@[r] < bwt_in@.len(),
{
    let ghost s = bwt_in@;
    let n = bwt_in.len();
    let mut freq = byte_counts(bwt_in);
    // turn the counts into the number of smaller bytes
    let mut sum: usize = 0;
    let mut c: usize = 0;
    proof {
        lemma_count_bounds(s, 0);
    }
    while c < 256
        invariant
            s == bwt_in@,
            n == s.len(),
            c <= 256,
            freq@.len() == 256,
            sum == count_lt(s, c as int),
            forall|d: int| 0 <= d < c ==> freq@[d] == count_lt(s, d),
            forall|d: int| c <= d < 256 ==> freq@[d] == count_eq(s, d),
        decreases 256 - c,
    {
        let tmp = freq[c];
        proof {
            lemma_count_lt_step(s, c as int);
            lemma_count_bounds(s, c as int + 1);
        }
        freq.set(c, sum);
        sum = sum + tmp;
        c = c + 1;
    }
    let mut t: Vec<usize> = Vec::with_capacity(n);
    let mut k: usize = 0;
    while k < n
        invariant
            k <= n,
            t@.len() == k,
            forall|r: int| 0 <= r < k ==> t@[r] == 0,
        decreases n - k,
    {
        t.push(0);
        k = k + 1;
    }
    let mut i: usize = 0;
    while i < n
        invariant
            s == bwt_in@,
            n == s.len(),
            i <= n,
            t@.len() == n,
            freq@.len() == 256,
            forall|d: int| 0 <= d < 256 ==> freq@[d] == count_lt(s, d) + count_eq(s.take(i as int), d),
            forall|j: int| 0 <= j < i ==> t@[lf(s, j)] == j,
        decreases n - i,
    {
        let b = bwt_in[i] as usize;
        let pos = freq[b];
        proof {
            lemma_lf_bounds(s, i as int);
            assert(pos == lf(s, i as int));
            assert forall|d: int| 0 <= d < 256 implies count_eq(s.take(i + 1), d) == count_eq(
                s.take(i as int),
                d,
            ) + if s[i as int] as int == d {
                1nat
            } else {
                0nat
            } by {
                lemma_count_eq_take_step(s, i as int, d);
            }
        }
        t.set(pos, i);
        freq.set(b, pos + 1);
        proof {
            assert forall|j: int| 0 <= j < i + 1 implies t@[lf(s, j)] == j by {
                if j < i {
                    lemma_lf_injective(s, j, i as int);
                    lemma_lf_bounds(s, j);
                }
            }
        }
        i = i + 1;
    }
    proof {
        assert forall|r: int| 0 <= r < n implies #[trigger] t@[r] == lf_inverse(s, r) && t@[r] < n by {
            lemma_lf_inverse(s, r);
            let j = lf_inverse(s, r);
            assert(t@[lf(s, j)] == j);
        }
    }
    t
}

} // verus!
