//! A Burrows-Wheeler decoder built for interleaved decoding. Its last-first table is
//! built from the plain counts of the bytes: the step that would turn the counts into
//! running sums is never taken, so entry `i` is the count of the byte at `i` plus the
//! copies of it before `i`, and the walk steps along that table from the key.
use vstd::prelude::*;
use crate::tools::bwt_inverse::{byte_counts, count_eq, lemma_count_bounds, lemma_count_eq_take_step};

verus! {

/// Entry `i` of the table: the count of the byte at `i`, plus the copies of it before `i`.
pub open spec fn count_step(s: Seq<u8>, i: int) -> int {
    (count_eq(s, s[i] as int) + count_eq(s.take(i), s[i] as int)) as int
}

/// The row reached after `j` steps along the table from `key`.
pub open spec fn count_walk(s: Seq<u8>, key: int, j: nat) -> int
    decreases j,
{
    if j == 0 {
        key
    } else {
        count_step(s, count_walk(s, key, (j - 1) as nat))
    }
}

/// What the decoder needs: every entry of its table is a row of the block, and the key
/// too where there is a block.
pub open spec fn steps_inside(s: Seq<u8>, key: int) -> bool {
    &&& s.len() == 0 || 0 <= key < s.len()
    &&& forall|i: int| 0 <= i < s.len() ==> #[trigger] count_step(s, i) < s.len()
}

/// A pair of bytes and the row two steps on.
#[allow(dead_code)]
struct Ibwtdata2 {
    syms: usize,
    index: usize,
}

/// The walk stays inside the block.
proof fn lemma_count_walk_inside(s: Seq<u8>, key: int, j: nat)
    requires
        s.len() > 0,
        steps_inside(s, key),
    ensures
        0 <= count_walk(s, key, j) < s.len(),
    decreases j,
{
    if j > 0 {
        lemma_count_walk_inside(s, key, (j - 1) as nat);
        let r = count_walk(s, key, (j - 1) as nat);
        assert(count_step(s, r) < s.len());
    }
}

/// Decodes the block `bwt_in` from `key`: byte `j` of the result is the byte at the row
/// reached after `j` steps along the table of [`count_step`].
pub fn bwt_decode_2x1(key: u32, bwt_in: &[u8]) -> (raw: Vec<u8>)
    requires
        steps_inside(bwt_in@, key as int),
    ensures
        raw@.len() == bwt_in@.len(),
        forall|j: int| 0 <= j < bwt_in@.len() ==> raw@[j] == bwt_in@[count_walk(bwt_in@, key as int, j as nat)],
{
    let ghost s = bwt_in@;
    let n = bwt_in.len();
    let key = key as usize;
    // Get a freq count of symbols
    let mut freq = byte_counts(bwt_in);
    // Build a last-first vector to find the previous character in the original data
    let mut lf: Vec<usize> = Vec::with_capacity(n);
    let mut i: usize = 0;
    while i < n
        invariant
            s == bwt_in@,
            n == s.len(),
            i <= n,
            steps_inside(s, key as int),
            freq@.len() == 256,
            forall|c: int| 0 <= c < 256 ==> freq@[c] == count_eq(s, c) + count_eq(s.take(i as int), c),
            lf@.len() == i,
            forall|k: int| 0 <= k < i ==> lf@[k] == count_step(s, k),
        decreases n - i,
    {
        let b = bwt_in[i] as usize;
        proof {
            assert(count_step(s, i as int) < n);
            assert forall|c: int| 0 <= c < 256 implies count_eq(s.take(i + 1), c) == count_eq(s.take(i as int), c)
                + if s[i as int] as int == c {
                1nat
            } else {
                0nat
            } by {
                lemma_count_eq_take_step(s, i as int, c);
            }
        }
        lf.push(freq[b]);
        freq.set(b, freq[b] + 1);
        i = i + 1;
    }
    // Build the pairs of bytes and the rows two steps on
    let mut ibwtdata2: Vec<Ibwtdata2> = Vec::with_capacity(n);
    let mut i: usize = 0;
    while i < n
        invariant
            s == bwt_in@,
            n == s.len(),
            i <= n,
            steps_inside(s, key as int),
            lf@.len() == n,
            forall|k: int| 0 <= k < n ==> lf@[k] == count_step(s, k),
        decreases n - i,
    {
        let lf1 = lf[i];
        proof {
            assert(count_step(s, i as int) < n);
        }
        let s1 = bwt_in[i];
        let lf2 = lf[lf1];
        let s2 = bwt_in[lf1];
        ibwtdata2.push(Ibwtdata2 { syms: s1 as usize | ((s2 as usize) << 8usize), index: lf2 });
        i = i + 1;
    }
    // Walk the table from the key
    let mut raw: Vec<u8> = Vec::with_capacity(n);
    let mut src = key;
    let mut outi: usize = 0;
    while outi < n
        invariant
            s == bwt_in@,
            n == s.len(),
            outi <= n,
            steps_inside(s, key as int),
            lf@.len() == n,
            forall|k: int| 0 <= k < n ==> lf@[k] == count_step(s, k),
            src == count_walk(s, key as int, outi as nat),
            raw@.len() == outi,
            forall|j: int| 0 <= j < outi ==> raw@[j] == s[count_walk(s, key as int, j as nat)],
        decreases n - outi,
    {
        proof {
            lemma_count_walk_inside(s, key as int, outi as nat);
        }
        raw.push(bwt_in[src]);
        src = lf[src];
        outi = outi + 1;
    }
    raw
}

} // verus!
