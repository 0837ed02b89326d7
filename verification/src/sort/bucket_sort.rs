//! The fallback block sort: bucket the rotations by their first byte, then refine the
//! buckets by doubling the compared length, sorting each bucket by the bucket of the
//! rotation that many bytes on.
use vstd::prelude::*;
use crate::sort::fallback::{fallback_q_sort3, in_bounds, permuted_within, lemma_permuted_widen};
use crate::tools::bwt::{bwt_out, is_perm, row_of};
use crate::tools::compress::Block;
use vstd::relations::injective_on;
use vstd::set_lib::*;

verus! {

broadcast use vstd::seq_lib::group_to_multiset_ensures;

/// How often `b` occurs in `s`.
pub open spec fn count_byte(s: Seq<u8>, b: int) -> nat
    decreases s.len(),
{
    if s.len() == 0 {
        0
    } else {
        count_byte(s.drop_last(), b) + if s.last() as int == b {
            1nat
        } else {
            0nat
        }
    }
}

/// How many bytes of `s` are below `k`.
pub open spec fn count_below(s: Seq<u8>, k: int) -> nat
    decreases k,
{
    if k <= 0 {
        0
    } else {
        count_below(s, k - 1) + count_byte(s, k - 1)
    }
}

proof fn lemma_count_below_push(s: Seq<u8>, x: u8, k: int)
    ensures
        count_below(s.push(x), k) == count_below(s, k) + if 0 <= x < k {
            1nat
        } else {
            0nat
        },
    decreases k,
{
    assert(s.push(x).drop_last() =~= s);
    if k > 0 {
        lemma_count_below_push(s, x, k - 1);
    }
}

proof fn lemma_count_below_empty(s: Seq<u8>, k: int)
    requires
        s.len() == 0,
    ensures
        count_below(s, k) == 0,
    decreases k,
{
    if k > 0 {
        lemma_count_below_empty(s, k - 1);
    }
}

/// Every byte is below 256.
proof fn lemma_count_below_all(s: Seq<u8>)
    ensures
        count_below(s, 256) == s.len(),
    decreases s.len(),
{
    if s.len() == 0 {
        lemma_count_below_empty(s, 256);
    } else {
        lemma_count_below_all(s.drop_last());
        lemma_count_below_push(s.drop_last(), s.last(), 256);
        assert(s.drop_last().push(s.last()) =~= s);
    }
}

proof fn lemma_count_below_mono(s: Seq<u8>, j: int, k: int)
    requires
        0 <= j <= k,
    ensures
        count_below(s, j) <= count_below(s, k),
    decreases k - j,
{
    if j < k {
        lemma_count_below_mono(s, j, k - 1);
    }
}

proof fn lemma_count_prefix(s: Seq<u8>, i: int, b: int)
    requires
        0 <= i <= s.len(),
    ensures
        count_byte(s.take(i), b) <= count_byte(s, b),
    decreases s.len() - i,
{
    if i < s.len() {
        lemma_count_prefix(s, i + 1, b);
        assert(s.take(i + 1).drop_last() =~= s.take(i));
    } else {
        assert(s.take(i) =~= s);
    }
}

proof fn lemma_bucket_upto(s: Seq<u8>, x: int, k: int)
    requires
        0 <= x,
        0 <= k <= 256,
        x < count_below(s, k),
    ensures
        exists|b: int| 0 <= b < k && count_below(s, b) <= x < #[trigger] count_below(s, b + 1),
    decreases k,
{
    if k > 0 {
        if count_below(s, k - 1) <= x {
            assert(count_below(s, k - 1) <= x < count_below(s, (k - 1) + 1));
        } else {
            lemma_bucket_upto(s, x, k - 1);
        }
    }
}

/// Every position lies in the bucket of some byte value.
proof fn lemma_bucket_of(s: Seq<u8>, x: int)
    requires
        0 <= x < s.len(),
    ensures
        exists|b: int| 0 <= b < 256 && count_below(s, b) <= x < #[trigger] count_below(s, b + 1),
{
    lemma_count_below_all(s);
    lemma_bucket_upto(s, x, 256);
}

/// The pointers of the rotations, bucketed by their first byte: each bucket of byte `b`
/// holds the positions of `b` in descending order and starts after the bytes below `b`.
/// Returns the pointers and each bucket's start.
pub fn bucket_pointers(data: &[u8]) -> (res: (Vec<u32>, Vec<u32>))
    requires
        data@.len() < 0x4000_0000,
    ensures
        res.0@.len() == data@.len(),
        res.0@.no_duplicates(),
        forall|k: int| 0 <= k < res.0@.len() ==> (res.0@[k] as int) < data@.len(),
        res.1@.len() == 256,
        forall|b: int| 0 <= b < 256 ==> res.1@[b] == count_below(data@, b),
        forall|b: int, x: int|
            #![trigger res.1@[b], res.0@[x]]
            0 <= b < 256 && res.1@[b] <= x < count_below(data@, b + 1) ==> data@[res.0@[x] as int] == b,
{
    let n = data.len();
    let ghost s = data@;
    // how often each byte occurs
    let mut freq: Vec<u32> = vec![0u32; 256];
    let mut idx: usize = 0;
    while idx < n
        invariant
            idx <= n,
            n == s.len(),
            s == data@,
            s.len() < 0x4000_0000,
            freq@.len() == 256,
            forall|b: int| 0 <= b < 256 ==> freq@[b] == count_byte(s.take(idx as int), b),
        decreases n - idx,
    {
        let b = data[idx] as usize;
        proof {
            assert(s.take(idx + 1).drop_last() =~= s.take(idx as int));
            assert(s.take(idx + 1).last() == s[idx as int]);
            lemma_count_prefix(s, idx + 1, b as int);
            assert(count_byte(s.take(idx + 1), b as int) <= idx + 1) by {
                lemma_count_byte_len(s.take(idx + 1), b as int);
            }
        }
        freq.set(b, freq[b] + 1);
        idx = idx + 1;
    }
    proof {
        assert(s.take(n as int) =~= s);
    }
    // the end of each bucket
    let mut sum_freq: Vec<u32> = Vec::with_capacity(257);
    let mut sum: u32 = 0;
    let mut b: usize = 0;
    while b < 256
        invariant
            b <= 256,
            n == s.len(),
            s.len() < 0x4000_0000,
            freq@.len() == 256,
            forall|c: int| 0 <= c < 256 ==> freq@[c] == count_byte(s, c),
            sum == count_below(s, b as int),
            sum_freq@.len() == b,
            forall|c: int| 0 <= c < b ==> sum_freq@[c] == count_below(s, c + 1),
        decreases 256 - b,
    {
        proof {
            lemma_count_below_all(s);
            lemma_count_below_mono(s, b + 1, 256);
        }
        sum = sum + freq[b];
        sum_freq.push(sum);
        b = b + 1;
    }
    // place each position at the top of its bucket's free part
    let mut freq_map: Vec<u32> = vec![0u32; n];
    let mut idx: usize = 0;
    while idx < n
        invariant
            idx <= n,
            n == s.len(),
            s == data@,
            s.len() < 0x4000_0000,
            freq_map@.len() == n,
            sum_freq@.len() == 256,
            forall|c: int| 0 <= c < 256 ==> sum_freq@[c] + count_byte(s.take(idx as int), c) == count_below(s, c + 1),
            forall|c: int, x: int|
                #![trigger sum_freq@[c], freq_map@[x]]
                0 <= c < 256 && sum_freq@[c] <= x < count_below(s, c + 1) ==> (freq_map@[x] as int) < idx && s[freq_map@[x] as int] == c,
            forall|c: int, x1: int, x2: int|
                #![trigger sum_freq@[c], freq_map@[x1], freq_map@[x2]]
                0 <= c < 256 && sum_freq@[c] <= x1 < count_below(s, c + 1) && sum_freq@[c] <= x2 < count_below(s, c + 1) && x1 != x2
                    ==> freq_map@[x1] != freq_map@[x2],
        decreases n - idx,
    {
        let b = data[idx] as usize;
        proof {
            assert(s.take(idx + 1).drop_last() =~= s.take(idx as int));
            assert(s.take(idx + 1).last() == s[idx as int]);
            lemma_count_prefix(s, idx + 1, b as int);
            lemma_count_below_mono(s, b as int, b + 1);
            lemma_count_below_mono(s, b + 1, 256);
            lemma_count_below_all(s);
            assert(count_below(s, b + 1) == count_below(s, b as int) + count_byte(s, b as int));
        }
        let ghost sf = sum_freq@;
        let ghost fm = freq_map@;
        let tmp = sum_freq[b] - 1;
        sum_freq.set(b, tmp);
        proof {
            assert forall|c: int| 0 <= c < 256 && c != b implies (#[trigger] count_below(s, c + 1) <= count_below(s, b as int)
                || count_below(s, b + 1) <= count_below(s, c)) by {
                if c < b {
                    lemma_count_below_mono(s, c + 1, b as int);
                } else {
                    lemma_count_below_mono(s, b + 1, c);
                }
            }
        }
        freq_map.set(tmp as usize, idx as u32);
        proof {
            let t = tmp as int;
            assert forall|c: int, x: int|
                #![trigger sum_freq@[c], freq_map@[x]]
                0 <= c < 256 && sum_freq@[c] <= x < count_below(s, c + 1) implies (freq_map@[x] as int) < idx + 1 && s[freq_map@[x] as int] == c by {
                lemma_count_prefix(s, idx as int, c);
                lemma_count_below_mono(s, c + 1, 256);
                assert(count_below(s, c + 1) == count_below(s, c) + count_byte(s, c));
                if x == t {
                    if c != b {
                        assert(sf[c] <= x);
                    }
                } else {
                    assert(freq_map@[x] == fm[x]);
                    if c == b {
                        assert(sf[c] <= x);
                    }
                    assert(sf[c] <= x);
                    assert(fm[x] < idx);
                }
            }
            assert forall|c: int, x1: int, x2: int|
                #![trigger sum_freq@[c], freq_map@[x1], freq_map@[x2]]
                0 <= c < 256 && sum_freq@[c] <= x1 < count_below(s, c + 1) && sum_freq@[c] <= x2 < count_below(s, c + 1) && x1 != x2
                    implies freq_map@[x1] != freq_map@[x2] by {
                lemma_count_prefix(s, idx as int, c);
                lemma_count_below_mono(s, c + 1, 256);
                assert(count_below(s, c + 1) == count_below(s, c) + count_byte(s, c));
                if x1 == t || x2 == t {
                    if c != b {
                        assert(sf[c] <= t);
                    }
                    let other = if x1 == t { x2 } else { x1 };
                    assert(freq_map@[other] == fm[other]);
                    assert(sf[c] <= other);
                    assert(fm[other] < idx);
                } else {
                    assert(freq_map@[x1] == fm[x1] && freq_map@[x2] == fm[x2]);
                    assert(sf[c] <= x1 && sf[c] <= x2);
                }
            }
        }
        idx = idx + 1;
    }
    proof {
        assert(s.take(n as int) =~= s);
        lemma_count_below_all(s);
        assert forall|x: int| 0 <= x < n implies (freq_map@[x] as int) < n && exists|c: int| 0 <= c < 256 && sum_freq@[c] <= x < #[trigger] count_below(s, c + 1) by {
            lemma_bucket_of(s, x);
            let c = choose|c: int| 0 <= c < 256 && count_below(s, c) <= x < #[trigger] count_below(s, c + 1);
            assert(sum_freq@[c] == count_below(s, c));
        }
        assert forall|i: int, j: int| 0 <= i < n && 0 <= j < n && i != j implies freq_map@[i] != freq_map@[j] by {
            let ci = choose|c: int| 0 <= c < 256 && sum_freq@[c] <= i < #[trigger] count_below(s, c + 1);
            let cj = choose|c: int| 0 <= c < 256 && sum_freq@[c] <= j < #[trigger] count_below(s, c + 1);
            assert(s[freq_map@[i] as int] == ci);
            assert(s[freq_map@[j] as int] == cj);
        }
        assert forall|c: int| 0 <= c < 256 implies sum_freq@[c] == count_below(s, c) by {}
    }
    (freq_map, sum_freq)
}

pub proof fn lemma_count_byte_len(s: Seq<u8>, b: int)
    ensures
        count_byte(s, b) <= s.len(),
    decreases s.len(),
{
    if s.len() > 0 {
        lemma_count_byte_len(s.drop_last(), b);
    }
}

/// The word and the bit within it of bit `i` of the bucket table.
proof fn lemma_word_index(i: usize)
    ensures
        i >> 5usize == i / 32,
        i & 31usize < 32,
{
    assert(i >> 5usize == i / 32 && i & 31usize < 32) by (bit_vector);
}

/// Bit `i` of the bucket table.
pub open spec fn bh_bit(t: Seq<u32>, i: usize) -> bool {
    (t[(i >> 5usize) as int] & (1u32 << ((i & 31usize) as u32))) != 0
}

/// Whether bit `i` of the bucket table is set.
fn is_set_bh(bhtab: &Vec<u32>, i: usize) -> (r: bool)
    requires
        i / 32 < bhtab@.len(),
    ensures
        r == bh_bit(bhtab@, i),
{
    proof {
        lemma_word_index(i);
    }
    let sh = (i & 31) as u32;
    (bhtab[i >> 5] & (1u32 << sh)) != 0
}

/// The bit of bit `i` of the bucket table within its word.
pub open spec fn bh_mask(i: usize) -> u32 {
    1u32 << ((i & 31usize) as u32)
}

/// Sets bit `i` of the bucket table.
fn set_bh(bhtab: &mut Vec<u32>, i: usize)
    requires
        i / 32 < old(bhtab)@.len(),
    ensures
        final(bhtab)@ == old(bhtab)@.update((i / 32) as int, old(bhtab)@[(i / 32) as int] | bh_mask(i)),
{
    proof {
        lemma_word_index(i);
    }
    let sh = (i & 31) as u32;
    let w = bhtab[i >> 5] | (1u32 << sh);
    bhtab.set(i >> 5, w);
}

/// Clears bit `i` of the bucket table.
fn clear_bh(bhtab: &mut Vec<u32>, i: usize)
    requires
        i / 32 < old(bhtab)@.len(),
    ensures
        final(bhtab)@ == old(bhtab)@.update((i / 32) as int, old(bhtab)@[(i / 32) as int] & !bh_mask(i)),
{
    proof {
        lemma_word_index(i);
    }
    let sh = (i & 31) as u32;
    let w = bhtab[i >> 5] & !(1u32 << sh);
    bhtab.set(i >> 5, w);
}

/// The pointers `p` make a permutation of the positions of a block of `n` bytes.
pub open spec fn pointer_perm(p: Seq<u32>, n: nat) -> bool {
    &&& p.len() == n
    &&& forall|k: int| 0 <= k < p.len() ==> (p[k] as int) < n
    &&& p.no_duplicates()
}

/// The pointers as positions.
pub open spec fn positions(p: Seq<u32>) -> Seq<usize> {
    Seq::new(p.len(), |k: int| p[k] as usize)
}

proof fn lemma_perm_kept(a: Seq<u32>, b: Seq<u32>, lo: int, hi: int, n: nat)
    requires
        pointer_perm(a, n),
        permuted_within(a, b, lo, hi),
        0 <= lo,
        hi < n,
    ensures
        pointer_perm(b, n),
{
    lemma_permuted_widen(a, b, lo, hi, 0, n - 1);
    assert(a.subrange(0, n as int) =~= a);
    assert(b.subrange(0, n as int) =~= b);
    a.lemma_multiset_has_no_duplicates();
    b.lemma_multiset_has_no_duplicates_conv();
    assert forall|k: int| 0 <= k < b.len() implies (b[k] as int) < n by {
        assert(b.to_multiset().contains(b[k]));
        assert(a.contains(b[k]));
    }
}

/// A permutation of the positions holds every position.
proof fn lemma_perm_holds(p: Seq<usize>, n: nat, v: int)
    requires
        is_perm(p, n),
        0 <= v < n,
    ensures
        exists|k: int| 0 <= k < p.len() && p[k] == v,
{
    let dom = set_int_range(0, n as int);
    let f = |k: int| p[k] as int;
    lemma_int_range(0, n as int);
    assert(injective_on(f, dom)) by {
        assert forall|x1: int, x2: int|
            dom.contains(x1) && dom.contains(x2) && #[trigger] f(x1) == #[trigger] f(x2) implies x1 == x2 by {
        }
    }
    let img = dom.map(f);
    lemma_map_size(dom, img, f);
    assert(img.subset_of(dom)) by {
        assert forall|y: int| img.contains(y) implies dom.contains(y) by {
            let x = choose|x: int| dom.contains(x) && f(x) == y;
        }
    }
    lemma_subset_equality(img, dom);
    assert(dom.contains(v));
    assert(img.contains(v));
    let x = choose|x: int| dom.contains(x) && f(x) == v;
    assert(0 <= x < p.len() && p[x] == v);
}

/// Fallback sort for small blocks or blocks which contain highly repetitive data: the
/// rotations are bucketed by their first byte, and the buckets refined by doubling the
/// compared length, each bucket sorted by the bucket of the rotation that many bytes on,
/// until every rotation stands alone or the length passes the block's. The block's data
/// becomes its Burrows-Wheeler transform, and the key the row of the rotation that
/// starts the block.
pub fn fallback_sort(block: &mut Block)
    requires
        old(block).end as int == old(block).data@.len(),
        1 <= old(block).end <= 0x3fff_0000,
    ensures
        exists|p: Seq<usize>|
            #[trigger] is_perm(p, old(block).data@.len()) && final(block).data@ == bwt_out(old(block).data@, p)
                && final(block).key == row_of(p, 0),
        final(block).end == old(block).end,
        final(block).temp_vec == old(block).temp_vec,
        final(block).freqs == old(block).freqs,
        final(block).sym_map == old(block).sym_map,
        final(block).eob == old(block).eob,
        final(block).seq == old(block).seq,
        final(block).block_crc == old(block).block_crc,
        final(block).stream_crc == old(block).stream_crc,
        final(block).budget == old(block).budget,
        final(block).is_last == old(block).is_last,
{
    let end = block.end as usize;
    let ghost s = block.data@;
    let mut block_data: Vec<u16> = Vec::with_capacity(end);
    let mut k: usize = 0;
    while k < end
        invariant
            k <= end,
            end == block.data@.len(),
            block_data@.len() == k,
        decreases end - k,
    {
        block_data.push(block.data[k] as u16);
        k = k + 1;
    }
    let nwords = 4 + end / 32;
    let mut bhtab: Vec<u32> = vec![0u32; nwords];
    let (mut freq_map, sum_freq) = bucket_pointers(&block.data);
    let ghost start_map = freq_map@;
    let mut b: usize = 0;
    while b < 256
        invariant
            b <= 256,
            bhtab@.len() == nwords,
            nwords == 4 + end / 32,
            sum_freq@.len() == 256,
            forall|c: int| 0 <= c < 256 ==> sum_freq@[c] == count_below(s, c),
            end == s.len(),
        decreases 256 - b,
    {
        proof {
            lemma_count_below_mono(s, b as int, 256);
            lemma_count_below_all(s);
        }
        set_bh(&mut bhtab, sum_freq[b] as usize);
        b = b + 1;
    }
    let mut i: usize = 0;
    while i < 32
        invariant
            i <= 32,
            bhtab@.len() == nwords,
            nwords == 4 + end / 32,
            end <= 0x3fff_0000,
        decreases 32 - i,
    {
        set_bh(&mut bhtab, end + 2 * i);
        clear_bh(&mut bhtab, end + 2 * i + 1);
        i = i + 1;
    }
    let nbits = nwords * 32;
    let mut depth: usize = 1;
    loop
        invariant
            1 <= depth <= end,
            end == s.len(),
            end <= 0x3fff_0000,
            block.data@ == s,
            block.end as int == end,
            bhtab@.len() == nwords,
            nwords == 4 + end / 32,
            nbits == nwords * 32,
            block_data@.len() == end,
            pointer_perm(freq_map@, end as nat),
        decreases end + 1 - depth,
    {
        let mut j: usize = 0;
        let mut i: usize = 0;
        while i < end
            invariant
                i <= end,
                j < end || j == 0,
                1 <= depth <= end,
                end <= 0x3fff_0000,
                bhtab@.len() == nwords,
                nwords == 4 + end / 32,
                block_data@.len() == end,
                pointer_perm(freq_map@, end as nat),
            decreases end - i,
        {
            if is_set_bh(&bhtab, i) {
                j = i;
            }
            let f = freq_map[i] as usize;
            let offset = if f < depth {
                f + end - depth
            } else {
                f - depth
            };
            block_data.set(offset, #[verifier::truncate] (j as u16));
            i = i + 1;
        }
        let mut not_done_count: usize = 0;
        let mut right: usize = 0;
        let mut first = true;
        loop
            invariant
                1 <= depth <= end,
                end <= 0x3fff_0000,
                bhtab@.len() == nwords,
                nwords == 4 + end / 32,
                nbits == nwords * 32,
                block_data@.len() == end,
                pointer_perm(freq_map@, end as nat),
                first ==> right == 0,
                right < nbits,
                not_done_count <= 2 * right + 2,
            decreases nbits - right, if first { 1int } else { 0int },
        {
            let start: usize = if first { 0 } else { right + 1 };
            let mut bndry = start;
            while bndry < nbits && is_set_bh(&bhtab, bndry) && (bndry & 0x1f) != 0
                invariant
                    start <= bndry <= nbits,
                    bhtab@.len() == nwords,
                    nbits == nwords * 32,
                decreases nbits - bndry,
            {
                bndry = bndry + 1;
            }
            if bndry < nbits && is_set_bh(&bhtab, bndry) {
                let ghost at = bndry;
                while bndry < nbits && bhtab[bndry / 32] == 0xffff_ffff
                    invariant
                        at <= bndry <= nbits + 32,
                        bndry == at || bndry >= at + 32,
                        bhtab@.len() == nwords,
                        nbits == nwords * 32,
                    decreases nbits + 32 - bndry,
                {
                    bndry = bndry + 32;
                }
                while bndry < nbits && is_set_bh(&bhtab, bndry)
                    invariant
                        at <= bndry,
                        bndry == at ==> bh_bit(bhtab@, at),
                        bhtab@.len() == nwords,
                        nbits == nwords * 32,
                    decreases nbits - bndry,
                {
                    bndry = bndry + 1;
                }
            }
            if bndry >= nbits || bndry == 0 {
                break;
            }
            let left = bndry - 1;
            if left >= end {
                break;
            }
            let ghost before2 = bndry;
            while bndry < nbits && !is_set_bh(&bhtab, bndry)
                invariant
                    before2 <= bndry,
                    bhtab@.len() == nwords,
                    nbits == nwords * 32,
                decreases nbits - bndry,
            {
                bndry = bndry + 1;
            }
            if bndry < nbits && !is_set_bh(&bhtab, bndry) {
                bndry = bndry + 32;
            }
            while bndry < nbits && !is_set_bh(&bhtab, bndry)
                invariant
                    before2 <= bndry,
                    bhtab@.len() == nwords,
                    nbits == nwords * 32,
                decreases nbits - bndry,
            {
                bndry = bndry + 1;
            }
            if bndry >= nbits || bndry <= start {
                break;
            }
            let new_right = bndry - 1;
            if new_right >= end {
                break;
            }
            if new_right > left {
                not_done_count = not_done_count + (new_right - left + 1);
                if not_done_count > 1 && left < new_right {
                    let ghost fm0 = freq_map@;
                    fallback_q_sort3(freq_map.as_mut_slice(), block_data.as_slice(), left as i32, new_right as i32);
                    proof {
                        lemma_perm_kept(fm0, freq_map@, left as int, new_right as int, end as nat);
                    }
                }
                let mut cc: i32 = -1;
                let mut q: usize = left;
                while q <= new_right
                    invariant
                        left <= q <= new_right + 1,
                        new_right < end,
                        end <= 0x3fff_0000,
                        bhtab@.len() == nwords,
                        nwords == 4 + end / 32,
                        block_data@.len() == end,
                        pointer_perm(freq_map@, end as nat),
                    decreases new_right + 1 - q,
                {
                    let cc1 = block_data[freq_map[q] as usize] as i32;
                    if cc != cc1 {
                        set_bh(&mut bhtab, q);
                        cc = cc1;
                    }
                    q = q + 1;
                }
            }
            right = new_right;
            first = false;
        }
        if depth * 2 > end || not_done_count == 0 {
            break;
        }
        depth = depth * 2;
    }
    // Build the transform from the sorted pointers.
    let ghost p = positions(freq_map@);
    let mut bwt_data: Vec<u8> = Vec::with_capacity(end);
    let mut key: u32 = 0;
    let mut i: usize = 0;
    while i < end
        invariant
            i <= end,
            end == s.len(),
            end >= 1,
            end <= 0x3fff_0000,
            block.data@ == s,
            pointer_perm(freq_map@, end as nat),
            p == positions(freq_map@),
            bwt_data@ == bwt_out(s, p).take(i as int),
            forall|k: int| 0 <= k < i && p[k] == 0 ==> key == k,
        decreases end - i,
    {
        if freq_map[i] == 0 {
            proof {
                assert forall|k: int| 0 <= k < i implies p[k] != 0 by {
                    assert(freq_map@[k] != freq_map@[i as int]);
                }
            }
            key = i as u32;
            bwt_data.push(block.data[end - 1]);
        } else {
            bwt_data.push(block.data[(freq_map[i] - 1) as usize]);
        }
        proof {
            assert(bwt_data@ =~= bwt_out(s, p).take(i + 1));
        }
        i = i + 1;
    }
    proof {
        assert(bwt_out(s, p).take(end as int) =~= bwt_out(s, p));
        assert(is_perm(p, end as nat)) by {
            assert forall|a: int, b: int| 0 <= a < p.len() && 0 <= b < p.len() && a != b implies p[a] != p[b] by {
                assert(freq_map@[a] != freq_map@[b]);
            }
        }
        lemma_perm_holds(p, end as nat, 0);
        let k0 = choose|k: int| 0 <= k < p.len() && p[k] == 0;
        assert(row_of(p, 0) == k0) by {
            let c = choose|k: int| 0 <= k < p.len() && p[k] == 0usize;
            assert(c == k0);
        }
    }
    block.data = bwt_data;
    block.key = key;
}

} // verus!
