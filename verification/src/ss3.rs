//! Frequency counts for the bucket sorting of the suffix-array construction.
use vstd::prelude::*;

verus! {

/// How many elements of `s` equal `v`.
pub open spec fn occurrences(s: Seq<u32>, v: int) -> nat
    decreases s.len(),
{
    if s.len() == 0 {
        0
    } else {
        occurrences(s.drop_last(), v) + if s.last() as int == v {
            1nat
        } else {
            0nat
        }
    }
}

/// The sum of the first `k` bucket sizes.
pub open spec fn prefix_sum(b: Seq<u32>, k: int) -> int
    decreases k,
{
    if k <= 0 {
        0
    } else {
        prefix_sum(b, k - 1) + b[k - 1]
    }
}

proof fn lemma_occurrences_le(s: Seq<u32>, v: int)
    ensures
        occurrences(s, v) <= s.len(),
    decreases s.len(),
{
    if s.len() > 0 {
        lemma_occurrences_le(s.drop_last(), v);
    }
}

proof fn lemma_prefix_sum_mono(b: Seq<u32>, j: int, k: int)
    requires
        0 <= j <= k,
    ensures
        prefix_sum(b, j) <= prefix_sum(b, k),
    decreases k - j,
{
    if j < k {
        lemma_prefix_sum_mono(b, j, k - 1);
    }
}

/// Return frequency count of elements in the input vec. Size is one more than the value
/// of the largest element in the input.
pub fn bucket_sizes(data: &[u32], size: usize) -> (freqs: Vec<u32>)
    requires
        forall|i: int| 0 <= i < data@.len() ==> data@[i] < size,
        data@.len() <= u32::MAX,
    ensures
        freqs@.len() == size,
        forall|v: int| 0 <= v < size ==> freqs@[v] == occurrences(data@, v),
{
    let mut freqs: Vec<u32> = Vec::with_capacity(size);
    let mut k: usize = 0;
    while k < size
        invariant
            k <= size,
            freqs@.len() == k,
            forall|v: int| 0 <= v < k ==> freqs@[v] == 0,
        decreases size - k,
    {
        freqs.push(0);
        k = k + 1;
    }
    let mut i: usize = 0;
    while i < data.len()
        invariant
            i <= data@.len(),
            data@.len() <= u32::MAX,
            freqs@.len() == size,
            forall|j: int| 0 <= j < data@.len() ==> data@[j] < size,
            forall|v: int| 0 <= v < size ==> freqs@[v] == occurrences(data@.take(i as int), v),
        decreases data@.len() - i,
    {
        let el = data[i] as usize;
        proof {
            assert(data@.take(i + 1).drop_last() =~= data@.take(i as int));
            lemma_occurrences_le(data@.take(i as int), el as int);
        }
        freqs.set(el, freqs[el] + 1);
        i = i + 1;
    }
    proof {
        assert(data@.take(data@.len() as int) =~= data@);
    }
    freqs
}

/// Returns index to top positions of buckets for bucket sorting: bucket `i` starts at
/// one more than the sizes of the buckets before it.
pub fn bucket_heads(buckets: &[u32]) -> (head: Vec<u32>)
    requires
        prefix_sum(buckets@, buckets@.len() as int) < u32::MAX,
    ensures
        head@.len() == buckets@.len(),
        forall|i: int| 0 <= i < buckets@.len() ==> head@[i] == 1 + prefix_sum(buckets@, i),
{
    let mut head: Vec<u32> = Vec::with_capacity(buckets.len());
    let mut idx: u32 = 1;
    let mut i: usize = 0;
    while i < buckets.len()
        invariant
            i <= buckets@.len(),
            prefix_sum(buckets@, buckets@.len() as int) < u32::MAX,
            idx == 1 + prefix_sum(buckets@, i as int),
            head@.len() == i,
            forall|k: int| 0 <= k < i ==> head@[k] == 1 + prefix_sum(buckets@, k),
        decreases buckets@.len() - i,
    {
        head.push(idx);
        proof {
            lemma_prefix_sum_mono(buckets@, i + 1, buckets@.len() as int);
        }
        idx = idx + buckets[i];
        i = i + 1;
    }
    head
}

/// Returns index to bottom positions of buckets for bucket sorting: bucket `i` ends at
/// the sizes of the buckets up to and including it.
pub fn bucket_tails(buckets: &[u32]) -> (tail: Vec<u32>)
    requires
        prefix_sum(buckets@, buckets@.len() as int) < u32::MAX,
    ensures
        tail@.len() == buckets@.len(),
        forall|i: int| 0 <= i < buckets@.len() ==> tail@[i] == prefix_sum(buckets@, i + 1),
{
    let mut tail: Vec<u32> = Vec::with_capacity(buckets.len());
    let mut idx: u32 = 1;
    let mut i: usize = 0;
    while i < buckets.len()
        invariant
            i <= buckets@.len(),
            prefix_sum(buckets@, buckets@.len() as int) < u32::MAX,
            idx == 1 + prefix_sum(buckets@, i as int),
            tail@.len() == i,
            forall|k: int| 0 <= k < i ==> tail@[k] == prefix_sum(buckets@, k + 1),
        decreases buckets@.len() - i,
    {
        proof {
            lemma_prefix_sum_mono(buckets@, i + 1, buckets@.len() as int);
            lemma_prefix_sum_mono(buckets@, 0, i + 1);
        }
        idx = idx + buckets[i];
        tail.push(idx - 1);
        i = i + 1;
    }
    tail
}

} // verus!
