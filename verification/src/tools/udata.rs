//! Sort keys for the rotations of a block: for each position, the bytes from there on
//! (wrapping round to the start) packed big-endian into one machine word.
use vstd::prelude::*;
use rayon::iter::ParallelIterator;
use rayon::slice::ParallelSlice;

verus! {

/// Above this length the words are packed in parallel.
pub const SORT_XPOINT: usize = 40000;

/// The bytes in a machine word.
pub open spec fn word_bytes() -> nat {
    (usize::BITS / 8) as nat
}

/// 256 to the power `k`.
pub open spec fn p256(k: nat) -> nat
    decreases k,
{
    if k == 0 {
        1
    } else {
        256 * p256((k - 1) as nat)
    }
}

/// The `k` bytes of `s` from `i` on, wrapping round to the start, packed big-endian.
pub open spec fn pack_from(s: Seq<u8>, i: int, k: nat) -> nat
    decreases k,
{
    if k == 0 {
        0
    } else {
        pack_from(s, i, (k - 1) as nat) * 256 + s[(i + k - 1) % (s.len() as int)] as nat
    }
}

/// The machine word of the bytes of `s` from `i` on, wrapping round, big-endian.
pub open spec fn packed_word(s: Seq<u8>, i: int) -> nat {
    pack_from(s, i, word_bytes())
}

proof fn lemma_pack_bound(s: Seq<u8>, i: int, k: nat)
    ensures
        pack_from(s, i, k) < p256(k),
    decreases k,
{
    if k > 0 {
        lemma_pack_bound(s, i, (k - 1) as nat);
        let a = pack_from(s, i, (k - 1) as nat);
        let b = s[(i + k - 1) % (s.len() as int)] as nat;
        assert(a * 256 + b < 256 * p256((k - 1) as nat)) by (nonlinear_arith)
            requires
                a < p256((k - 1) as nat),
                b < 256,
        ;
    }
}

proof fn lemma_p256_mono(a: nat, b: nat)
    requires
        a <= b,
    ensures
        p256(a) <= p256(b),
    decreases b,
{
    if a < b {
        lemma_p256_mono(a, (b - 1) as nat);
    }
}

/// A word's bytes fill the machine word exactly.
proof fn lemma_word_max()
    ensures
        p256(word_bytes()) == usize::MAX + 1,
        4 <= word_bytes() <= 8,
{
    reveal_with_fuel(p256, 9);
    assert(usize::BITS == 32 || usize::BITS == 64);
    if usize::BITS == 32 {
        assert(usize::MAX == 0xffff_ffff);
    } else {
        assert(usize::MAX == 0xffff_ffff_ffff_ffff);
    }
}

/// The packing looks only at the bytes it reads.
proof fn lemma_pack_same(a: Seq<u8>, ia: int, b: Seq<u8>, ib: int, k: nat)
    requires
        forall|t: int|
            0 <= t < k ==> #[trigger] a[(ia + t) % (a.len() as int)] == b[(ib + t) % (b.len() as int)],
    ensures
        pack_from(a, ia, k) == pack_from(b, ib, k),
    decreases k,
{
    if k > 0 {
        lemma_pack_same(a, ia, b, ib, (k - 1) as nat);
        assert(a[(ia + (k - 1)) % (a.len() as int)] == b[(ib + (k - 1)) % (b.len() as int)]);
    }
}

/// The word of the bytes `w` (one machine word of them), big-endian.
fn word_of(w: &[u8]) -> (res: usize)
    requires
        w@.len() == word_bytes(),
    ensures
        res == pack_from(w@, 0, word_bytes()),
{
    proof {
        lemma_word_max();
    }
    let n = w.len();
    let mut key: usize = 0;
    let mut k: usize = 0;
    while k < n
        invariant
            k <= n,
            n == w@.len(),
            n == word_bytes(),
            p256(word_bytes()) == usize::MAX + 1,
            key == pack_from(w@, 0, k as nat),
        decreases n - k,
    {
        proof {
            lemma_pack_bound(w@, 0, (k + 1) as nat);
            lemma_p256_mono((k + 1) as nat, word_bytes());
            vstd::arithmetic::div_mod::lemma_small_mod(k as nat, n as nat);
            assert((0 + (k + 1) - 1) % (n as int) == k as int);
            lemma_pack_bound(w@, 0, k as nat);
            assert(key * 256 + w@[k as int] < p256((k + 1) as nat)) by (nonlinear_arith)
                requires
                    key < p256(k as nat),
                    w@[k as int] < 256,
                    p256((k + 1) as nat) == 256 * p256(k as nat),
            ;
        }
        key = key * 256 + w[k] as usize;
        k = k + 1;
    }
    key
}

/// Packs the word at each window of `ext` in parallel with rayon's `par_windows`: the
/// result holds, in order, the word of each run of `w` bytes of `ext`, as rayon
/// documents `par_windows` and `collect` on an indexed iterator.
#[verifier::external_body]
fn par_words(ext: &[u8], w: usize) -> (res: Vec<usize>)
    requires
        w == word_bytes(),
        ext@.len() >= w,
    ensures
        res@.len() == ext@.len() - w + 1,
        forall|i: int| 0 <= i < res@.len() ==> #[trigger] res@[i] == pack_from(ext@.subrange(i, i + w), 0, w as nat),
{
    ext.par_windows(w).map(|win| word_of(win)).collect()
}

/// Create fast usize sorting data from input: for each position, the bytes from there
/// on, wrapping round, packed into one machine word, big-endian. The data is extended by
/// its own first bytes and each window of it is packed, in parallel for long data.
pub fn udata_par_map(data: &[u8]) -> (res: Vec<usize>)
    requires
        1 <= data@.len(),
        data@.len() + 7 <= usize::MAX,
    ensures
        res@.len() == data@.len(),
        forall|i: int| 0 <= i < data@.len() ==> #[trigger] res@[i] == packed_word(data@, i),
{
    proof {
        lemma_word_max();
    }
    let n = data.len();
    let size = (usize::BITS / 8) as usize;
    assert(size as nat == word_bytes());
    // Pad out the data by usize-1 more bytes, repeating the input as needed.
    let mut ext: Vec<u8> = Vec::with_capacity(n + (size - 1));
    let mut j: usize = 0;
    while j < n + (size - 1)
        invariant
            j <= n + size - 1,
            n == data@.len(),
            n >= 1,
            size == word_bytes(),
            4 <= size <= 8,
            n + 7 <= usize::MAX,
            ext@.len() == j,
            forall|t: int| 0 <= t < j ==> #[trigger] ext@[t] == data@[t % (n as int)],
        decreases n + size - 1 - j,
    {
        ext.push(data[j % n]);
        j = j + 1;
    }
    let ghost e = ext@;
    let res = if ext.len() > SORT_XPOINT {
        par_words(&ext, size)
    } else {
        let mut out: Vec<usize> = Vec::with_capacity(n);
        let mut i: usize = 0;
        while i < n
            invariant
                i <= n,
                n == data@.len(),
                n + 7 <= usize::MAX,
                size == word_bytes(),
                4 <= size <= 8,
                ext@ == e,
                e.len() == n + size - 1,
                out@.len() == i,
                forall|q: int| 0 <= q < i ==> #[trigger] out@[q] == pack_from(e.subrange(q, q + size), 0, size as nat),
            decreases n - i,
        {
            let win = vstd::slice::slice_subrange(ext.as_slice(), i, i + size);
            let wd = word_of(win);
            out.push(wd);
            i = i + 1;
        }
        out
    };
    proof {
        assert forall|i: int| 0 <= i < n implies #[trigger] res@[i] == packed_word(data@, i) by {
            let win = e.subrange(i, i + size);
            assert forall|t: int| 0 <= t < size implies #[trigger] win[(0 + t) % (win.len() as int)] == data@[(i + t) % (n as int)] by {
                vstd::arithmetic::div_mod::lemma_small_mod(t as nat, win.len());
                assert((0 + t) % (win.len() as int) == t);
                assert(win[t] == e[i + t]);
            }
            lemma_pack_same(win, 0, data@, i, size as nat);
        }
    }
    res
}

} // verus!
