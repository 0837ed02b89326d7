//! The Burrows-Wheeler transform: the rotations of a block are sorted, and the
//! transform is the last byte of each rotation in sorted order, together with a key
//! that locates the original data among the sorted rotations.
use vstd::prelude::*;
use crate::tools::bwt_inverse::{inverse_bwt, last_first_table, walk};

verus! {

/// The rotation of `s` that starts at `i`.
pub open spec fn rotation(s: Seq<u8>, i: int) -> Seq<u8> {
    s.skip(i) + s.take(i)
}

/// Lexicographic order on byte strings, strict.
pub open spec fn lex_lt(a: Seq<u8>, b: Seq<u8>) -> bool
    decreases a.len(),
{
    if a.len() == 0 {
        b.len() > 0
    } else if b.len() == 0 {
        false
    } else if a[0] != b[0] {
        a[0] < b[0]
    } else {
        lex_lt(a.drop_first(), b.drop_first())
    }
}

/// `p` lists each position `0..n` once.
pub open spec fn is_perm(p: Seq<usize>, n: nat) -> bool {
    &&& p.len() == n
    &&& forall|k: int| 0 <= k < p.len() ==> p[k] < n
    &&& p.no_duplicates()
}

/// The rotations of `s` that start at the positions `p` are in non-decreasing order.
pub open spec fn sorted_rotations(s: Seq<u8>, p: Seq<usize>) -> bool {
    forall|i: int, j: int|
        0 <= i < j < p.len() ==> !lex_lt(rotation(s, p[j] as int), rotation(s, p[i] as int))
}

/// Equal rotations keep their positions in ascending order.
pub open spec fn ties_ascending(s: Seq<u8>, p: Seq<usize>) -> bool {
    forall|i: int, j: int|
        0 <= i < j < p.len() && rotation(s, p[i] as int) == rotation(s, p[j] as int) ==> p[i]
            < p[j]
}

/// The positions `0..n` in ascending order.
pub open spec fn identity(n: nat) -> Seq<usize> {
    Seq::new(n, |i: int| i as usize)
}

/// The last byte of each rotation, in the order `p`.
pub open spec fn bwt_out(s: Seq<u8>, p: Seq<usize>) -> Seq<u8> {
    Seq::new(
        p.len(),
        |k: int|
            if p[k] == 0 {
                s[s.len() - 1]
            } else {
                s[p[k] - 1]
            },
    )
}

/// The row at which the rotation starting at `v` stands (0 when there is none).
pub open spec fn row_of(p: Seq<usize>, v: usize) -> nat {
    if exists|k: int| 0 <= k < p.len() && p[k] == v {
        (choose|k: int| 0 <= k < p.len() && p[k] == v) as nat
    } else {
        0
    }
}

/// Strings that agree up to `k` and differ at `k` are ordered by their bytes at `k`.
pub proof fn lemma_lex_first_diff(a: Seq<u8>, b: Seq<u8>, k: int)
    requires
        0 <= k < a.len(),
        k < b.len(),
        a.take(k) == b.take(k),
        a[k] != b[k],
    ensures
        lex_lt(a, b) == (a[k] < b[k]),
        lex_lt(b, a) == (b[k] < a[k]),
    decreases k,
{
    if k > 0 {
        assert(a[0] == a.take(k)[0]);
        assert(b[0] == b.take(k)[0]);
        assert(a.drop_first().take(k - 1) =~= a.take(k).drop_first());
        assert(b.drop_first().take(k - 1) =~= b.take(k).drop_first());
        lemma_lex_first_diff(a.drop_first(), b.drop_first(), k - 1);
    }
}

/// Equal strings are not ordered.
pub proof fn lemma_lex_irreflexive(a: Seq<u8>)
    ensures
        !lex_lt(a, a),
    decreases a.len(),
{
    if a.len() > 0 {
        lemma_lex_irreflexive(a.drop_first());
    }
}

/// Byte `k` of a rotation.
pub proof fn lemma_rotation_index(s: Seq<u8>, i: int, k: int)
    requires
        0 <= i < s.len(),
        0 <= k < s.len(),
    ensures
        rotation(s, i).len() == s.len(),
        rotation(s, i)[k] == if i + k < s.len() {
            s[i + k]
        } else {
            s[i + k - s.len()]
        },
{
}

/// The rotation of `s` that starts at the position `i`.
pub open spec fn rotation_at(s: Seq<u8>, i: usize) -> Seq<u8> {
    rotation(s, i as int)
}

/// compare the next two chunks of the original data to decide which sorts first:
/// the rotations of `block` that start at `a` and at `b`, in lexicographic order.
pub fn block_compare(a: usize, b: usize, block: &[u8]) -> (res: std::cmp::Ordering)
    requires
        a < block@.len(),
        b < block@.len(),
    ensures
        (res == std::cmp::Ordering::Less) == lex_lt(rotation_at(block@, a), rotation_at(block@, b)),
        (res == std::cmp::Ordering::Greater) == lex_lt(
            rotation_at(block@, b),
            rotation_at(block@, a),
        ),
        (res == std::cmp::Ordering::Equal) == (rotation_at(block@, a) == rotation_at(block@, b)),
{
    let r = rotation_order(a, b, block);
    if r < 0 {
        std::cmp::Ordering::Less
    } else if r > 0 {
        std::cmp::Ordering::Greater
    } else {
        std::cmp::Ordering::Equal
    }
}

/// The sign of the comparison of the rotations of `block` that start at `a` and `b`:
/// negative when the first sorts before the second, positive when after, zero when equal.
fn rotation_order(a: usize, b: usize, block: &[u8]) -> (r: i8)
    requires
        a < block@.len(),
        b < block@.len(),
    ensures
        (r < 0) == lex_lt(rotation_at(block@, a), rotation_at(block@, b)),
        (r > 0) == lex_lt(rotation_at(block@, b), rotation_at(block@, a)),
        (r == 0) == (rotation_at(block@, a) == rotation_at(block@, b)),
{
    let n = block.len();
    let ghost ra = rotation(block@, a as int);
    let ghost rb = rotation(block@, b as int);
    let mut ia = a;
    let mut ib = b;
    let mut k: usize = 0;
    while k < n
        invariant
            n == block@.len(),
            a < n,
            b < n,
            k <= n,
            ra == rotation_at(block@, a),
            rb == rotation_at(block@, b),
            ra.len() == n,
            rb.len() == n,
            ra.take(k as int) == rb.take(k as int),
            ia < n,
            ib < n,
            ia == if a + k < n {
                a + k
            } else {
                a + k - n
            },
            ib == if b + k < n {
                b + k
            } else {
                b + k - n
            },
        decreases n - k,
    {
        let x = block[ia];
        let y = block[ib];
        proof {
            lemma_rotation_index(block@, a as int, k as int);
            lemma_rotation_index(block@, b as int, k as int);
            assert(x == ra[k as int]);
            assert(y == rb[k as int]);
        }
        if x != y {
            proof {
                lemma_lex_first_diff(ra, rb, k as int);
            }
            if x < y {
                return -1;
            } else {
                return 1;
            }
        }
        proof {
            assert(ra.take(k + 1) =~= ra.take(k as int).push(ra[k as int]));
            assert(rb.take(k + 1) =~= rb.take(k as int).push(rb[k as int]));
        }
        k = k + 1;
        ia = ia + 1;
        if ia == n {
            ia = 0;
        }
        ib = ib + 1;
        if ib == n {
            ib = 0;
        }
    }
    proof {
        assert(ra.take(n as int) =~= ra);
        assert(rb.take(n as int) =~= rb);
        lemma_lex_irreflexive(ra);
    }
    0
}

/// Sorts the positions `0..n` by the rotations of `block` that start at them, with
/// `slice::sort_by` and [`block_compare`]. The standard library documents that the sort
/// is stable (equal elements keep their order) and that the result is sorted by the
/// comparison, which here is a total order on rotations; the contract claims that the
/// result lists each position once, in non-decreasing rotation order, equal rotations
/// by ascending position.
#[verifier::external_body]
pub(crate) fn sort_rotations_stable(index: &mut Vec<usize>, block: &[u8])
    requires
        old(index)@ == identity(block@.len()),
    ensures
        is_perm(final(index)@, block@.len()),
        sorted_rotations(block@, final(index)@),
        ties_ascending(block@, final(index)@),
{
    index.sort_by(|a, b| block_compare(*a, *b, block));
}

/// Builds the transform from the sorted positions: the byte before each rotation.
pub(crate) fn bwt_from_index(orig: &[u8], index: &Vec<usize>, key_start: usize) -> (res: (u32, Vec<u8>))
    requires
        is_perm(index@, orig@.len()),
        orig@.len() <= u32::MAX,
    ensures
        res.0 == row_of(index@, key_start),
        res.1@ == bwt_out(orig@, index@),
{
    let n = orig.len();
    let mut key: u32 = 0;
    let mut bwt: Vec<u8> = Vec::with_capacity(n);
    let mut i: usize = 0;
    while i < n
        invariant
            n == orig@.len(),
            n == index@.len(),
            n <= u32::MAX,
            is_perm(index@, n as nat),
            i <= n,
            bwt@ == bwt_out(orig@, index@).take(i as int),
            (exists|k: int| 0 <= k < i && index@[k] == key_start) ==> index@[key as int] == key_start
                && key < i,
            !(exists|k: int| 0 <= k < i && index@[k] == key_start) ==> key == 0,
        decreases n - i,
    {
        if index[i] == key_start {
            key = i as u32;
        }
        let byte = if index[i] == 0 {
            orig[n - 1]
        } else {
            orig[index[i] - 1]
        };
        bwt.push(byte);
        proof {
            assert(bwt@ =~= bwt_out(orig@, index@).take(i + 1));
            if exists|k: int| 0 <= k < i + 1 && index@[k] == key_start {
                if index@[i as int] != key_start {
                    let k = choose|k: int| 0 <= k < i + 1 && index@[k] == key_start;
                    assert(k < i);
                }
            }
        }
        i = i + 1;
    }
    proof {
        assert(bwt@ =~= bwt_out(orig@, index@));
        if exists|k: int| 0 <= k < n && index@[k] == key_start {
            let k = choose|k: int| 0 <= k < index@.len() && index@[k] == key_start;
            assert(index@[key as int] == key_start);
            assert(k == key as int);
        }
    }
    (key, bwt)
}

///Burrows-Wheeler-Transform. Receives reference to data. Returns the key (the row of
/// the rotation that starts at the second byte) and the transformed data.
pub fn bwt_encode(orig: &[u8]) -> (res: (u32, Vec<u8>))
    requires
        orig@.len() <= u32::MAX,
    ensures
        exists|p: Seq<usize>|
            {
                &&& is_perm(p, orig@.len())
                &&& sorted_rotations(orig@, p)
                &&& ties_ascending(orig@, p)
                &&& res.0 == row_of(p, 1)
                &&& res.1@ == bwt_out(orig@, p)
            },
{
    let index = ascending_index(orig.len());
    let mut index = index;
    sort_rotations_stable(&mut index, orig);
    bwt_from_index(orig, &index, 1)
}

/// The positions `0..n` in ascending order.
pub(crate) fn ascending_index(n: usize) -> (index: Vec<usize>)
    requires
        n <= u32::MAX,
    ensures
        index@ == identity(n as nat),
{
    let mut index: Vec<usize> = Vec::with_capacity(n);
    let mut i: usize = 0;
    while i < n
        invariant
            i <= n,
            n <= u32::MAX,
            index@ == identity(i as nat),
        decreases n - i,
    {
        index.push(i);
        proof {
            assert(index@ =~= identity((i + 1) as nat));
        }
        i = i + 1;
    }
    index
}

/// Decode a Burrows-Wheeler-Transform. Requires key and data in. Returns
/// transformed data as vec of u8: the walk of the inverse last-first mapping from
/// the key, reading one byte of the input at each row it visits.
pub fn bwt_decode(key: u32, bwt_in: &[u8]) -> (original: Vec<u8>)
    requires
        bwt_in@.len() == 0 || key < bwt_in@.len(),
    ensures
        original@ == inverse_bwt(bwt_in@, key as int),
{
    let t_vec = last_first_table(bwt_in);
    read_walk(bwt_in, &t_vec, key as usize)
}

/// Reads one byte of `bwt_in` at each row of the walk that starts at `start`.
pub(crate) fn read_walk(bwt_in: &[u8], t_vec: &Vec<usize>, start: usize) -> (original: Vec<u8>)
    requires
        t_vec@.len() == bwt_in@.len(),
        forall|r: int| 0 <= r < bwt_in@.len() ==> t_vec@[r] == crate::tools::bwt_inverse::lf_inverse(bwt_in@, r),
        forall|r: int| 0 <= r < bwt_in@.len() ==> t_vec@[r] < bwt_in@.len(),
        bwt_in@.len() == 0 || start < bwt_in@.len(),
    ensures
        original@ == inverse_bwt(bwt_in@, start as int),
{
    let n = bwt_in.len();
    let mut original: Vec<u8> = Vec::with_capacity(n);
    let mut key = start;
    let mut i: usize = 0;
    while i < n
        invariant
            n == bwt_in@.len(),
            t_vec@.len() == n,
            forall|r: int| 0 <= r < n ==> t_vec@[r] == crate::tools::bwt_inverse::lf_inverse(bwt_in@, r),
            forall|r: int| 0 <= r < n ==> t_vec@[r] < n,
            i <= n,
            i < n ==> key < n,
            i < n ==> key == walk(bwt_in@, start as int, i as nat),
            original@ == inverse_bwt(bwt_in@, start as int).take(i as int),
        decreases n - i,
    {
        original.push(bwt_in[key]);
        proof {
            assert(original@ =~= inverse_bwt(bwt_in@, start as int).take(i + 1));
        }
        key = t_vec[key];
        i = i + 1;
    }
    proof {
        assert(original@ =~= inverse_bwt(bwt_in@, start as int));
    }
    original
}

} // verus!
