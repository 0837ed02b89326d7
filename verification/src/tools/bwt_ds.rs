//! The Burrows-Wheeler transform with the key of the original rotation, and the
//! decoders that start one step further along the walk.
use vstd::prelude::*;
use crate::tools::bwt::{
    ascending_index, bwt_from_index, bwt_out, is_perm, read_walk, row_of, sort_rotations_stable,
    sorted_rotations, ties_ascending,
};
use crate::tools::bwt_inverse::{
    count_eq, count_lt, inverse_bwt, last_first_table, lemma_count_bounds, lemma_count_eq_take_step,
    lemma_count_lt_step, lemma_lf_bounds, lemma_lf_injective, lemma_lf_inverse, lf, lf_inverse, walk,
};

verus! {

///Burrows-Wheeler-Transform
/// Transforms a u8 slice using bwt. The key is u32: the row of the sorted rotations
/// at which the original data stands.
pub fn bwt_encode(orig: &[u8]) -> (res: (u32, Vec<u8>))
    requires
        orig@.len() <= u32::MAX,
    ensures
        exists|p: Seq<usize>|
            {
                &&& is_perm(p, orig@.len())
                &&& sorted_rotations(orig@, p)
                &&& ties_ascending(orig@, p)
                &&& res.0 == row_of(p, 0)
                &&& res.1@ == bwt_out(orig@, p)
            },
{
    let mut index = ascending_index(orig.len());
    sort_rotations_stable(&mut index, orig);
    bwt_from_index(orig, &index, 0)
}

/// The row from which [`bwt_decode`] starts reading: one step of the inverse mapping
/// from the row just above the key, which counts the rows from 1.
pub open spec fn first_row(s: Seq<u8>, key: int) -> int {
    lf_inverse(s, key - 1)
}

/// Decode a Burrows-Wheeler-Transform. The key counts the rows of the sorted rotations
/// from 1: the original data stands at row `key - 1`.
pub fn bwt_decode(key: u32, bwt_in: &[u8]) -> (orig: Vec<u8>)
    requires
        1 <= key <= bwt_in@.len(),
    ensures
        orig@ == inverse_bwt(bwt_in@, first_row(bwt_in@, key as int)),
{
    let t_vec = last_first_table(bwt_in);
    let start = t_vec[(key - 1) as usize];
    read_walk(bwt_in, &t_vec, start)
}

/// The row from which [`bwt_decode_fastest`] reads: one step of the inverse mapping
/// from the key, or row 0 when the key lies past the end of the block.
pub open spec fn fastest_start(s: Seq<u8>, key: int) -> int {
    if key < s.len() {
        lf_inverse(s, key)
    } else {
        0
    }
}

/// Decode a Burrows-Wheeler-Transform. All variations seem to have excessive cache misses.
/// Its table holds 900024 rows: blocks are never longer, and a key past the end of the
/// block finds an empty row there.
pub fn bwt_decode_fastest(key: u32, bwt_in: &[u8]) -> (orig: Vec<u8>)
    requires
        1 <= bwt_in@.len() <= 900024,
        key < 900024,
    ensures
        orig@ == inverse_bwt(bwt_in@, fastest_start(bwt_in@, key as int)),
{
    let end = bwt_in.len();
    let t_vec = last_first_table(bwt_in);
    let first: usize = if (key as usize) < end {
        t_vec[key as usize]
    } else {
        0
    };
    // the rows of the walk, then the bytes at those rows
    let mut keys: Vec<usize> = Vec::with_capacity(end);
    keys.push(first);
    let mut i: usize = 1;
    while i < end
        invariant
            end == bwt_in@.len(),
            1 <= i <= end,
            t_vec@.len() == end,
            first < end,
            forall|r: int| 0 <= r < end ==> t_vec@[r] == lf_inverse(bwt_in@, r),
            forall|r: int| 0 <= r < end ==> t_vec@[r] < end,
            keys@.len() == i,
            forall|j: int| 0 <= j < i ==> keys@[j] == walk(bwt_in@, first as int, j as nat),
            forall|j: int| 0 <= j < i ==> keys@[j] < end,
        decreases end - i,
    {
        let next = t_vec[keys[i - 1]];
        keys.push(next);
        i = i + 1;
    }
    let mut orig: Vec<u8> = Vec::with_capacity(end);
    let mut j: usize = 0;
    while j < end
        invariant
            end == bwt_in@.len(),
            j <= end,
            keys@.len() == end,
            forall|k: int| 0 <= k < end ==> keys@[k] == walk(bwt_in@, first as int, k as nat),
            forall|k: int| 0 <= k < end ==> keys@[k] < end,
            orig@ == inverse_bwt(bwt_in@, first as int).take(j as int),
        decreases end - j,
    {
        orig.push(bwt_in[keys[j]]);
        proof {
            assert(orig@ =~= inverse_bwt(bwt_in@, first as int).take(j + 1));
        }
        j = j + 1;
    }
    proof {
        assert(orig@ =~= inverse_bwt(bwt_in@, first as int));
    }
    orig
}

/// The byte at each row, each followed by the byte one step further along the walk.
pub open spec fn interleaved(s: Seq<u8>) -> Seq<u8> {
    Seq::new(
        2 * s.len(),
        |k: int|
            if k % 2 == 0 {
                s[k / 2]
            } else {
                s[lf_inverse(s, k / 2)]
            },
    )
}

/// Decode a Burrows-Wheeler-Transform, cache interleaved (oddly slower): each step of
/// the walk reads two bytes, through a table of byte pairs and a table of two steps.
pub fn bwt_decode_new(key: u32, bwt_in: &[u8]) -> (original: Vec<u8>)
    requires
        bwt_in@.len() == 0 || key < bwt_in@.len(),
        bwt_in@.len() * 2 <= usize::MAX,
    ensures
        original@ == inverse_bwt(bwt_in@, key as int),
{
    let n = bwt_in.len();
    let ghost s = bwt_in@;
    let lf = last_first_table(bwt_in);
    // the byte at each row, and the byte one step further along the walk
    let mut ll: Vec<u8> = Vec::with_capacity(2 * n);
    let mut i: usize = 0;
    while i < n
        invariant
            s == bwt_in@,
            n == s.len(),
            n * 2 <= usize::MAX,
            i <= n,
            lf@.len() == n,
            forall|r: int| 0 <= r < n ==> lf@[r] == lf_inverse(s, r),
            forall|r: int| 0 <= r < n ==> lf@[r] < n,
            ll@ == interleaved(s).take(2 * i),
        decreases n - i,
    {
        ll.push(bwt_in[i]);
        ll.push(bwt_in[lf[i]]);
        proof {
            assert(ll@ =~= interleaved(s).take(2 * i + 2));
        }
        i = i + 1;
    }
    // two steps of the walk at once
    let mut lf2: Vec<usize> = Vec::with_capacity(n);
    let mut i: usize = 0;
    while i < n
        invariant
            s == bwt_in@,
            n == s.len(),
            i <= n,
            lf@.len() == n,
            forall|r: int| 0 <= r < n ==> lf@[r] == lf_inverse(s, r),
            forall|r: int| 0 <= r < n ==> lf@[r] < n,
            lf2@.len() == i,
            forall|r: int| 0 <= r < i ==> lf2@[r] == lf_inverse(s, lf_inverse(s, r)),
            forall|r: int| 0 <= r < i ==> lf2@[r] < n,
        decreases n - i,
    {
        lf2.push(lf[lf[i]]);
        i = i + 1;
    }
    proof {
        assert(ll@ =~= interleaved(s));
    }
    let mut key = key as usize;
    let ghost start = key as int;
    let mut original: Vec<u8> = Vec::with_capacity(n);
    let mut i: usize = 0;
    while i < n
        invariant
            s == bwt_in@,
            n == s.len(),
            n * 2 <= usize::MAX,
            i <= n,
            i % 2 == 0 || i == n,
            ll@ == interleaved(s),
            lf2@.len() == n,
            forall|r: int| 0 <= r < n ==> lf2@[r] == lf_inverse(s, lf_inverse(s, r)),
            forall|r: int| 0 <= r < n ==> lf2@[r] < n,
            0 <= start < n || n == 0,
            i < n ==> key < n,
            i < n ==> key == walk(s, start, i as nat),
            original@ == inverse_bwt(s, start).take(i as int),
        decreases n - i,
    {
        proof {
            lemma_lf_inverse(s, key as int);
            assert(walk(s, start, (i + 1) as nat) == lf_inverse(s, key as int));
            assert(walk(s, start, (i + 2) as nat) == lf_inverse(s, lf_inverse(s, key as int)));
        }
        original.push(ll[2 * key]);
        if i + 1 < n {
            original.push(ll[2 * key + 1]);
        }
        proof {
            if i + 1 < n {
                assert(original@ =~= inverse_bwt(s, start).take(i + 2));
            } else {
                assert(original@ =~= inverse_bwt(s, start).take(i + 1));
            }
        }
        key = lf2[key];
        i = if i + 1 < n {
            i + 2
        } else {
            n
        };
    }
    proof {
        assert(original@ =~= inverse_bwt(s, start));
    }
    original
}

/// The bytes of a block held one to a word.
pub open spec fn low_bytes(data: Seq<u32>) -> Seq<u8> {
    Seq::new(data.len(), |i: int| data[i] as u8)
}

/// One step of the walk of [`bwt_decode_test`]: rows of the block step along the
/// inverse mapping, rows past its end lead to row 0.
pub open spec fn test_step(s: Seq<u8>, k: int) -> int {
    if k < s.len() {
        lf_inverse(s, k)
    } else {
        0
    }
}

/// The byte that [`bwt_decode_test`] reads at row `k`: the byte at the next row, or 0
/// past the end of the block.
pub open spec fn test_byte(s: Seq<u8>, k: int) -> u8 {
    if k < s.len() {
        s[lf_inverse(s, k)]
    } else {
        0
    }
}

/// The row reached after `j` steps from `key`.
pub open spec fn test_walk(s: Seq<u8>, key: int, j: nat) -> int
    decreases j,
{
    if j == 0 {
        key
    } else {
        test_step(s, test_walk(s, key, (j - 1) as nat))
    }
}

/// The row and byte packed into one word of the table of [`bwt_decode_test`].
pub open spec fn packed(row: int, byte: u8) -> u32 {
    ((row as u32) << 8u32) | (byte as u32)
}

proof fn lemma_unpack(row: u32, byte: u32)
    requires
        row < 0x100_0000,
        byte < 256,
    ensures
        ((row << 8u32) | byte) >> 8u32 == row,
        ((row << 8u32) | byte) & 0xffu32 == byte,
{
    assert(((row << 8u32) | byte) >> 8u32 == row) by (bit_vector)
        requires
            row < 0x100_0000,
            byte < 256,
    ;
    assert(((row << 8u32) | byte) & 0xffu32 == byte) by (bit_vector)
        requires
            byte < 256,
    ;
}

/// Splits a table word into the row it points to and the byte it holds.
fn key_byte(complex: u32) -> (res: (usize, u8))
    ensures
        res.0 == complex >> 8u32,
        res.1 == complex & 0xffu32,
{
    let byte = (complex & 0xff) as u8;
    proof {
        assert((complex & 0xffu32) < 256) by (bit_vector);
    }
    ((complex >> 8) as usize, byte)
}

/// Decode a Burrows-Wheeler-Transform. All variations seem to have excessive cache misses.
/// The block comes one byte to a word, with the count of each byte value in `freq_in`;
/// each table word packs a row (24 bits) with the byte at that row (8 bits). The table
/// has 19 spare rows past the end of the block, which hold 0.
pub fn bwt_decode_test(key: u32, bwt_in: &[u32], freq_in: [u32; 256]) -> (orig: Vec<u8>)
    requires
        bwt_in@.len() < 0x100_0000,
        forall|i: int| 0 <= i < bwt_in@.len() ==> bwt_in@[i] < 256,
        forall|c: int| 0 <= c < 255 ==> freq_in@[c] == count_eq(low_bytes(bwt_in@), c),
        key < bwt_in@.len() + 19,
    ensures
        orig@.len() == bwt_in@.len(),
        forall|j: int|
            0 <= j < bwt_in@.len() ==> orig@[j] == test_byte(
                low_bytes(bwt_in@),
                test_walk(low_bytes(bwt_in@), key as int, j as nat),
            ),
{
    let end = bwt_in.len();
    let ghost s = low_bytes(bwt_in@);
    // the number of smaller bytes, for each byte value
    let mut freq: Vec<u32> = Vec::with_capacity(256);
    freq.push(0);
    let mut i: usize = 0;
    proof {
        lemma_count_bounds(s, 0);
    }
    while i < 255
        invariant
            s == low_bytes(bwt_in@),
            end == s.len(),
            end < 0x100_0000,
            i <= 255,
            freq@.len() == i + 1,
            forall|c: int| 0 <= c < 255 ==> freq_in@[c] == count_eq(s, c),
            forall|c: int| 0 <= c <= i ==> freq@[c] == count_lt(s, c),
        decreases 255 - i,
    {
        proof {
            lemma_count_lt_step(s, i as int);
            lemma_count_bounds(s, i as int + 1);
        }
        let next = freq[i] + freq_in[i];
        freq.push(next);
        i = i + 1;
    }
    let mut t_vec: Vec<u32> = Vec::with_capacity(end + 19);
    let mut k: usize = 0;
    while k < end + 19
        invariant
            end < 0x100_0000,
            k <= end + 19,
            t_vec@.len() == k,
            forall|r: int| 0 <= r < k ==> t_vec@[r] == 0,
        decreases end + 19 - k,
    {
        t_vec.push(0);
        k = k + 1;
    }
    let mut i: usize = 0;
    while i < end
        invariant
            s == low_bytes(bwt_in@),
            end == s.len(),
            end < 0x100_0000,
            forall|j: int| 0 <= j < end ==> bwt_in@[j] < 256,
            i <= end,
            t_vec@.len() == end + 19,
            forall|r: int| end <= r < end + 19 ==> t_vec@[r] == 0,
            freq@.len() == 256,
            forall|d: int| 0 <= d < 256 ==> freq@[d] == count_lt(s, d) + count_eq(s.take(i as int), d),
            forall|j: int| 0 <= j < i ==> t_vec@[lf(s, j)] == packed(j, s[j]),
        decreases end - i,
    {
        let b = bwt_in[i];
        let pos = freq[b as usize];
        proof {
            assert(b as u8 == s[i as int]);
            assert(b == s[i as int] as u32);
            lemma_lf_bounds(s, i as int);
            assert(pos == lf(s, i as int));
            assert forall|d: int| 0 <= d < 256 implies count_eq(s.take(i + 1), d) == count_eq(
                s.take(i as int),
                d,
            ) + if s[i as int] as int == d {
                1nat
            } else {
                0nat
            } by {
                lemma_count_eq_take_step(s, i as int, d);
            }
        }
        t_vec.set(pos as usize, ((i as u32) << 8) | b);
        freq.set(b as usize, pos + 1);
        proof {
            assert forall|j: int| 0 <= j < i + 1 implies t_vec@[lf(s, j)] == packed(j, s[j]) by {
                if j < i {
                    lemma_lf_injective(s, j, i as int);
                    lemma_lf_bounds(s, j);
                }
            }
        }
        i = i + 1;
    }
    let mut orig: Vec<u8> = Vec::with_capacity(end);
    let mut key = key as usize;
    let ghost start = key as int;
    let mut j: usize = 0;
    while j < end
        invariant
            s == low_bytes(bwt_in@),
            end == s.len(),
            end < 0x100_0000,
            j <= end,
            t_vec@.len() == end + 19,
            forall|r: int| end <= r < end + 19 ==> t_vec@[r] == 0,
            forall|m: int| 0 <= m < end ==> t_vec@[lf(s, m)] == packed(m, s[m]),
            key < end + 19,
            key == test_walk(s, start, j as nat),
            orig@.len() == j,
            forall|m: int| 0 <= m < j ==> orig@[m] == test_byte(s, test_walk(s, start, m as nat)),
        decreases end - j,
    {
        let word = t_vec[key];
        proof {
            if key < end {
                lemma_lf_inverse(s, key as int);
                let m = lf_inverse(s, key as int);
                assert(t_vec@[lf(s, m)] == packed(m, s[m]));
                lemma_unpack(m as u32, s[m] as u32);
            } else {
                assert(((0u32 >> 8u32) == 0u32) && ((0u32 & 0xffu32) == 0u32)) by (bit_vector);
            }
        }
        let (k, b) = key_byte(word);
        orig.push(b);
        key = k;
        j = j + 1;
    }
    orig
}

} // verus!
