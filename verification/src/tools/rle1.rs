//! The first run-length encoding of bzip2, applied to the input before the
//! Burrows-Wheeler transform: a run of four to 259 identical bytes becomes the four
//! bytes followed by a count of the further repeats (0 to 255).
use vstd::prelude::*;

verus! {

/// Whether the four bytes of `v` starting at `i` are identical.
pub open spec fn run_at(v: Seq<u8>, i: int) -> bool {
    v[i] == v[i + 1] && v[i] == v[i + 2] && v[i] == v[i + 3]
}

/// Number of further repeats after a run of four whose last byte is at `j`, counting
/// from `count` and stopping at 255.
pub open spec fn dups_from(v: Seq<u8>, j: int, count: nat) -> nat
    recommends
        count < 255,
    decreases v.len() - j,
{
    if j >= v.len() - 1 || v[j] != v[j + 1] {
        count
    } else if count + 1 >= 255 {
        255
    } else {
        dups_from(v, j + 1, count + 1)
    }
}

/// The count byte for the run of four starting at `i`.
pub open spec fn dups_spec(v: Seq<u8>, i: int) -> nat {
    dups_from(v, i + 3, 0)
}

/// The encoder's scan from position `idx`, with the bytes from `skip` not yet written.
/// Yields the number of input bytes consumed and the output.
pub open spec fn encode_scan(v: Seq<u8>, size: nat, idx: int, skip: int, out: Seq<u8>) -> (
    nat,
    Seq<u8>,
)
    decreases v.len() - idx,
{
    if idx >= v.len() - 3 || idx < skip || skip < 0 || out.len() + (idx - skip) >= size {
        let end = if v.len() - idx <= 3 {
            v.len() as int
        } else {
            idx
        };
        (end as nat, if skip < v.len() {
            out + v.subrange(skip, end)
        } else {
            out
        })
    } else if run_at(v, idx) {
        let d = dups_spec(v, idx);
        proof {
            lemma_dups_from_bounds(v, idx + 3, 0);
        }
        encode_scan(
            v,
            size,
            idx + d + 4,
            idx + d + 4,
            out + v.subrange(skip, idx) + v.subrange(idx, idx + 4) + seq![d as u8],
        )
    } else {
        encode_scan(v, size, idx + 1, skip, out)
    }
}

/// The result of `rle_encode`: bytes consumed and RLE1 data. Input too short to hold a
/// run is consumed up to `size` and copied as it is.
pub open spec fn rle_encode_spec(v: Seq<u8>, size: nat) -> (nat, Seq<u8>) {
    if v.len() < 4 || size < 4 {
        let n: nat = if v.len() < size {
            v.len()
        } else {
            size
        };
        (n, v.take(n as int))
    } else {
        encode_scan(v, size, 0, 0, Seq::empty())
    }
}

/// What RLE1 data decodes to: where four identical bytes are followed by a count, the
/// count more copies of the byte follow them; every other byte stands for itself.
pub open spec fn rle1_decode_spec(w: Seq<u8>) -> Seq<u8>
    decreases w.len(),
{
    if w.len() <= 4 {
        w
    } else if run_at(w, 0) {
        w.take(4) + Seq::new(w[4] as nat, |k: int| w[0]) + rle1_decode_spec(w.skip(5))
    } else {
        seq![w[0]] + rle1_decode_spec(w.skip(1))
    }
}

/// Bounds on the repeat count.
pub proof fn lemma_dups_from_bounds(v: Seq<u8>, j: int, count: nat)
    requires
        count < 255,
        0 <= j,
    ensures
        count <= dups_from(v, j, count) <= 255,
        j < v.len() ==> dups_from(v, j, count) - count <= v.len() - 1 - j,
    decreases v.len() - j,
{
    if j >= v.len() - 1 || v[j] != v[j + 1] {
    } else if count + 1 >= 255 {
    } else {
        lemma_dups_from_bounds(v, j + 1, count + 1);
    }
}

/// The repeats counted after a run are copies of the byte at `j`.
proof fn lemma_dups_same(v: Seq<u8>, j: int, count: nat)
    requires
        count < 255,
        0 <= j,
    ensures
        forall|m: int| j < m <= j + dups_from(v, j, count) - count ==> m < v.len() && #[trigger] v[m] == v[j],
    decreases v.len() - j,
{
    lemma_dups_from_bounds(v, j, count);
    if j >= v.len() - 1 || v[j] != v[j + 1] {
    } else if count + 1 >= 255 {
        assert(dups_from(v, j, count) == 255);
        assert forall|m: int| j < m <= j + dups_from(v, j, count) - count implies m < v.len() && #[trigger] v[m]
            == v[j] by {
            assert(m == j + 1);
        }
    } else {
        lemma_dups_same(v, j + 1, count + 1);
        assert(dups_from(v, j, count) == dups_from(v, j + 1, count + 1));
        assert forall|m: int| j < m <= j + dups_from(v, j, count) - count implies m < v.len() && #[trigger] v[m]
            == v[j] by {
            if m > j + 1 {
                assert(v[m] == v[j + 1]);
            }
        }
    }
}

/// Decoding one step at position `i` of `v`.
proof fn lemma_decode_step(v: Seq<u8>, i: int)
    requires
        0 <= i,
        i + 4 < v.len(),
    ensures
        run_at(v, i) ==> rle1_decode_spec(v.skip(i)) == v.subrange(i, i + 4) + Seq::new(
            v[i + 4] as nat,
            |k: int| v[i],
        ) + rle1_decode_spec(v.skip(i + 5)),
        !run_at(v, i) ==> rle1_decode_spec(v.skip(i)) == seq![v[i]] + rle1_decode_spec(v.skip(i + 1)),
{
    let w = v.skip(i);
    assert(w.take(4) =~= v.subrange(i, i + 4));
    assert(w.skip(5) =~= v.skip(i + 5));
    assert(w.skip(1) =~= v.skip(i + 1));
    assert(Seq::new(w[4] as nat, |k: int| w[0]) =~= Seq::new(v[i + 4] as nat, |k: int| v[i]));
}

/// Bytes with no run of four that a count could follow decode to themselves.
proof fn lemma_literal(v: Seq<u8>, s: int, e: int)
    requires
        0 <= s <= e <= v.len(),
        forall|k: int| s <= k && k + 4 < e ==> !#[trigger] run_at(v, k),
    ensures
        rle1_decode_spec(v.subrange(s, e)) == v.subrange(s, e),
    decreases e - s,
{
    let w = v.subrange(s, e);
    if w.len() > 4 {
        assert(!run_at(v, s));
        assert(!run_at(w, 0));
        lemma_literal(v, s + 1, e);
        assert(w.skip(1) =~= v.subrange(s + 1, e));
        assert(seq![w[0]] + v.subrange(s + 1, e) =~= w);
    }
}

/// Literal bytes, then a run of four and its count, decode to the bytes and the run.
proof fn lemma_chunk(v: Seq<u8>, s: int, idx: int, d: nat, rest: Seq<u8>)
    requires
        0 <= s <= idx,
        idx + 4 <= v.len(),
        run_at(v, idx),
        forall|k: int| s <= k < idx ==> !#[trigger] run_at(v, k),
        d <= 255,
    ensures
        rle1_decode_spec(v.subrange(s, idx) + v.subrange(idx, idx + 4) + seq![d as u8] + rest)
            == v.subrange(s, idx + 4) + Seq::new(d, |k: int| v[idx]) + rle1_decode_spec(rest),
    decreases idx - s,
{
    let w = v.subrange(s, idx) + v.subrange(idx, idx + 4) + seq![d as u8] + rest;
    assert(w.len() >= 5);
    assert forall|t: int| 0 <= t < idx + 4 - s implies #[trigger] w[t] == v[s + t] by {
        if t < idx - s {
        } else {
        }
    }
    if s == idx {
        assert(w[0] == v[idx] && w[1] == v[idx + 1] && w[2] == v[idx + 2] && w[3] == v[idx + 3]);
        assert(run_at(w, 0));
        assert(w.take(4) =~= v.subrange(idx, idx + 4));
        assert(w[4] == d as u8);
        assert(w.skip(5) =~= rest);
        assert(Seq::new(w[4] as nat, |k: int| w[0]) =~= Seq::new(d, |k: int| v[idx]));
        assert(v.subrange(s, idx + 4) =~= v.subrange(idx, idx + 4));
    } else {
        assert(!run_at(v, s));
        assert(w[0] == v[s] && w[1] == v[s + 1] && w[2] == v[s + 2] && w[3] == v[s + 3]);
        assert(!run_at(w, 0));
        lemma_chunk(v, s + 1, idx, d, rest);
        assert(w.skip(1) =~= v.subrange(s + 1, idx) + v.subrange(idx, idx + 4) + seq![d as u8] + rest);
        assert(seq![w[0]] + v.subrange(s + 1, idx + 4) =~= v.subrange(s, idx + 4));
    }
}

/// What the encoder writes from a state of its scan decodes to the input it consumes.
proof fn lemma_encode_decodes(v: Seq<u8>, size: nat, idx: int, skip: int, out: Seq<u8>)
    requires
        v.len() >= 4,
        0 <= skip <= idx <= v.len(),
        forall|k: int| skip <= k < idx ==> k + 3 < v.len() && !#[trigger] run_at(v, k),
    ensures
        ({
            let (n, o) = encode_scan(v, size, idx, skip, out);
            &&& skip <= n <= v.len()
            &&& o.len() >= out.len()
            &&& o.take(out.len() as int) == out
            &&& rle1_decode_spec(o.skip(out.len() as int)) == v.subrange(skip, n as int)
        }),
    decreases v.len() - idx,
{
    let (n, o) = encode_scan(v, size, idx, skip, out);
    if idx >= v.len() - 3 || idx < skip || skip < 0 || out.len() + (idx - skip) >= size {
        let end = if v.len() - idx <= 3 {
            v.len() as int
        } else {
            idx
        };
        if skip < v.len() {
            lemma_literal(v, skip, end);
            assert(o.take(out.len() as int) =~= out);
            assert(o.skip(out.len() as int) =~= v.subrange(skip, end));
        } else {
            assert(o.take(out.len() as int) =~= out);
            assert(o.skip(out.len() as int) =~= Seq::<u8>::empty());
            assert(v.subrange(skip, n as int) =~= Seq::<u8>::empty());
        }
    } else if run_at(v, idx) {
        let d = dups_spec(v, idx);
        lemma_dups_from_bounds(v, idx + 3, 0);
        lemma_dups_same(v, idx + 3, 0);
        let out2 = out + v.subrange(skip, idx) + v.subrange(idx, idx + 4) + seq![d as u8];
        lemma_encode_decodes(v, size, idx + d + 4, idx + d + 4, out2);
        let rest = o.skip(out2.len() as int);
        assert(o.take(out.len() as int) =~= o.take(out2.len() as int).take(out.len() as int));
        assert(o.take(out.len() as int) =~= out);
        assert(o.skip(out.len() as int) =~= v.subrange(skip, idx) + v.subrange(idx, idx + 4) + seq![
            d as u8,
        ] + rest) by {
            assert(o =~= o.take(out2.len() as int) + rest);
        }
        lemma_chunk(v, skip, idx, d, rest);
        assert(Seq::new(d, |k: int| v[idx]) =~= v.subrange(idx + 4, idx + 4 + d)) by {
            assert forall|k: int| 0 <= k < d implies #[trigger] v[idx + 4 + k] == v[idx] by {
                let m = idx + 4 + k;
                assert(v[m] == v[idx + 3]);
            }
        }
        assert(v.subrange(skip, idx + 4) + v.subrange(idx + 4, idx + 4 + d) + v.subrange(
            idx + d + 4,
            n as int,
        ) =~= v.subrange(skip, n as int));
    } else {
        lemma_encode_decodes(v, size, idx + 1, skip, out);
    }
}

/// RLE1 decoding gives back exactly the bytes that the encoder consumed.
pub proof fn lemma_rle1_roundtrip(v: Seq<u8>, size: nat)
    ensures
        rle_encode_spec(v, size).0 <= v.len(),
        rle1_decode_spec(rle_encode_spec(v, size).1) == v.take(rle_encode_spec(v, size).0 as int),
{
    if v.len() < 4 || size < 4 {
    } else {
        lemma_encode_decodes(v, size, 0, 0, Seq::empty());
        let (n, o) = encode_scan(v, size, 0, 0, Seq::empty());
        assert(o.skip(0) =~= o);
        assert(v.subrange(0, n as int) =~= v.take(n as int));
    }
}

/// From a state of its scan within `size + 4` bytes of output, the encoder consumes at
/// least up to where it stands and writes at most `size + 7` bytes.
proof fn lemma_scan_sizes(v: Seq<u8>, size: nat, idx: int, skip: int, out: Seq<u8>)
    requires
        v.len() >= 4,
        0 <= skip <= idx <= v.len(),
        out.len() + (idx - skip) <= size + 4,
    ensures
        encode_scan(v, size, idx, skip, out).0 >= idx,
        encode_scan(v, size, idx, skip, out).1.len() <= size + 7,
    decreases v.len() - idx,
{
    if idx >= v.len() - 3 || idx < skip || skip < 0 || out.len() + (idx - skip) >= size {
    } else if run_at(v, idx) {
        let d = dups_spec(v, idx);
        lemma_dups_from_bounds(v, idx + 3, 0);
        lemma_scan_sizes(
            v,
            size,
            idx + d + 4,
            idx + d + 4,
            out + v.subrange(skip, idx) + v.subrange(idx, idx + 4) + seq![d as u8],
        );
    } else {
        lemma_scan_sizes(v, size, idx + 1, skip, out);
    }
}

/// On input that is not empty, the encoder consumes at least one byte and writes from
/// one to `size + 7` bytes.
pub proof fn lemma_rle_encode_sizes(v: Seq<u8>, size: nat)
    requires
        v.len() >= 1,
        size >= 1,
    ensures
        rle_encode_spec(v, size).0 >= 1,
        1 <= rle_encode_spec(v, size).1.len() <= size + 7,
{
    lemma_rle1_roundtrip(v, size);
    let (n, o) = rle_encode_spec(v, size);
    if v.len() < 4 || size < 4 {
    } else {
        let s0 = Seq::<u8>::empty();
        if run_at(v, 0) {
            let d = dups_spec(v, 0);
            lemma_dups_from_bounds(v, 3, 0);
            lemma_scan_sizes(v, size, (d + 4) as int, (d + 4) as int, s0 + v.subrange(0, 0) + v.subrange(0, 4) + seq![d as u8]);
        } else {
            lemma_scan_sizes(v, size, 1, 0, s0);
        }
    }
    assert(v.take(n as int).len() >= 1);
    if o.len() == 0 {
        assert(rle1_decode_spec(o) == o);
    }
}

/// Helper function for rle_encode to count how many duplicate bytes occur.
fn count_dups(v: &[u8], i: usize) -> (count: usize)
    requires
        v@.len() >= 1,
        i + 3 <= v@.len(),
    ensures
        count == dups_spec(v@, i as int),
        count <= 255,
        i + 3 < v@.len() ==> count + i + 4 <= v@.len(),
{
    proof {
        lemma_dups_from_bounds(v@, i + 3, 0);
    }
    let n = v.len();
    let mut count: usize = 0;
    let mut j: usize = i + 3;
    while j < v.len() - 1
        invariant
            i + 3 <= j,
            count == j - (i + 3),
            count < 255,
            j <= v@.len(),
            v@.len() >= 1,
            dups_from(v@, j as int, count as nat) == dups_spec(v@, i as int),
        decreases v@.len() - j,
    {
        if v[j] != v[j + 1] {
            return count;
        }
        count = count + 1;
        if count == 255 {
            return count;
        }
        j = j + 1;
    }
    count
}

/// Encode runs of for our more identical bytes, pre-BWT. Returns number of bytes consumed and the RLE1 data.
pub fn rle_encode(v: &[u8], size: usize) -> (res: (usize, Vec<u8>))
    ensures
        res.0 == rle_encode_spec(v@, size as nat).0,
        res.1@ == rle_encode_spec(v@, size as nat).1,
        res.0 <= v@.len(),
        rle1_decode_spec(res.1@) == v@.take(res.0 as int),
{
    proof {
        lemma_rle1_roundtrip(v@, size as nat);
    }
    if v.len() < 4 || size < 4 {
        let n = if v.len() < size {
            v.len()
        } else {
            size
        };
        let mut short: Vec<u8> = Vec::with_capacity(n);
        let mut k: usize = 0;
        while k < n
            invariant
                k <= n <= v@.len(),
                short@ == v@.take(k as int),
            decreases n - k,
        {
            short.push(v[k]);
            proof {
                assert(v@.take(k + 1) =~= v@.take(k as int).push(v@[k as int]));
            }
            k = k + 1;
        }
        return (n, short);
    }
    let mut skip_start: usize = 0;
    let mut out: Vec<u8> = Vec::with_capacity(v.len());
    let data_end = v.len() - 3;
    let mut idx: usize = 0;
    while idx < data_end
        invariant_except_break
            v@.len() >= 4,
            data_end == v@.len() - 3,
            skip_start <= idx <= v@.len(),
            encode_scan(v@, size as nat, idx as int, skip_start as int, out@)
                == encode_scan(v@, size as nat, 0, 0, Seq::empty()),
        ensures
            v@.len() >= 4,
            skip_start <= idx <= v@.len(),
            encode_scan(v@, size as nat, idx as int, skip_start as int, out@)
                == encode_scan(v@, size as nat, 0, 0, Seq::empty()),
            idx >= data_end || out@.len() + (idx - skip_start) >= size,
        decreases v@.len() - idx,
    {
        if out.len() >= size || idx - skip_start >= size - out.len() {
            break ;
        }
        if v[idx] == v[idx + 1] && v[idx] == v[idx + 2] && v[idx] == v[idx + 3] {
            let ghost before = out@;
            let mut k: usize = skip_start;
            while k < idx
                invariant
                    skip_start <= k <= idx,
                    idx < v@.len(),
                    out@ == before + v@.subrange(skip_start as int, k as int),
                decreases idx - k,
            {
                out.push(v[k]);
                proof {
                    assert(v@.subrange(skip_start as int, k + 1) =~= v@.subrange(
                        skip_start as int,
                        k as int,
                    ).push(v@[k as int]));
                }
                k = k + 1;
            }
            let dups = count_dups(v, idx);
            out.push(v[idx]);
            out.push(v[idx + 1]);
            out.push(v[idx + 2]);
            out.push(v[idx + 3]);
            out.push(dups as u8);
            proof {
                assert(out@ =~= before + v@.subrange(skip_start as int, idx as int) + v@.subrange(
                    idx as int,
                    idx + 4,
                ) + seq![dups as u8]);
            }
            idx = idx + dups + 4;
            skip_start = idx;
        } else {
            idx = idx + 1;
        }
    }
    // If we are nearly at the end of the data, fix idx
    if v.len() - idx <= 3 {
        idx = v.len();
    }
    // If needed, write what we skipped
    if skip_start < v.len() {
        let ghost before = out@;
        let mut k: usize = skip_start;
        while k < idx
            invariant
                skip_start <= k <= idx <= v@.len(),
                out@ == before + v@.subrange(skip_start as int, k as int),
            decreases idx - k,
        {
            out.push(v[k]);
            proof {
                assert(v@.subrange(skip_start as int, k + 1) =~= v@.subrange(
                    skip_start as int,
                    k as int,
                ).push(v@[k as int]));
            }
            k = k + 1;
        }
    }
    (idx, out)
}

/// Unencodes runs of four or more characters from the RLE1 phase
pub fn rle1_decode(v: &[u8]) -> (out: Vec<u8>)
    requires
        v@.len() >= 4,
    ensures
        out@ == rle1_decode_spec(v@),
{
    let mut start: usize = 0;
    let mut jump_past_search: usize = 0;
    let mut out: Vec<u8> = Vec::with_capacity(v.len());
    let mut i: usize = 0;
    proof {
        assert(v@.skip(0) =~= v@);
        assert(v@.subrange(0, 0) =~= Seq::<u8>::empty());
        assert(out@ + v@.subrange(0, 0) + rle1_decode_spec(v@.skip(0)) =~= rle1_decode_spec(v@));
    }
    while i < v.len() - 4
        invariant
            v@.len() >= 4,
            i <= v@.len() - 4,
            start <= v@.len(),
            jump_past_search <= 4,
            jump_past_search > 0 ==> start == i + jump_past_search,
            jump_past_search == 0 ==> start <= i,
            jump_past_search == 0 ==> out@ + v@.subrange(start as int, i as int) + rle1_decode_spec(
                v@.skip(i as int),
            ) == rle1_decode_spec(v@),
            jump_past_search > 0 ==> out@ + rle1_decode_spec(v@.skip(start as int)) == rle1_decode_spec(
                v@,
            ),
        decreases v@.len() - i,
    {
        proof {
            lemma_decode_step(v@, i as int);
        }
        if jump_past_search > 0 {
            jump_past_search = jump_past_search - 1;
            proof {
                if jump_past_search == 0 {
                    assert(v@.subrange(start as int, i + 1) =~= Seq::<u8>::empty());
                    assert(out@ + v@.subrange(start as int, i + 1) =~= out@);
                }
            }
        } else if v[i] == v[i + 1] && v[i] == v[i + 2] && v[i] == v[i + 3] {
            let ghost before = out@;
            let mut k: usize = start;
            while k < i + 4
                invariant
                    start <= k <= i + 4,
                    i + 4 < v@.len(),
                    v@.len() == v.len(),
                    out@ == before + v@.subrange(start as int, k as int),
                decreases i + 4 - k,
            {
                out.push(v[k]);
                proof {
                    assert(v@.subrange(start as int, k + 1) =~= v@.subrange(start as int, k as int).push(
                        v@[k as int],
                    ));
                }
                k = k + 1;
            }
            let ghost mid = out@;
            let count = v[i + 4] as usize;
            let mut c: usize = 0;
            while c < count
                invariant
                    c <= count,
                    count == v@[i + 4],
                    i + 4 < v@.len(),
                    out@ == mid + Seq::new(c as nat, |k: int| v@[i as int]),
                decreases count - c,
            {
                out.push(v[i]);
                proof {
                    assert(mid + Seq::new((c + 1) as nat, |k: int| v@[i as int]) =~= (mid
                        + Seq::new(c as nat, |k: int| v@[i as int])).push(v@[i as int]));
                }
                c = c + 1;
            }
            proof {
                assert(v@.subrange(start as int, i as int) + v@.subrange(i as int, i + 4) =~= v@.subrange(
                    start as int,
                    i + 4,
                ));
                assert(out@ + rle1_decode_spec(v@.skip(i + 5)) =~= before + v@.subrange(
                    start as int,
                    i as int,
                ) + rle1_decode_spec(v@.skip(i as int)));
            }
            jump_past_search = 4;
            start = i + 5;
        } else {
            proof {
                assert(out@ + v@.subrange(start as int, i + 1) + rle1_decode_spec(v@.skip(i + 1)) =~= out@
                    + v@.subrange(start as int, i as int) + rle1_decode_spec(v@.skip(i as int)));
            }
        }
        i = i + 1;
    }
    let ghost before = out@;
    let mut k: usize = start;
    while k < v.len()
        invariant
            start <= k <= v@.len(),
            out@ == before + v@.subrange(start as int, k as int),
        decreases v@.len() - k,
    {
        out.push(v[k]);
        proof {
            assert(v@.subrange(start as int, k + 1) =~= v@.subrange(start as int, k as int).push(
                v@[k as int],
            ));
        }
        k = k + 1;
    }
    proof {
        if jump_past_search == 0 {
            assert(v@.skip(i as int) =~= v@.subrange(i as int, v@.len() as int));
            assert(v@.subrange(start as int, i as int) + v@.subrange(i as int, v@.len() as int) =~= v@.subrange(
                start as int,
                v@.len() as int,
            ));
        } else {
            assert(v@.skip(start as int) =~= v@.subrange(start as int, v@.len() as int));
        }
    }
    out
}

} // verus!
