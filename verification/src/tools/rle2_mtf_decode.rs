//! The inverse of the RLE2 and move-to-front transforms: RLE2 symbols back to bytes.
use vstd::prelude::*;
use vstd::arithmetic::power2::{lemma2_to64, lemma_pow2_unfold, pow2};
use crate::sort::bucket_sort::count_byte;
use crate::tools::mtf::{
    lemma_mtf_state, lemma_present_upto, move_to_front, mtf_spec, mtf_state, position,
    present_symbols,
};
use crate::tools::rle2::{
    drop_eob, lemma_max_symbol, lemma_max_symbol_below, lemma_rle2_roundtrip, lemma_rle2_small,
    lemma_run_value_min, lemma_run_value_push, max_symbol, rle2_spec, rle2_undo, run_value, widen,
    zeros16, RUNA, RUNB, ZERO_BOMB,
};

verus! {

/// The list after undoing the move-to-front indexes `idx`, starting from `ix`.
pub open spec fn mtf_undo_state(ix: Seq<u8>, idx: Seq<u16>) -> Seq<u8>
    decreases idx.len(),
{
    if idx.len() == 0 {
        ix
    } else {
        move_to_front(mtf_undo_state(ix, idx.drop_last()), idx.last() as int)
    }
}

/// The bytes that the move-to-front indexes `idx` stand for, starting from the list `ix`.
pub open spec fn mtf_undo(ix: Seq<u8>, idx: Seq<u16>) -> Seq<u8>
    decreases idx.len(),
{
    if idx.len() == 0 {
        Seq::empty()
    } else {
        mtf_undo(ix, idx.drop_last()).push(mtf_undo_state(ix, idx.drop_last())[idx.last() as int])
    }
}

/// Whether every index of `idx` is below `n`.
pub open spec fn indexes_below(idx: Seq<u16>, n: int) -> bool {
    forall|k: int| 0 <= k < idx.len() ==> (idx[k] as int) < n
}

/// Whether the RLE2 symbols `r` can be decoded against a list of `n` byte values (the
/// end-of-block entry included) into at most `size` values: every symbol other than
/// RUNA/RUNB names an entry of the list, and the last one is such a symbol.
pub open spec fn rle2_mtf_ready(r: Seq<u16>, n: int, size: int) -> bool {
    &&& r.len() > 0
    &&& r.last() > RUNB
    &&& forall|k: int| 0 <= k < r.len() && r[k] > RUNB ==> r[k] - 1 < n
    &&& rle2_undo(r, Seq::empty()).len() <= size
    &&& size <= ZERO_BOMB
}

proof fn lemma_state_len(ix: Seq<u8>, idx: Seq<u16>)
    requires
        indexes_below(idx, ix.len() as int),
    ensures
        mtf_undo_state(ix, idx).len() == ix.len(),
    decreases idx.len(),
{
    if idx.len() > 0 {
        lemma_state_len(ix, idx.drop_last());
    }
}

pub proof fn lemma_undo_len(r: Seq<u16>, pend: Seq<u16>)
    ensures
        rle2_undo(r, pend).len() >= run_value(pend),
    decreases r.len(),
{
    if r.len() > 0 && r[0] <= RUNB {
        lemma_undo_len(r.drop_first(), pend.push(r[0]));
        lemma_run_value_push(pend, r[0]);
    }
}

proof fn lemma_undo_below(r: Seq<u16>, pend: Seq<u16>, n: int)
    requires
        n >= 1,
        forall|k: int| 0 <= k < r.len() && r[k] > RUNB ==> r[k] - 1 < n,
    ensures
        indexes_below(rle2_undo(r, pend), n),
    decreases r.len(),
{
    if r.len() > 0 {
        if r[0] <= RUNB {
            lemma_undo_below(r.drop_first(), pend.push(r[0]), n);
        } else {
            lemma_undo_below(r.drop_first(), Seq::empty(), n);
            let a = zeros16(run_value(pend));
            let b = seq![(r[0] - 1) as u16];
            let c = rle2_undo(r.drop_first(), Seq::empty());
            assert forall|k: int| 0 <= k < (a + b + c).len() implies ((a + b + c)[k] as int) < n by {
                if k >= a.len() + 1 {
                    assert((a + b + c)[k] == c[k - a.len() - 1]);
                }
            }
        }
    }
}

/// Whether [`rle2_mtf_decode`] can decode `r` against a list of `n` entries into at most
/// `size` values.
pub fn rle2_mtf_check(r: &[u16], n: usize, size: usize) -> (ok: bool)
    ensures
        ok == rle2_mtf_ready(r@, n as int, size as int),
{
    if r.len() == 0 || r[r.len() - 1] <= RUNB || size > ZERO_BOMB as usize {
        return false;
    }
    let ghost total = rle2_undo(r@, Seq::empty());
    let mut done_len: usize = 0;
    let mut zeros: usize = 0;
    let mut bit_multiplier: usize = 1;
    let ghost mut pend: Seq<u16> = Seq::empty();
    proof {
        lemma2_to64();
        assert(r@.skip(0) =~= r@);
    }
    let mut i: usize = 0;
    while i < r.len()
        invariant
            i <= r@.len(),
            r@.len() > 0,
            r@.last() > RUNB,
            size <= ZERO_BOMB,
            total == rle2_undo(r@, Seq::empty()),
            zeros == run_value(pend),
            bit_multiplier == pow2(pend.len()),
            zeros <= size,
            done_len <= size,
            done_len + rle2_undo(r@.skip(i as int), pend).len() == total.len(),
            forall|k: int| 0 <= k < i && r@[k] > RUNB ==> r@[k] - 1 < n,
            i < r@.len() || pend.len() == 0,
        decreases r@.len() - i,
    {
        let ghost rest = r@.skip(i as int);
        proof {
            assert(rest.drop_first() =~= r@.skip(i + 1));
            lemma_run_value_min(pend);
        }
        let symbol = r[i];
        if symbol <= RUNB {
            proof {
                lemma_run_value_push(pend, symbol);
                if symbol == RUNA {
                    assert((symbol + 1) * pow2(pend.len()) == pow2(pend.len())) by (nonlinear_arith)
                        requires
                            symbol == 0,
                    ;
                } else {
                    assert((symbol + 1) * pow2(pend.len()) == 2 * pow2(pend.len())) by (nonlinear_arith)
                        requires
                            symbol == 1,
                    ;
                }
                assert(rle2_undo(rest, pend) == rle2_undo(r@.skip(i + 1), pend.push(symbol)));
            }
            let add = if symbol == RUNA {
                bit_multiplier
            } else {
                bit_multiplier * 2
            };
            if zeros + add > size - done_len {
                proof {
                    lemma_undo_len(r@.skip(i + 1), pend.push(symbol));
                }
                return false;
            }
            zeros = zeros + add;
            bit_multiplier = bit_multiplier * 2;
            proof {
                pend = pend.push(symbol);
                lemma_pow2_unfold(pend.len());
            }
        } else {
            if symbol - 1 >= n as u16 || n > 0xffff {
                if n <= 0xffff {
                    assert(r@[i as int] > RUNB && !(r@[i as int] - 1 < n));
                    return false;
                }
            }
            proof {
                assert(rle2_undo(rest, pend) == zeros16(run_value(pend)) + seq![(symbol - 1) as u16]
                    + rle2_undo(r@.skip(i + 1), Seq::empty()));
                lemma_undo_len(r@.skip(i + 1), Seq::empty());
            }
            if zeros + 1 > size - done_len {
                return false;
            }
            done_len = done_len + zeros + 1;
            zeros = 0;
            bit_multiplier = 1;
            proof {
                pend = Seq::empty();
                lemma2_to64();
            }
        }
        i = i + 1;
    }
    proof {
        assert(r@.skip(i as int) =~= Seq::<u16>::empty());
    }
    true
}

/// Does run-length-decoding from rle2_encode, and undoes the move-to-front transform
/// against the symbol list `mtf_index` (to which the end-of-block entry is added). The
/// value of the end-of-block symbol is left out of the output.
#[verifier::spinoff_prover]
pub fn rle2_mtf_decode(data_in: &[u16], mtf_index: &mut Vec<u8>, size: usize) -> (out: Vec<u8>)
    requires
        rle2_mtf_ready(data_in@, old(mtf_index)@.len() + 1int, size as int),
    ensures
        out@ == drop_eob(mtf_undo(old(mtf_index)@.push(0), rle2_undo(data_in@, Seq::empty()))),
        final(mtf_index)@ == mtf_undo_state(
            old(mtf_index)@.push(0),
            rle2_undo(data_in@, Seq::empty()),
        ),
{
    let ghost total = rle2_undo(data_in@, Seq::empty());
    let mut out: Vec<u8> = Vec::with_capacity(size);
    let mut zeros: usize = 0;
    let mut bit_multiplier: usize = 1;
    mtf_index.push(0);
    let ghost ix = mtf_index@;
    let ghost mut pend: Seq<u16> = Seq::empty();
    let ghost mut done: Seq<u16> = Seq::empty();
    proof {
        lemma2_to64();
        assert(data_in@.skip(0) =~= data_in@);
        assert(done + total =~= total);
        lemma_undo_below(data_in@, Seq::empty(), ix.len() as int);
    }
    let mut i: usize = 0;
    while i < data_in.len()
        invariant
            i <= data_in@.len(),
            rle2_mtf_ready(data_in@, ix.len() as int, size as int),
            total == rle2_undo(data_in@, Seq::empty()),
            indexes_below(total, ix.len() as int),
            ix.len() >= 1,
            zeros == run_value(pend),
            bit_multiplier == pow2(pend.len()),
            done + rle2_undo(data_in@.skip(i as int), pend) == total,
            out@ == mtf_undo(ix, done),
            mtf_index@ == mtf_undo_state(ix, done),
            indexes_below(done, ix.len() as int),
            i < data_in@.len() || pend.len() == 0,
        decreases data_in@.len() - i,
    {
        let ghost rest = data_in@.skip(i as int);
        proof {
            assert(rest.drop_first() =~= data_in@.skip(i + 1));
            lemma_undo_len(rest, pend);
            lemma_run_value_min(pend);
            lemma_state_len(ix, done);
        }
        let symbol = data_in[i];
        if symbol == RUNA || symbol == RUNB {
            proof {
                lemma_run_value_push(pend, symbol);
                if symbol == RUNA {
                    assert((symbol + 1) * pow2(pend.len()) == pow2(pend.len())) by (nonlinear_arith)
                        requires
                            symbol == 0,
                    ;
                    assert(run_value(pend.push(symbol)) == run_value(pend) + pow2(pend.len()));
                } else {
                    assert((symbol + 1) * pow2(pend.len()) == 2 * pow2(pend.len())) by (nonlinear_arith)
                        requires
                            symbol == 1,
                    ;
                    assert(run_value(pend.push(symbol)) == run_value(pend) + 2 * pow2(pend.len()));
                }
                assert(rle2_undo(rest, pend) == rle2_undo(data_in@.skip(i + 1), pend.push(symbol)));
                pend = pend.push(symbol);
                lemma_pow2_unfold(pend.len());
                lemma_undo_len(data_in@.skip(i + 1), pend);
                lemma_run_value_min(pend);
            }
            if symbol == RUNA {
                zeros = zeros + bit_multiplier;
            } else {
                zeros = zeros + bit_multiplier * 2;
            }
            bit_multiplier = bit_multiplier * 2;
        } else {
            let ghost z = zeros16(run_value(pend));
            let mut k: usize = 0;
            while k < zeros
                invariant
                    k <= zeros,
                    zeros == run_value(pend),
                    z == zeros16(run_value(pend)),
                    ix.len() >= 1,
                    out@ == mtf_undo(ix, done + z.take(k as int)),
                    mtf_index@ == mtf_undo_state(ix, done + z.take(k as int)),
                    mtf_undo_state(ix, done + z.take(k as int)) == mtf_undo_state(ix, done),
                    mtf_index@.len() == ix.len(),
                decreases zeros - k,
            {
                let b = mtf_index[0];
                out.push(b);
                proof {
                    let d = done + z.take(k as int);
                    assert(done + z.take(k + 1) =~= d.push(0));
                    assert(d.push(0).drop_last() =~= d);
                    assert(move_to_front(mtf_undo_state(ix, d), 0) =~= mtf_undo_state(ix, d));
                }
                k = k + 1;
            }
            proof {
                assert(z.take(zeros as int) =~= z);
            }
            zeros = 0;
            bit_multiplier = 1;
            let loc = (symbol - 1) as usize;
            proof {
                assert(total =~= (done + z) + (seq![(symbol - 1) as u16] + rle2_undo(data_in@.skip(i + 1), Seq::empty())));
                assert(total[(done + z).len() as int] == (symbol - 1) as u16);
                lemma_state_len(ix, done);
            }
            let sym = mtf_index.remove(loc);
            out.push(sym);
            mtf_index.insert(0, sym);
            proof {
                let d = done + z;
                assert(d.push((symbol - 1) as u16).drop_last() =~= d);
                assert(mtf_index@ =~= move_to_front(mtf_undo_state(ix, d), loc as int));
                done = d.push((symbol - 1) as u16);
                pend = Seq::empty();
                assert(done + rle2_undo(data_in@.skip(i + 1), pend) =~= total);
                assert forall|q: int| 0 <= q < done.len() implies (done[q] as int) < ix.len() by {
                    assert(done[q] == total[q]);
                }
                lemma2_to64();
            }
        }
        i = i + 1;
    }
    proof {
        assert(data_in@.skip(i as int) =~= Seq::<u16>::empty());
        assert(done =~= total);
    }
    let n = out.len();
    if n > 0 {
        out.truncate(n - 1);
        proof {
            assert(out@ =~= mtf_undo(ix, total).drop_last());
        }
    }
    out
}

proof fn lemma_mtf_positions(ix: Seq<u8>, l: Seq<u8>)
    requires
        ix.no_duplicates(),
        forall|k: int| 0 <= k < l.len() ==> ix.contains(#[trigger] l[k]),
    ensures
        mtf_spec(ix, l).len() == l.len(),
        forall|k: int| 0 <= k < l.len() ==> (mtf_spec(ix, l)[k] as int) < ix.len(),
        ix.len() <= 256 ==> mtf_undo_state(ix.push(0), widen(mtf_spec(ix, l))) == mtf_state(
            ix,
            l,
        ).push(0),
        ix.len() <= 256 ==> mtf_undo(ix.push(0), widen(mtf_spec(ix, l))) == l,
    decreases l.len(),
{
    if l.len() > 0 {
        let l2 = l.drop_last();
        assert forall|k: int| 0 <= k < l2.len() implies ix.contains(#[trigger] l2[k]) by {
            assert(l2[k] == l[k]);
        }
        lemma_mtf_positions(ix, l2);
        lemma_mtf_state(ix, l2);
        let st = mtf_state(ix, l2);
        assert(ix.contains(l[l.len() - 1]));
        assert(st.contains(l.last()));
        let pos = position(st, l.last());
        assert(0 <= pos < st.len() && st[pos] == l.last());
        let m = mtf_spec(ix, l);
        assert(m == mtf_spec(ix, l2).push(pos as u8));
        assert forall|k: int| 0 <= k < l.len() implies (m[k] as int) < ix.len() by {
            if k < l2.len() {
                assert(m[k] == mtf_spec(ix, l2)[k]);
            }
        }
        if ix.len() <= 256 {
            let w = widen(m);
            assert(w.drop_last() =~= widen(mtf_spec(ix, l2)));
            assert(w.last() == pos);
            assert(move_to_front(st.push(0), pos) =~= move_to_front(st, pos).push(0));
        }
    }
}

/// Undoing the move-to-front transform of a block, against its own symbol list with
/// the end-of-block entry added, gives the block back.
pub proof fn lemma_mtf_roundtrip(l: Seq<u8>)
    ensures
        mtf_undo(present_symbols(l).push(0), widen(mtf_spec(present_symbols(l), l))) == l,
{
    let ix = present_symbols(l);
    lemma_present_upto(l, 256);
    assert(ix.no_duplicates()) by {
        assert forall|i: int, j: int| 0 <= i < ix.len() && 0 <= j < ix.len() && i != j implies ix[i] != ix[j] by {
            if i < j {
                assert(ix[i] < ix[j]);
            } else {
                assert(ix[j] < ix[i]);
            }
        }
    }
    assert forall|k: int| 0 <= k < l.len() implies ix.contains(#[trigger] l[k]) by {
        assert(l.contains(l[k]));
    }
    lemma_mtf_positions(ix, l);
}

/// Decoding the symbols that the RLE2 and move-to-front transforms made of a block,
/// closed by their end-of-block symbol, gives the block back: the symbols are ready
/// for [`rle2_mtf_decode`] against the block's symbol list, with room for the block and
/// its end-of-block value, and the output is the block.
pub proof fn lemma_rle2_mtf_roundtrip(l: Seq<u8>)
    requires
        l.len() < ZERO_BOMB,
        max_symbol(mtf_spec(present_symbols(l), l)) >= 1,
    ensures
        ({
            let ix = present_symbols(l);
            let m = mtf_spec(ix, l);
            let r = rle2_spec(m).push((max_symbol(m) + 1) as u16);
            &&& rle2_mtf_ready(r, ix.len() + 1int, l.len() + 1int)
            &&& drop_eob(mtf_undo(ix.push(0), rle2_undo(r, Seq::empty()))) == l
        }),
{
    let ix = present_symbols(l);
    let m = mtf_spec(ix, l);
    let eob = (max_symbol(m) + 1) as u16;
    let r = rle2_spec(m).push(eob);
    lemma_present_upto(l, 256);
    lemma_mtf_roundtrip(l);
    assert(ix.no_duplicates()) by {
        assert forall|i: int, j: int| 0 <= i < ix.len() && 0 <= j < ix.len() && i != j implies ix[i] != ix[j] by {
            if i < j {
                assert(ix[i] < ix[j]);
            } else {
                assert(ix[j] < ix[i]);
            }
        }
    }
    assert forall|k: int| 0 <= k < l.len() implies ix.contains(#[trigger] l[k]) by {
        assert(l.contains(l[k]));
    }
    lemma_mtf_positions(ix, l);
    lemma_max_symbol_below(m, ix.len());
    lemma_max_symbol(m);
    lemma_rle2_small(m, 0, max_symbol(m));
    lemma_rle2_roundtrip(m, eob);
    let u = rle2_undo(r, Seq::empty());
    assert(u == widen(m) + seq![(eob - 1) as u16]);
    assert forall|k: int| 0 <= k < r.len() && r[k] > RUNB implies r[k] - 1 < ix.len() + 1 by {
        if k < r.len() - 1 {
            assert(r[k] == rle2_spec(m)[k]);
        }
    }
    assert(u.drop_last() =~= widen(m));
    assert(mtf_undo(ix.push(0), u).drop_last() =~= mtf_undo(ix.push(0), widen(m)));
}

proof fn lemma_mtf_undo_len(ix: Seq<u8>, idx: Seq<u16>)
    ensures
        mtf_undo(ix, idx).len() == idx.len(),
    decreases idx.len(),
{
    if idx.len() > 0 {
        lemma_mtf_undo_len(ix, idx.drop_last());
    }
}

proof fn lemma_undo_nonempty(r: Seq<u16>, pend: Seq<u16>)
    requires
        r.len() > 0,
        r.last() > RUNB,
    ensures
        rle2_undo(r, pend).len() >= 1,
    decreases r.len(),
{
    if r[0] <= RUNB {
        assert(r.len() > 1);
        assert(r.drop_first().last() == r.last());
        lemma_undo_nonempty(r.drop_first(), pend.push(r[0]));
    }
}

/// The bytes as 32-bit words.
pub open spec fn words_of(s: Seq<u8>) -> Seq<u32> {
    Seq::new(s.len(), |i: int| s[i] as u32)
}

/// Does run-length-decoding from rle2_encode and undoes the move-to-front transform as
/// [`rle2_mtf_decode`] does, giving the output as 32-bit words, with the count of each
/// byte value output (the end-of-block entry's value counted too).
pub fn rle2_mtf_decode_fast(data_in: &[u16], mtf_index: &mut Vec<u8>, size: usize) -> (res: (
    Vec<u32>,
    [u32; 256],
))
    requires
        rle2_mtf_ready(data_in@, old(mtf_index)@.len() + 1int, size as int),
    ensures
        ({
            let u = mtf_undo(old(mtf_index)@.push(0), rle2_undo(data_in@, Seq::empty()));
            &&& res.0@ == words_of(drop_eob(u))
            &&& forall|b: int| 0 <= b < 256 ==> res.1@[b] == count_byte(u, b)
            &&& final(mtf_index)@ == mtf_undo_state(old(mtf_index)@.push(0), rle2_undo(data_in@, Seq::empty()))
        }),
{
    let ghost ix = mtf_index@.push(0);
    let ghost total = rle2_undo(data_in@, Seq::empty());
    let bytes = rle2_mtf_decode(data_in, mtf_index, size);
    let ghost u = mtf_undo(ix, total);
    proof {
        lemma_undo_below(data_in@, Seq::empty(), ix.len() as int);
        lemma_undo_nonempty(data_in@, Seq::empty());
        lemma_mtf_undo_len(ix, total);
        assert(u.last() == mtf_index@[0]);
        assert(bytes@ =~= u.drop_last());
        crate::sort::bucket_sort::lemma_count_byte_len(u, 0);
    }
    let mut out: Vec<u32> = Vec::with_capacity(bytes.len());
    let mut freq: [u32; 256] = [0u32; 256];
    let mut i: usize = 0;
    while i < bytes.len()
        invariant
            i <= bytes@.len(),
            bytes@.len() <= ZERO_BOMB,
            out@ == words_of(bytes@.take(i as int)),
            forall|b: int| 0 <= b < 256 ==> freq@[b] == count_byte(bytes@.take(i as int), b),
        decreases bytes@.len() - i,
    {
        let v = bytes[i];
        proof {
            assert(bytes@.take(i + 1).drop_last() =~= bytes@.take(i as int));
            assert(bytes@.take(i + 1).last() == v);
            crate::sort::bucket_sort::lemma_count_byte_len(bytes@.take(i as int), v as int);
        }
        out.push(v as u32);
        freq[v as usize] = freq[v as usize] + 1;
        proof {
            assert(out@ =~= words_of(bytes@.take(i + 1)));
        }
        i = i + 1;
    }
    let last = mtf_index[0];
    proof {
        assert(bytes@.take(bytes@.len() as int) =~= bytes@);
        assert(u.drop_last().push(u.last()) =~= u);
        crate::sort::bucket_sort::lemma_count_byte_len(bytes@, last as int);
    }
    freq[last as usize] = freq[last as usize] + 1;
    (out, freq)
}

} // verus!
